use bevy_vm::config::ConfigFormat;
use bevy_vm::dict::Dict;
use bevy_vm::document::{from_tree, parse_json, parse_ron};
use bevy_vm::paths::{parent_dir, same_path};
use bevy_vm::resource::config::{
    config_format, config_root, parse_config, ConfigCache, ConfigError,
};
use bevy_vm::value::{Number, Value};
use std::path::Path;

fn value(text: &str) -> Value {
    parse_json(text).expect("test value should be valid JSON")
}

/// The paths that were read, and the one text that each of them holds.
fn file(text: &'static str) -> impl FnOnce(Vec<String>, &str) -> (Vec<String>, Result<String, String>) {
    move |mut read, path| {
        read.push(path.to_owned());
        (read, Ok(text.to_owned()))
    }
}

#[test]
fn loads_json_and_dedups_paths() {
    let mut cache = ConfigCache::new();
    let text = r#"{"name":"hi","scores":[1,2,3]}"#;
    let (read, id1) = cache.ensure_loaded("/dir", "a.json", Vec::new(), file(text));
    assert_eq!(read, ["/dir/a.json"]);
    let id1 = id1.unwrap();
    let (read, id2) = cache.ensure_loaded("/dir", "a.json", Vec::new(), file(text));
    assert!(read.is_empty(), "a second load reads nothing");
    assert_eq!(id1, id2.unwrap(), "second load reuses cached handle");

    let cfg = cache.get(id1 as i64).unwrap();
    assert_eq!(cfg.get("name").unwrap(), &Value::String("hi".to_owned()));
    assert_eq!(cfg.get("scores.1").unwrap(), &Value::Number(Number::PosInt(2)));
}

#[test]
fn rejects_unknown_extension() {
    let mut cache = ConfigCache::new();
    let (_, loaded) = cache.ensure_loaded("/dir", "a.txt", Vec::new(), file("raw"));
    let err = loaded.unwrap_err();
    assert!(matches!(err, ConfigError::UnsupportedExtension { .. }));
    assert!(cache.is_empty());
}

#[test]
fn path_miss_returns_error() {
    let mut cache = ConfigCache::new();
    let (_, id) = cache.ensure_loaded("/dir", "b.json", Vec::new(), file(r#"{"a":1}"#));
    let cfg = cache.get(id.unwrap() as i64).unwrap();
    assert!(matches!(cfg.get("missing").unwrap_err(), ConfigError::PathMiss { .. }));
}

#[test]
fn handles_count_up_and_stay_valid() {
    let mut cache = ConfigCache::new();
    let first = cache.ensure_loaded("/dir", "a.json", Vec::new(), file("1")).1.unwrap();
    let second = cache.ensure_loaded("/dir", "sub/b.ron", Vec::new(), file("(a: 2)")).1.unwrap();
    assert_ne!(first, second);
    assert_eq!(cache.len(), 2);
    assert_eq!(cache.get(first as i64).unwrap().root(), &value("1"));
    assert_eq!(cache.get(second as i64).unwrap().root(), &value(r#"{"a": 2}"#));
    assert_eq!(cache.get(second as i64).unwrap().source(), "/dir/sub/b.ron");
    assert!(matches!(cache.get(-1), Err(ConfigError::UnknownHandle { handle: -1 })));
    assert!(matches!(cache.get(2), Err(ConfigError::UnknownHandle { handle: 2 })));
}

#[test]
fn one_file_has_one_handle_however_its_path_is_written() {
    let mut cache = ConfigCache::new();
    let mut load = |base: &str, path: &str| {
        let (read, id) = cache.ensure_loaded(base, path, Vec::new(), file("1"));
        (read.len(), id.unwrap())
    };
    assert_eq!(load("d", "a.json"), (1, 0));
    assert_eq!(load("d", "./a.json"), (0, 0));
    assert_eq!(load("d/", ".//a.json"), (0, 0));
    assert_eq!(load("d/.", "a.json"), (0, 0));
    assert_eq!(load("d", "../a.json"), (1, 1));
    assert_eq!(load("./d", "a.json"), (1, 2));
    assert_eq!(load("/d", "a.json"), (1, 3));
    assert_eq!(load("d", "/d//a.json"), (0, 3));
    assert_eq!(cache.get(0).unwrap().source(), "d/a.json");
    for (a, b) in [
        ("a/b", "a//b/"),
        ("./a", "a"),
        ("./a", "././a"),
        ("/./a", "/a"),
        ("a/../b", "b"),
        ("", "."),
        ("/", "//"),
        ("a/.", "a"),
    ] {
        assert_eq!(same_path(a, b), Path::new(a) == Path::new(b), "{a} {b}");
    }
}

#[test]
fn files_lie_in_directories() {
    for path in [
        "", ".", "..", "/", "//", "/.", "./", "a", "a/", "a/b", "a//b", "a/./b", "a/b/.", "a/b//",
        "/a", "//a", "/./a", "/a/b", "./a", "././a", ".//a", "./a/b", "../a", "a/..", "a/../b",
        "/..", "world.ron", "dir/world.ron", "/dir/sub/world.ron", "a/.b", ".a",
    ] {
        let expected = Path::new(path)
            .parent()
            .map_or_else(|| ".".to_owned(), |dir| dir.display().to_string());
        assert_eq!(parent_dir(path), expected, "{path}");
    }
}

#[test]
fn files_that_fail_leave_the_cache_alone() {
    let mut cache = ConfigCache::new();
    let gone = |n: u32, _: &str| (n + 1, Err("gone".to_owned()));
    let (reads, loaded) = cache.ensure_loaded("d", "a.txt", 0, gone);
    assert_eq!(reads, 1);
    let io = ConfigError::Io { path: "a.txt".to_owned(), reason: "gone".to_owned() };
    assert_eq!(loaded, Err(io));
    let (_, loaded) = cache.ensure_loaded("d", "a.json", Vec::new(), file("{"));
    assert!(matches!(loaded, Err(ConfigError::Parse { path, .. }) if path == "a.json"));
    assert!(cache.is_empty());
    let (_, loaded) = cache.ensure_loaded("d", "a.json", Vec::new(), file("{}"));
    assert_eq!(loaded, Ok(0));
}

#[test]
fn documents_hold_what_they_say() {
    let mut inner = Dict::new();
    inner.insert("k".to_owned(), Value::Null);
    let expected = Value::Array(vec![
        Value::Bool(true),
        Value::Number(Number::PosInt(u64::MAX)),
        Value::Number(Number::NegInt(-3)),
        Value::Number(Number::Float(1.5f64.to_bits())),
        Value::String("x".to_owned()),
        Value::Object(inner),
    ]);
    let text = r#"[true, 18446744073709551615, -3, 1.5, "x", {"k": null}]"#;
    assert_eq!(parse_json(text), Ok(expected));
    let tree: serde_json::Value = serde_json::from_str(text).unwrap();
    assert_eq!(parse_json(text), Ok(from_tree(&tree)));
    assert_eq!(
        parse_json("nope"),
        Err(serde_json::from_str::<serde_json::Value>("nope").unwrap_err().to_string())
    );
    assert_eq!(parse_ron(r#"(name: "hi", list: [1, -2])"#), Ok(value(r#"{"name": "hi", "list": [1, -2]}"#)));
    assert_eq!(
        parse_ron("(a:"),
        Err(ron::from_str::<serde_json::Value>("(a:").unwrap_err().to_string())
    );
}

#[test]
fn configs_are_parsed_by_extension() {
    assert_eq!(parse_config("[1]", "/d/a.JSON", "a.JSON"), Ok(value("[1]")));
    assert_eq!(parse_config("(x: 1)", "/d/a.ron", "a.ron"), Ok(value(r#"{"x": 1}"#)));
    let reason = parse_json("(x: 1)").unwrap_err();
    assert_eq!(
        parse_config("(x: 1)", "/d/a.json", "a.json"),
        Err(ConfigError::Parse { path: "a.json".to_owned(), reason })
    );
    assert_eq!(
        parse_config("", "/d/a.TXT", "a.TXT"),
        Err(ConfigError::UnsupportedExtension { ext: "txt".to_owned(), path: "a.TXT".to_owned() })
    );
    assert_eq!(
        config_root(Err("bad".to_owned()), "f.ron"),
        Err(ConfigError::Parse { path: "f.ron".to_owned(), reason: "bad".to_owned() })
    );
    assert_eq!(config_root(Ok(value("1")), "f.ron"), Ok(value("1")));
}

#[test]
fn formats_go_by_extension() {
    assert_eq!(config_format("/d/a.json", "a.json"), Ok(ConfigFormat::Json));
    assert_eq!(config_format("/d/a.RON", "a.RON"), Ok(ConfigFormat::Ron));
    assert_eq!(ConfigFormat::from_extension("Json"), Some(ConfigFormat::Json));
    assert_eq!(ConfigFormat::from_extension("yaml"), None);
}

#[test]
fn config_errors_have_messages() {
    let s = |t: &str| t.to_owned();
    assert_eq!(
        ConfigError::UnsupportedExtension { ext: s("txt"), path: s("a.txt") }.message(),
        "unsupported config extension `txt` for `a.txt` — only .json / .ron allowed"
    );
    assert_eq!(
        ConfigError::Io { path: s("a"), reason: s("gone") }.message(),
        "failed to read config `a`: gone"
    );
    assert_eq!(
        ConfigError::Parse { path: s("a"), reason: s("bad") }.message(),
        "failed to parse config `a`: bad"
    );
    assert_eq!(
        ConfigError::UnknownHandle { handle: i64::MIN }.message(),
        "config handle -9223372036854775808 not found in cache"
    );
    assert_eq!(
        ConfigError::PathMiss { path: s("a.b"), root: s("f.json") }.message(),
        "config path `a.b` cannot be resolved against `f.json`"
    );
}
