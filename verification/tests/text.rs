use bevy_vm::paths;
use bevy_vm::plugin_loader::{plugin_stem, resolve_plugin_path};
use bevy_vm::text::{number_text, signed_text, text_index, to_ascii_lower};
use std::path::Path;

#[test]
fn numbers_are_written_in_decimal() {
    for n in [0, 7, 10, 99, 100, 4_294_967_296, u64::MAX] {
        assert_eq!(number_text(n), n.to_string());
        assert_eq!(text_index(&number_text(n)), Some(n as usize));
    }
    for n in [0, -1, 12, i64::MIN, i64::MAX] {
        assert_eq!(signed_text(n), n.to_string());
    }
}

#[test]
fn lower_case_is_that_of_ascii() {
    assert_eq!(to_ascii_lower("JsOn É"), "JsOn É".to_ascii_lowercase());
}

#[test]
fn paths_are_taken_apart_as_the_system_does() {
    let samples = [
        "", "/", "a", "a.ron", "dir/a.ron", "dir/a.b.ron", "dir/.hidden", "dir/", "dir/a/", "..",
        "dir/..", "/a", "a.", "dir/.", "./a.ron", "a//b.json", "x/./y.z",
    ];
    for sample in samples {
        let path = Path::new(sample);
    
        let name = path.file_name().map(|s| s.to_str().unwrap().to_owned());
        let stem = path.file_stem().map(|s| s.to_str().unwrap().to_owned());
        let extension = path.extension().map(|s| s.to_str().unwrap().to_owned());
        assert_eq!(paths::file_name(sample), name, "name of `{sample}`");
        assert_eq!(paths::file_stem(sample), stem, "stem of `{sample}`");
        assert_eq!(paths::extension(sample), extension, "extension of `{sample}`");
    }
    for base in ["", "dir", "dir/", "/"] {
        for rel in ["a.ron", "/abs/b.ron", "sub/c", ""] {
            let joined = Path::new(base).join(rel);
            assert_eq!(paths::join(base, rel), joined.to_str().unwrap());
        }
    }
}

#[test]
fn modules_are_found_next_to_their_file() {
    assert_eq!(resolve_plugin_path("worlds", "combat"), "worlds/combat.ron");
    assert_eq!(resolve_plugin_path("worlds", "sub/combat.json"), "worlds/sub/combat.json");
    assert_eq!(plugin_stem("worlds/sub/combat.json"), "combat");
    assert_eq!(plugin_stem("/"), "/");
}
