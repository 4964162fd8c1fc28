use bevy_vm::document::parse_json;
use bevy_vm::value::Value;
use bevy_vm::world_access::path::{PathError, ValuePathExt};

fn value(text: &str) -> Value {
    parse_json(text).expect("test value should be valid JSON")
}

#[test]
fn get_reads_nested_object_and_array() {
    let root = value(r#"{"stats": {"hp": 10}, "bag": ["sword", "shield"]}"#);
    assert_eq!(root.path_get("stats.hp").expect("应存在"), &value("10"));
    assert_eq!(root.path_get("bag.0").expect("应存在"), &value("\"sword\""));
}

#[test]
fn get_empty_path_returns_root() {
    let root = value(r#"{"hp": 1}"#);
    assert_eq!(root.path_get("").expect("空路径指向根"), &root);
}

#[test]
fn set_modifies_existing_leaf() {
    let mut root = value(r#"{"hp": 10}"#);
    root.path_set("hp", value("3")).expect("应能改写");
    assert_eq!(root.path_get("hp").expect("应存在"), &value("3"));
}

#[test]
fn set_creates_missing_intermediate_objects() {
    let mut root = value("{}");
    root.path_set("a.b.c", value("42")).expect("应能创建中间结构后写入");
    assert_eq!(root.path_get("a.b.c").expect("应存在"), &value("42"));
}

#[test]
fn set_appends_at_array_end() {
    let mut root = value(r#"{"bag": ["a"]}"#);
    root.path_set("bag.1", value("\"b\"")).expect("末尾下标应追加");
    assert_eq!(root.path_get("bag.1").expect("应存在"), &value("\"b\""));
}

#[test]
fn remove_deletes_object_key() {
    let mut root = value(r#"{"hp": 10, "mp": 5}"#);
    root.path_remove("mp").expect("应能删除");
    assert!(root.path_get("mp").is_err(), "删除后键不应存在");
    assert!(root.path_get("hp").is_ok(), "其余键应保留");
}

#[test]
fn remove_deletes_array_element() {
    let mut root = value(r#"{"bag": ["a", "b", "c"]}"#);
    root.path_remove("bag.1").expect("应能删除数组元素");
    assert_eq!(root.path_get("bag.1").expect("应存在"), &value("\"c\""));
}

#[test]
fn step_into_non_container_errors() {
    let root = value(r#"{"hp": 10}"#);
    assert!(root.path_get("hp.x").is_err(), "在标量上下探应报错");
}

#[test]
fn non_numeric_array_index_errors() {
    let root = value(r#"{"bag": ["a"]}"#);
    assert!(root.path_get("bag.x").is_err(), "非数字下标应报错");
}

#[test]
fn every_path_error_comes_with_its_message() {
    let mut root = value(r#"{"hp": 10, "bag": ["a"]}"#);
    let missing = root.path_get("mp").unwrap_err();
    assert_eq!(missing, PathError::KeyNotFound { key: "mp".to_owned() });
    assert_eq!(missing.message(), "key `mp` not found in object");
    let past = root.path_get("bag.12").unwrap_err();
    assert_eq!(past, PathError::IndexOutOfBounds { index: 12, len: 1 });
    assert_eq!(past.message(), "array index 12 out of bounds (length 1)");
    let scalar = root.path_get("hp.x").unwrap_err();
    assert_eq!(scalar, PathError::NotContainer { segment: "x".to_owned() });
    assert_eq!(scalar.message(), "cannot descend into non-container value at segment `x`");
    let far = root.path_set("bag.3", Value::Null).unwrap_err();
    assert_eq!(far, PathError::AssignOutOfBounds { index: 3, len: 1 });
    assert_eq!(far.message(), "cannot assign at array index 3: length is 1");
    let word = root.path_get("bag.x").unwrap_err();
    assert_eq!(word, PathError::NonIntegerIndex { segment: "x".to_owned() });
    assert_eq!(word.message(), "array index must be a non-negative integer, got `x`");
    let top = root.path_remove("").unwrap_err();
    assert_eq!(top, PathError::RemoveRoot);
    assert_eq!(top.message(), "cannot remove the root value");
    assert_eq!(root, value(r#"{"hp": 10, "bag": ["a"]}"#));
}

#[test]
fn empty_segments_are_skipped() {
    let root = value(r#"{"a": {"b": 1}}"#);
    assert_eq!(root.path_get(".a..b."), Ok(&value("1")));
}

#[test]
fn indices_may_carry_a_plus_sign() {
    let root = value(r#"["a", "b"]"#);
    assert_eq!(root.path_get("+1"), Ok(&value("\"b\"")));
    assert_eq!(root.path_get("01"), Ok(&value("\"b\"")));
    assert!(root.path_get("-1").is_err());
    assert!(root.path_get("99999999999999999999999").is_err());
}

#[test]
fn a_write_leaves_other_paths_alone() {
    let mut root = value(r#"{"a": {"b": 1, "c": 2}, "d": [3]}"#);
    root.path_set("a.b", value("9")).unwrap();
    assert_eq!(root, value(r#"{"a": {"b": 9, "c": 2}, "d": [3]}"#));
    root.path_set("a.b", value("8")).unwrap();
    assert_eq!(root.path_get("a.b"), Ok(&value("8")));
}

#[test]
fn removing_what_was_just_added_undoes_it() {
    let mut root = value(r#"{"a": 1}"#);
    root.path_set("b", value("2")).unwrap();
    root.path_remove("b").unwrap();
    assert_eq!(root, value(r#"{"a": 1}"#));
    assert_eq!(root.path_get("b"), Err(PathError::KeyNotFound { key: "b".to_owned() }));
    assert_eq!(root.path_remove("b"), Err(PathError::KeyNotFound { key: "b".to_owned() }));
}
