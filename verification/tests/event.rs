use bevy_vm::document::parse_json;
use bevy_vm::event::{
    merge_with_default, EventError, EventKind, EventRegistry, EventStore, Pulled,
};
use bevy_vm::value::{deep_merge, merge, Value};

fn value(text: &str) -> Value {
    parse_json(text).expect("test value should be valid JSON")
}

fn store() -> (EventRegistry, EventStore) {
    let mut registry = EventRegistry::new();
    registry.register_typed("Click", Some(value(r#"{"button": "left"}"#))).unwrap();
    registry.register_dynamic("Hit", value(r#"{"damage": 1}"#)).unwrap();
    let store = EventStore::new(&registry);
    (registry, store)
}

fn pulled(text: &str) -> Pulled {
    Pulled { events: vec![value(text)], failure: None }
}

#[test]
fn names_are_taken_once() {
    let (mut registry, _) = store();
    let taken = || Err(EventError::KindMismatch { name: "Click".to_owned() });
    assert_eq!(registry.register_dynamic("Click", value("{}")), taken());
    assert_eq!(registry.register_typed("Click", None), taken());
    assert_eq!(
        registry.register_dynamic("Hit", value("{}")),
        Err(EventError::KindMismatch { name: "Hit".to_owned() })
    );
    assert_eq!(registry.names(), ["Click", "Hit"]);
    assert_eq!(registry.typed_names(), ["Click"]);
    assert_eq!(registry.dynamic_names(), ["Hit"]);
    assert!(matches!(registry.resolve("Click"), Some(EventKind::Typed(t)) if t.name() == "Click"));
    assert!(matches!(registry.resolve("Hit"), Some(EventKind::Dynamic(_))));
    assert!(registry.resolve("Miss").is_none());
}

#[test]
fn reads_of_one_tick_agree() {
    let (_, mut store) = store();
    let first = store.read_typed("Click", (), |()| ((), pulled("1"))).1.unwrap();
    assert_eq!(first, [value("1")]);
    let (pulls, second) =
        store.read_typed("Click", 7, |_: u32| panic!("nothing is pulled twice"));
    assert_eq!((pulls, second.unwrap()), (7, vec![value("1")]));
    store.end_tick_all();
    let (pulls, third) = store.read_typed("Click", 7, |n: u32| (n + 1, pulled("2")));
    assert_eq!((pulls, third.unwrap()), (8, vec![value("2")]));
}

#[test]
fn a_failed_pull_keeps_what_it_got_and_is_tried_again() {
    let (_, mut store) = store();
    let failure = EventError::Serialize { name: "Click".to_owned(), reason: "bad".to_owned() };
    let broken = failure.clone();
    let (_, read) = store.read_typed("Click", (), move |()| {
        ((), Pulled { events: vec![value("1")], failure: Some(broken) })
    });
    assert_eq!(read, Err(failure));
    let again = store.read_typed("Click", (), |()| ((), pulled("2"))).1.unwrap();
    assert_eq!(again, [value("1"), value("2")]);
}

#[test]
fn dynamic_events_last_for_one_tick() {
    let (_, mut store) = store();
    assert_eq!(store.push_dynamic("Hit", value("1")), Ok(()));
    assert_eq!(store.push_dynamic("Hit", value("2")), Ok(()));
    assert_eq!(store.dynamic_buffer("Hit").unwrap().current(), &[value("1"), value("2")]);
    assert_eq!(store.drain_dynamic("Hit"), Ok(vec![value("1"), value("2")]));
    assert_eq!(store.drain_dynamic("Hit"), Ok(vec![]));
    store.push_dynamic("Hit", value("3")).unwrap();
    store.end_tick_all();
    assert!(store.dynamic_buffer("Hit").unwrap().current().is_empty());
}

#[test]
fn channels_refuse_what_they_are_not_for() {
    let (_, mut store) = store();
    let mismatch = |name: &str| EventError::KindMismatch { name: name.to_owned() };
    let unknown = |name: &str| EventError::UnknownEvent { name: name.to_owned() };
    assert_eq!(store.push_dynamic("Click", value("1")), Err(mismatch("Click")));
    assert_eq!(store.push_dynamic("Miss", value("1")), Err(unknown("Miss")));
    assert_eq!(store.drain_dynamic("Click"), Err(mismatch("Click")));
    assert_eq!(store.drain_dynamic("Miss"), Err(unknown("Miss")));
    let mut read = |name: &str| store.read_typed(name, 0, |n: u32| (n + 1, pulled("1")));
    assert_eq!(read("Hit"), (0, Err(mismatch("Hit"))));
    assert_eq!(read("Miss"), (0, Err(unknown("Miss"))));
    let missing = || EventError::MissingResource { name: "Click".to_owned() };
    let emit = |name: &str| {
        store.emit_typed(name, value("1"), 0, |n: u32, _: Value| (n + 1, Err(missing())))
    };
    assert_eq!(emit("Hit"), (0, Err(mismatch("Hit"))));
    assert_eq!(emit("Miss"), (0, Err(unknown("Miss"))));
    assert_eq!(emit("Click"), (1, Err(missing())));
    assert!(store.has_typed("Click") && !store.has_typed("Hit"));
}

#[test]
fn payloads_fall_back_to_the_default() {
    let default = value(r#"{"a": 1, "b": {"c": 2}}"#);
    let merged = merge_with_default(value(r#"{"b": {"d": 3}}"#), Some(&default));
    assert_eq!(merged, value(r#"{"a": 1, "b": {"d": 3}}"#));
    assert_eq!(merge_with_default(value("5"), Some(&default)), value("5"));
    assert_eq!(merge_with_default(value("{}"), None), value("{}"));
    assert_eq!(merge(value("1"), value(r#"{"a": 1}"#)), value(r#"{"a": 1}"#));
    assert_eq!(
        deep_merge(default, value(r#"{"b": {"d": 3}}"#)),
        value(r#"{"a": 1, "b": {"c": 2, "d": 3}}"#)
    );
}

#[test]
fn event_errors_have_messages() {
    let s = |t: &str| t.to_owned();
    assert_eq!(EventError::UnknownEvent { name: s("E") }.message(), "event `E` is not registered");
    assert_eq!(
        EventError::KindMismatch { name: s("E") }.message(),
        "event `E` channel kind mismatch (typed vs dynamic)"
    );
    assert_eq!(
        EventError::Serialize { name: s("E"), reason: s("r") }.message(),
        "failed to serialize event `E`: r"
    );
    assert_eq!(
        EventError::Deserialize { name: s("E"), reason: s("r") }.message(),
        "failed to deserialize event `E`: r"
    );
    assert_eq!(
        EventError::MissingResource { name: s("E") }.message(),
        "event `E` has no `Messages<T>` resource in the World"
    );
}
