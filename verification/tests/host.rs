use bevy_ecs::hierarchy::ChildOf;
use bevy_ecs::world::World;
use bevy_vm::document::parse_json;
use bevy_vm::component::ComponentRegistry;
use bevy_vm::dict::Dict;
use bevy_vm::error::VmError;
use bevy_vm::event::{EventError, EventRegistry, EventStore, Pulled};
use bevy_vm::system::script::dynamic::Dynamic;
use bevy_vm::system::script::host;
use bevy_vm::system::script::host::{Axis, Got, ScriptError, SetPlan, TransformAlias};
use bevy_vm::value::{Number, Value};
use bevy_vm::vm::id::{VmId, VmTag};
use bevy_vm::world_access::{SetTarget, Stored, WorldAccessError};

fn value(text: &str) -> Value {
    parse_json(text).expect("test value should be valid JSON")
}

fn components() -> ComponentRegistry {
    let mut registry = ComponentRegistry::new();
    registry.register_typed("Position", 900_000);
    registry.register_dynamic("Health", 900_001, value(r#"{"value": 1}"#)).unwrap();
    registry.register_dynamic("combat::Health", 900_002, value(r#"{"value": 2}"#)).unwrap();
    registry
}

#[test]
fn names_are_looked_up_in_the_plugin_first() {
    let registry = components();
    let full = |plugin: &str, name: &str| host::resolve_component_name(plugin, name, &registry);
    assert_eq!(full("combat", "Health"), "combat::Health");
    assert_eq!(full("ui", "Health"), "Health");
    assert_eq!(full("<root>", "Health"), "Health");
    assert_eq!(full("combat", "Position"), "Position");
    assert_eq!(full("combat", "ui::Health"), "ui::Health");
    assert_eq!(full("combat", "Nothing"), "Nothing");
    let mut events = EventRegistry::new();
    events.register_dynamic("combat::Hit", value("{}")).unwrap();
    assert_eq!(host::resolve_component_name("combat", "Hit", &events), "combat::Hit");
}

#[test]
fn entities_are_signed_integers_in_scripts() {
    for bits in [0, 1, u64::MAX, 1 << 63, i64::MAX as u64, 0x1234_5678_9abc_def0] {
        assert_eq!(host::encode_entity(bits), bits as i64);
        assert_eq!(host::decode_entity(host::encode_entity(bits)), bits);
    }
    for value in [0, -1, i64::MIN, i64::MAX] {
        assert_eq!(host::decode_entity(value), value as u64);
        assert_eq!(host::encode_entity(host::decode_entity(value)), value);
    }
}

fn nothing_stored() -> Stored {
    Stored { dynamic: None, typed: Ok(None), typed_default: Ok(value(r#"{"w": 4}"#)) }
}

#[test]
fn transforms_are_read_as_if_they_were_components() {
    let mut world = World::new();
    let registry = components();
    let entity = host::encode_entity(world.spawn_empty().id().to_bits());
    let get = |component: &str, path: &str| {
        host::get(&world, &registry, "combat", entity, component, path, |_: &str| nothing_stored())
    };
    assert!(matches!(
        get("Position", "x"),
        Ok(Got::Alias(TransformAlias::Position(Axis::X)))
    ));
    assert!(matches!(
        get("Rotation", "z"),
        Ok(Got::Alias(TransformAlias::Rotation(Axis::Z)))
    ));
    assert!(matches!(get("Position", "w"), Ok(Got::Value(Dynamic::Int(4)))));
    assert!(matches!(get("Health", "value"), Ok(Got::Value(Dynamic::Int(2)))));
    assert!(matches!(
        get("Rotation", "w"),
        Err(ScriptError::Access(WorldAccessError::UnknownComponent { component }))
            if component == "Rotation"
    ));
}

#[test]
fn only_numbers_go_into_transforms() {
    let mut world = World::new();
    let registry = components();
    let entity = host::encode_entity(world.spawn_empty().id().to_bits());
    let plan = |entity: i64, component: &str, path: &str, value: Dynamic| {
        host::plan_set(&world, &registry, "combat", entity, component, path, value)
    };
    assert!(matches!(
        plan(entity, "Position", "y", Dynamic::Int(3)),
        Ok(SetPlan::Alias(TransformAlias::Position(Axis::Y), Number::PosInt(3)))
    ));
    assert!(matches!(
        plan(entity, "Position", "y", Dynamic::Bool(true)),
        Ok(SetPlan::Component(name, Value::Bool(true), SetTarget::Typed(_))) if name == "Position"
    ));
    assert!(matches!(
        plan(entity, "Health", "value", Dynamic::Int(3)),
        Ok(SetPlan::Component(name, _, SetTarget::Dynamic(d)))
            if name == "combat::Health" && d.id == 900_002
    ));
    assert!(matches!(
        plan(2, "Position", "y", Dynamic::Int(3)),
        Err(ScriptError::Access(WorldAccessError::EntityNotFound { entity: 2 }))
    ));
    let refused = plan(entity, "Health", "value", Dynamic::Other("Fn".to_owned()));
    let Err(error) = refused else {
        panic!("a function has no tree form")
    };
    assert_eq!(
        error.message(),
        "script value of type `Fn` cannot be converted to a JSON value"
    );
}

#[test]
fn removals_say_what_is_left() {
    let mut world = World::new();
    let registry = components();
    let entity = host::encode_entity(world.spawn_empty().id().to_bits());
    let after = host::remove(&world, &registry, "combat", entity, "Health", "a", |name: &str| {
        assert_eq!(name, "combat::Health");
        Some(value(r#"{"a": 1, "b": 2}"#))
    });
    assert_eq!(after, Ok(("combat::Health".to_owned(), value(r#"{"b": 2}"#))));
    let refused =
        host::remove(&world, &registry, "combat", entity, "Position", "x", |_: &str| None);
    assert_eq!(
        refused.unwrap_err().message(),
        "typed component `Position` does not support field removal"
    );
}

#[test]
fn scripts_see_the_entities_of_their_machine() {
    let mut world = World::new();
    let mut registry = ComponentRegistry::new();
    registry.register_typed("Child", world.register_component::<ChildOf>().index());
    let parent = world.spawn_empty().id();
    let mine = world.spawn(ChildOf(parent)).id();
    let theirs = world.spawn(ChildOf(parent)).id();
    let tagged = vec![
        (mine.to_bits(), VmTag::new(VmId(1))),
        (parent.to_bits(), VmTag::new(VmId(1))),
        (theirs.to_bits(), VmTag::new(VmId(2))),
    ];
    let code = |e: bevy_ecs::entity::Entity| host::encode_entity(e.to_bits());
    let found = host::query(&mut world, &registry, "p", "Child", &tagged, VmId(1));
    assert_eq!(found, [code(mine)]);
    assert!(host::query(&mut world, &registry, "p", "Nothing", &tagged, VmId(1)).is_empty());
    assert!(host::has_component(&world, &registry, "p", code(mine), "Child"));
    assert!(!host::has_component(&world, &registry, "p", code(parent), "Child"));
    assert_eq!(host::parent_of(&world, code(mine)), Dynamic::Int(code(parent)));
    assert_eq!(host::parent_of(&world, code(parent)), Dynamic::Unit);
    assert_eq!(host::children_of(&world, code(parent)), [code(mine), code(theirs)]);
    assert!(host::children_of(&world, code(mine)).is_empty());
}

fn channels() -> (EventRegistry, EventStore) {
    let mut registry = EventRegistry::new();
    registry.register_typed("Click", Some(value(r#"{"button": 1}"#))).unwrap();
    registry.register_dynamic("combat::Hit", value(r#"{"damage": 1}"#)).unwrap();
    let store = EventStore::new(&registry);
    (registry, store)
}

fn no_pull(pulls: u32) -> (u32, Pulled) {
    (pulls + 1, Pulled { events: Vec::new(), failure: None })
}

fn accept(mut sent: Vec<Value>, event: Value) -> (Vec<Value>, Result<(), EventError>) {
    sent.push(event);
    (sent, Ok(()))
}

#[test]
fn emitted_events_are_read_in_the_same_tick() {
    let (registry, mut store) = channels();
    let payload = Dynamic::Object(Dict::new());
    let emitted =
        host::emit(&registry, &mut store, "combat", "Hit", payload, Vec::new(), accept);
    assert_eq!(emitted, (vec![], Ok(())));
    let (pulls, read) = host::events(&registry, &mut store, "combat", "Hit", 0, no_pull);
    assert_eq!(pulls, 0);
    let read = read.unwrap();
    let [Dynamic::Object(event)] = &read[..] else {
        panic!("one event was emitted")
    };
    assert_eq!(event.get("damage"), Some(&Dynamic::Int(1)));
}

#[test]
fn typed_events_go_to_the_host() {
    let (registry, mut store) = channels();
    let payload = Dynamic::Object(Dict::new());
    let emitted = host::emit(&registry, &mut store, "p", "Click", payload, Vec::new(), accept);
    assert_eq!(emitted, (vec![value(r#"{"button": 1}"#)], Ok(())));
    let missing = || EventError::MissingResource { name: "Click".to_owned() };
    let refuse = |n: u32, _: Value| (n + 1, Err(missing()));
    let failed = host::emit(&registry, &mut store, "p", "Click", Dynamic::Int(1), 0, refuse);
    assert_eq!(failed, (1, Err(ScriptError::Event(missing()))));
    let five = |n: u32| (n + 1, Pulled { events: vec![value("5")], failure: None });
    let read = host::events(&registry, &mut store, "p", "Click", 0, five);
    assert_eq!(read, (1, Ok(vec![Dynamic::Int(5)])));
    let again =
        host::events(&registry, &mut store, "p", "Click", 0, |_: u32| panic!("nothing is new"));
    assert_eq!(again, (0, Ok(vec![Dynamic::Int(5)])));
}

#[test]
fn channels_have_to_be_stored_as_they_are_registered() {
    let (registry, _) = channels();
    let mut others = EventRegistry::new();
    others.register_dynamic("Click", value("{}")).unwrap();
    others.register_typed("combat::Hit", None).unwrap();
    others.register_dynamic("Only", value("{}")).unwrap();
    others.register_typed("Other", None).unwrap();
    let mut store = EventStore::new(&others);
    for (plugin, name, full) in [
        ("p", "Click", "Click"),
        ("combat", "Hit", "combat::Hit"),
        ("p", "Only", "Only"),
        ("p", "Other", "Other"),
    ] {
        let (pulls, read) = host::events(&registry, &mut store, plugin, name, 0, no_pull);
        assert_eq!(pulls, 0);
        assert_eq!(read, Err(ScriptError::ChannelMismatch { name: full.to_owned() }));
        assert_eq!(
            read.unwrap_err().message(),
            format!("event `{full}` channel kind mismatch")
        );
    }
    let (sent, refused) =
        host::emit(&registry, &mut store, "p", "Click", Dynamic::Unit, Vec::new(), accept);
    assert!(sent.is_empty());
    assert_eq!(refused.unwrap_err().message(), "event `Click` channel kind mismatch");
    let mut empty = EventStore::new(&EventRegistry::new());
    let (sent, refused) =
        host::emit(&registry, &mut empty, "p", "Click", Dynamic::Unit, Vec::new(), accept);
    assert!(sent.is_empty());
    assert_eq!(refused.unwrap_err().message(), "event `Click` is not registered");
}

#[test]
fn unknown_channels_are_silent_but_take_nothing() {
    let (registry, mut store) = channels();
    assert_eq!(host::events(&registry, &mut store, "p", "Hit", 0, no_pull), (0, Ok(vec![])));
    let (sent, refused) =
        host::emit(&registry, &mut store, "p", "Hit", Dynamic::Unit, Vec::new(), accept);
    assert!(sent.is_empty());
    assert_eq!(refused.unwrap_err().message(), "event `Hit` is not registered");
    let odd = Dynamic::Other("F".to_owned());
    let (sent, odd) = host::emit(&registry, &mut store, "p", "Click", odd, Vec::new(), accept);
    assert!(sent.is_empty());
    assert!(matches!(odd, Err(ScriptError::Convert(_))));
    let missing = EventError::MissingResource { name: "Click".to_owned() };
    let fail = move |n: u32| (n + 1, Pulled { events: Vec::new(), failure: Some(missing) });
    let (pulls, broken) = host::events(&registry, &mut store, "p", "Click", 0, fail);
    assert_eq!(pulls, 1);
    assert!(matches!(broken, Err(ScriptError::Event(_))));
}

#[test]
fn conditions_gate_the_body() {
    let body = |mut ran: Vec<usize>| {
        ran.push(100);
        (ran, Ok(()))
    };
    let truths = |answers: [Result<bool, String>; 3]| {
        move |i: usize, mut ran: Vec<usize>| {
            ran.push(i);
            (ran, answers[i].clone())
        }
    };
    let run = |answers| host::run_gated(3, Vec::new(), truths(answers), body);
    assert_eq!(run([Ok(true), Ok(true), Ok(true)]), (vec![0, 1, 2, 100], Ok(())));
    assert_eq!(run([Ok(true), Ok(false), Ok(true)]), (vec![0, 1], Ok(())));
    assert_eq!(
        run([Err("boom".to_owned()), Ok(true), Ok(true)]),
        (vec![0], Err(VmError::ScriptRuntime("run_if eval: boom".to_owned())))
    );
    let bad = |ran: Vec<usize>| (ran, Err("bad".to_owned()));
    assert_eq!(
        host::run_gated(0, Vec::new(), truths([Ok(true), Ok(true), Ok(true)]), bad),
        (vec![], Err(VmError::ScriptRuntime("bad".to_owned())))
    );
    assert_eq!(
        (host::MAX_OPERATIONS, host::MAX_CALL_LEVELS),
        (1_000_000, 64)
    );
    assert_eq!((host::MAX_EXPR_DEPTH, host::MAX_FUNCTION_EXPR_DEPTH), (128, 128));
}
