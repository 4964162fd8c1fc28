use bevy_ecs::world::World;
use bevy_vm::document::parse_json;
use bevy_vm::component::ComponentRegistry;
use bevy_vm::error::VmError;
use bevy_vm::event::{EventError, EventRegistry};
use bevy_vm::plugin::cursor::{
    apply_cursor_state, request_value, CursorGrabRequest, CursorPlugin, CursorReleaseRequest,
    CursorState, CURSOR_GRAB, CURSOR_RELEASE,
};
use bevy_vm::plugin::input::{InputPlugin, KEYBOARD_INPUT, MOUSE_BUTTON};
use bevy_vm::plugin::picking::{
    on_pick_click, on_pick_out, on_pick_over, pointer_button_name, PickingPlugin, PointerButton,
};
use bevy_vm::plugin::{BuilderVmPluginExt, VmPlugin};
use bevy_vm::random::VmRng;
use bevy_vm::system::Pause;
use bevy_vm::value::Value;
use bevy_vm::vm::id::{owned_entities, VmId, VmTag};
use bevy_vm::vm::instance::{
    Clock, TickState, VmInstance, VmInstanceBuilder, VmRegistry, MAX_NANOS,
};
use std::rc::Rc;

fn value(text: &str) -> Value {
    parse_json(text).expect("test value should be valid JSON")
}

fn machine(id: u64, systems: Vec<&'static str>) -> VmInstance<&'static str> {
    let mut events = EventRegistry::new();
    events.register_typed("Click", None).unwrap();
    events.register_dynamic("Hit", value(r#"{"damage": 1}"#)).unwrap();
    VmInstance::new(
        VmId(id),
        Rc::new(ComponentRegistry::new()),
        Rc::new(events),
        systems,
        VmRng::from_seed(id),
    )
}

#[test]
fn ids_count_up() {
    let mut counter = 1;
    let ids: Vec<u64> = (0..4).map(|_| VmId::next(&mut counter).0).collect();
    assert_eq!(ids, [1, 2, 3, 4]);
    let mut last = u64::MAX;
    assert_eq!(VmId::next(&mut last), VmId(u64::MAX));
    assert_eq!(last, 0);
    assert_eq!(VmTag::default().vm, VmId(0));
    let tagged = vec![(5, VmTag::new(VmId(1))), (6, VmTag::new(VmId(2))), (7, VmTag::new(VmId(1)))];
    assert_eq!(owned_entities(&tagged, VmId(1)), [5, 7]);
}

#[test]
fn paused_clocks_stand_still() {
    let mut vm = machine(1, vec![]);
    assert_eq!(vm.clock(), Clock::new());
    vm.advance_time(10);
    assert_eq!(vm.clock(), Clock { elapsed: 10, delta: 10 });
    vm.set_paused(true);
    assert!(vm.is_paused());
    vm.advance_time(MAX_NANOS);
    assert_eq!(vm.clock(), Clock { elapsed: 10, delta: 0 });
    vm.set_paused(false);
    vm.advance_time(5);
    assert_eq!(vm.clock(), Clock { elapsed: 15, delta: 5 });
    assert_eq!(MAX_NANOS, std::time::Duration::MAX.as_nanos());
    assert!(!Pause::default().paused);
}

#[test]
fn ticks_run_systems_in_order_up_to_a_failure() {
    let mut vm = machine(1, vec!["a", "bad", "c"]);
    let run = |system: &&'static str, mut ran: Vec<&'static str>, mut state: TickState| {
        ran.push(*system);
        state.events.push_dynamic("Hit", value("1")).unwrap();
        state.pause = Pause { paused: true };
        let drawn = state.rng.next_i64_range(0, 10);
        assert!((0..10).contains(&drawn));
        if *system == "bad" {
            (ran, state, Err(VmError::ScriptRuntime("no".to_owned())))
        } else {
            (ran, state, Ok(()))
        }
    };
    let (ran, done) = vm.tick(Vec::new(), &run);
    assert_eq!(done, Err(VmError::ScriptRuntime("no".to_owned())));
    assert_eq!(ran, ["a", "bad"]);
    assert!(vm.events().dynamic_buffer("Hit").unwrap().current().is_empty());
    assert!(vm.is_paused());
    let mut fine = machine(2, vec!["a", "c"]);
    assert_eq!(fine.tick(Vec::new(), &run), (vec!["a", "c"], Ok(())));
}

#[test]
fn dynamic_events_are_sent_and_drained() {
    let mut vm = machine(1, vec![]);
    assert_eq!(vm.send_event_dynamic("Hit", value("{}")), Ok(()));
    assert_eq!(vm.send_event_dynamic("Hit", value(r#"{"damage": 5}"#)), Ok(()));
    assert_eq!(
        vm.send_event_dynamic("Click", value("{}")),
        Err(VmError::Event(EventError::KindMismatch { name: "Click".to_owned() }))
    );
    assert_eq!(
        vm.send_event_dynamic("Miss", value("{}")),
        Err(VmError::Event(EventError::UnknownEvent { name: "Miss".to_owned() }))
    );
    let drained = vm.drain_events_dynamic("Hit").unwrap();
    assert_eq!(drained, [value(r#"{"damage": 1}"#), value(r#"{"damage": 5}"#)]);
    assert_eq!(vm.drain_events_dynamic("Hit"), Ok(vec![]));
    assert!(vm.drain_events_dynamic("Click").is_err());
    vm.events_mut().push_dynamic("Hit", value("7")).unwrap();
    assert_eq!(vm.drain_events_dynamic("Hit"), Ok(vec![value("7")]));
    assert!(vm.components().component_names().is_empty());
    assert_eq!(vm.channels().names(), ["Click", "Hit"]);
}

#[test]
fn machines_query_their_own_entities() {
    let mut world = World::new();
    let entity = world.spawn_empty().id().to_bits();
    let vm = machine(1, vec![]);
    let tagged = vec![(entity, VmTag::new(VmId(1)))];
    assert!(vm.query(&mut world, "Nothing", &tagged).is_empty());
}

#[test]
fn machines_are_kept_by_id() {
    let mut registry = VmRegistry::new();
    assert!(registry.is_empty());
    assert_eq!(registry.insert(machine(2, vec!["a"])), VmId(2));
    assert_eq!(registry.insert(machine(1, vec!["b"])), VmId(1));
    assert_eq!(registry.insert(machine(3, vec!["c"])), VmId(3));
    let mut changed = machine(1, vec!["d"]);
    changed.set_paused(true);
    registry.insert(changed);
    assert_eq!(registry.ids(), [VmId(2), VmId(1), VmId(3)]);
    assert_eq!(registry.len(), 3);
    assert!(registry.get(VmId(1)).unwrap().is_paused());
    registry.get_mut(VmId(3)).unwrap().set_paused(true);
    assert!(registry.get(VmId(3)).unwrap().is_paused());
    assert!(registry.get_mut(VmId(9)).is_none());
    assert_eq!(registry.iter().iter().map(|(id, vm)| (id.0, vm.id().0)).collect::<Vec<_>>(), [
        (2, 2),
        (1, 1),
        (3, 3)
    ]);
    assert_eq!(registry.remove(VmId(2)).unwrap().id(), VmId(2));
    assert!(registry.remove(VmId(2)).is_none());
    assert!(registry.get(VmId(2)).is_none());
    assert_eq!(registry.ids(), [VmId(1), VmId(3)]);
}

#[test]
fn all_machines_tick_whatever_one_of_them_does() {
    let mut registry = VmRegistry::new();
    registry.insert(machine(5, vec!["a"]));
    registry.insert(machine(4, vec!["bad", "never"]));
    registry.insert(machine(6, vec!["c"]));
    let run = |system: &&'static str, mut ran: Vec<(&'static str, u128)>, state: TickState| {
        ran.push((*system, state.clock.elapsed));
        if *system == "bad" {
            (ran, state, Err(VmError::ScriptRuntime("no".to_owned())))
        } else {
            (ran, state, Ok(()))
        }
    };
    let (ran, failures) = registry.tick_all(16, Vec::new(), &run);
    assert_eq!(ran, [("a", 16), ("bad", 16), ("c", 16)]);
    assert_eq!(failures, [(VmId(4), VmError::ScriptRuntime("no".to_owned()))]);
    assert_eq!(registry.ids(), [VmId(5), VmId(4), VmId(6)]);
}

#[test]
fn plugins_add_their_channels() {
    let builder = VmInstanceBuilder::new()
        .add_plugin(&InputPlugin)
        .and_then(|b| b.add_plugin(&CursorPlugin))
        .and_then(|b| b.add_plugin(&PickingPlugin))
        .and_then(|b| b.with_event("Own"))
        .and_then(|b| b.with_event_default("More", value("{}")));
    let Ok(builder) = builder else {
        panic!("all names are free")
    };
    assert_eq!(
        builder.events.typed_names(),
        [
            "CursorGrab",
            "CursorMoved",
            "CursorRelease",
            "KeyboardFocusLost",
            "KeyboardInput",
            "More",
            "MouseButton",
            "MouseMotion",
            "MouseWheel",
            "Own",
            "PickClick",
            "PickOut",
            "PickOver"
        ]
    );
    assert_eq!(
        builder.events.typed(CURSOR_GRAB).unwrap().default,
        Some(value(r#"{"_marker": false}"#))
    );
    assert_eq!(builder.events.typed(MOUSE_BUTTON).unwrap().default, None);
    assert_eq!((CURSOR_RELEASE, KEYBOARD_INPUT), ("CursorRelease", "KeyboardInput"));
    let again = InputPlugin.build_vm(builder);
    assert!(matches!(
        again,
        Err(VmError::Event(EventError::KindMismatch { name })) if name == "MouseButton"
    ));
}

#[test]
fn releasing_the_cursor_wins() {
    assert_eq!(apply_cursor_state(true, true), Some(CursorState::Released));
    assert_eq!(apply_cursor_state(true, false), Some(CursorState::Released));
    assert_eq!(apply_cursor_state(false, true), Some(CursorState::Grabbed));
    assert_eq!(apply_cursor_state(false, false), None);
    assert!(!CursorGrabRequest::default().marker && !CursorReleaseRequest::default().marker);
    assert_eq!(request_value(true), value(r#"{"_marker": true}"#));
}

#[test]
fn picking_goes_to_hoverable_entities() {
    let click = on_pick_click(9, Some(true), PointerButton::Secondary).unwrap();
    assert_eq!((click.entity, click.button.as_str()), (9, "Secondary"));
    assert_eq!(on_pick_click(9, Some(false), PointerButton::Primary), None);
    assert_eq!(on_pick_click(9, None, PointerButton::Primary), None);
    assert_eq!(on_pick_over(9, Some(true)).unwrap().entity, 9);
    assert_eq!(on_pick_over(9, None), None);
    assert_eq!(on_pick_out(9, Some(true)).unwrap().entity, 9);
    assert_eq!(on_pick_out(9, Some(false)), None);
    assert_eq!(pointer_button_name(PointerButton::Primary), "Primary");
    assert_eq!(pointer_button_name(PointerButton::Middle), "Middle");
}
