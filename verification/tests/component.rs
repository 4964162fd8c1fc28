use bevy_ecs::component::{Component, Mutable, StorageType};
use bevy_ecs::entity::Entity;
use bevy_ecs::entity_disabling::Disabled;
use bevy_ecs::hierarchy::ChildOf;
use bevy_ecs::world::World;
use bevy_vm::document::parse_json;
use bevy_vm::component::typed::{typed_path_set, TypedComponentError};
use bevy_vm::component::{ComponentKind, ComponentRegistry, RegistryError, TypedComponent};
use bevy_vm::dict::Dict;
use bevy_vm::entity::entity_text;
use bevy_vm::value::{Number, Value};
use bevy_vm::vm::id::{VmId, VmTag};
use bevy_vm::world_access;
use bevy_vm::world_access::path::PathError;
use bevy_vm::world_access::{
    RequiredWalk, SetTarget, Stored, TypedSetStep, WorldAccessError,
};

fn value(text: &str) -> Value {
    parse_json(text).expect("test value should be valid JSON")
}

#[derive(Default, Clone, Copy)]
struct Position {
    x: f32,
    y: f32,
    z: f32,
}

#[derive(Default, Clone, Copy)]
struct Velocity {
    x: f32,
    y: f32,
    z: f32,
}

impl Component for Position {
    const STORAGE_TYPE: StorageType = StorageType::Table;
    type Mutability = Mutable;
}

impl Component for Velocity {
    const STORAGE_TYPE: StorageType = StorageType::Table;
    type Mutability = Mutable;
}

fn tree(x: f32, y: f32, z: f32) -> Value {
    let mut fields = Dict::new();
    for (name, coordinate) in [("x", x), ("y", y), ("z", z)] {
        let number = Number::from_bits(f64::from(coordinate).to_bits()).expect("finite");
        fields.insert(name.to_owned(), Value::Number(number));
    }
    Value::Object(fields)
}

fn coordinate(value: &Value, name: &str) -> f32 {
    let Value::Object(fields) = value else {
        panic!("a tree of coordinates is an object")
    };
    match fields.get(name) {
        Some(Value::Number(Number::Float(bits))) => f64::from_bits(*bits) as f32,
        other => panic!("no coordinate `{name}`: {other:?}"),
    }
}

fn builtins(world: &mut World) -> ComponentRegistry {
    let mut registry = ComponentRegistry::new();
    registry.register_typed("Position", world.register_component::<Position>().index());
    registry.register_typed("Velocity", world.register_component::<Velocity>().index());
    registry.require("Velocity", "Position");
    registry
}

fn read(world: &World, entity: Entity, component: &str) -> Option<Value> {
    match component {
        "Position" => world.entity(entity).get::<Position>().map(|p| tree(p.x, p.y, p.z)),
        _ => world.entity(entity).get::<Velocity>().map(|v| tree(v.x, v.y, v.z)),
    }
}

fn write(world: &mut World, entity: Entity, component: &str, value: &Value) {
    let (x, y, z) = (coordinate(value, "x"), coordinate(value, "y"), coordinate(value, "z"));
    match component {
        "Position" => world.entity_mut(entity).insert(Position { x, y, z }),
        _ => world.entity_mut(entity).insert(Velocity { x, y, z }),
    };
}

fn insert_default(world: &mut World, entity: Entity, component: &str) {
    match component {
        "Position" => world.entity_mut(entity).insert(Position::default()),
        _ => world.entity_mut(entity).insert(Velocity::default()),
    };
}

fn set(
    world: &mut World,
    registry: &ComponentRegistry,
    entity: Entity,
    component: &str,
    path: &str,
    value: Value,
) -> Result<(), WorldAccessError> {
    let bits = entity.to_bits();
    let target = world_access::set(world, registry, bits, component, path, value)?;
    let SetTarget::Typed(typed) = target else {
        panic!("`{component}` is a typed component")
    };
    match typed.read(Ok(read(world, entity, component)), Ok(tree(0.0, 0.0, 0.0)))? {
        TypedSetStep::Insert(value) | TypedSetStep::Write(value) => {
            write(world, entity, component, &value);
        }
    }
    let mut walk = RequiredWalk::start(component);
    while let Some((name, _)) = walk.next(world, registry, bits)? {
        insert_default(world, entity, &name);
    }
    Ok(())
}

#[test]
fn set_typed_component_auto_inserts_required_default() {
    let mut world = World::new();
    let registry = builtins(&mut world);

    let entity = world.spawn_empty().id();
    set(&mut world, &registry, entity, "Velocity", "x", value("2.0"))
        .expect("set Velocity 应当成功");

    let position = world
        .entity(entity)
        .get::<Position>()
        .expect("Velocity requires Position：应自动挂上 Position::default");
    assert_eq!(position.x, 0.0, "自动连带应使用 Default 值");
    assert_eq!(position.y, 0.0);
    assert_eq!(position.z, 0.0);

    let velocity = world
        .entity(entity)
        .get::<Velocity>()
        .expect("set 的目标组件本身也要在");
    assert_eq!(velocity.x, 2.0);
}

#[test]
fn existing_required_component_is_not_overwritten() {
    let mut world = World::new();
    let registry = builtins(&mut world);

    let entity = world.spawn_empty().id();
    set(&mut world, &registry, entity, "Position", "x", value("99.0"))
        .expect("set Position 应当成功");
    set(&mut world, &registry, entity, "Velocity", "x", value("1.0"))
        .expect("set Velocity 应当成功");

    let position = world.entity(entity).get::<Position>().expect("Position 仍存在");
    assert_eq!(position.x, 99.0, "已挂的 required 组件不应被自动连带覆盖");
}

#[test]
fn refused_typed_writes_leave_nothing_behind() {
    let mut world = World::new();
    let registry = builtins(&mut world);
    let entity = world.spawn_empty().id();
    let refused = set(&mut world, &registry, entity, "Position", "x.y", value("1.0"));
    assert_eq!(
        refused,
        Err(WorldAccessError::Path(PathError::NotContainer { segment: "y".to_owned() }))
    );
    assert!(read(&world, entity, "Position").is_none());
    set(&mut world, &registry, entity, "Position", "x", value("3.0")).unwrap();
    assert!(set(&mut world, &registry, entity, "Position", "x.y", value("1.0")).is_err());
    assert_eq!(read(&world, entity, "Position"), Some(tree(3.0, 0.0, 0.0)));
}

#[test]
fn validate_requires_rejects_unknown_target() {
    let mut world = World::new();
    let mut registry = builtins(&mut world);
    assert!(registry.typed("Position").is_some(), "Position 必然已注册");
    registry.require("Position", "DoesNotExist");

    let err = registry.validate_requires().expect_err("拼错的 require 名应被拒绝");
    match err {
        RegistryError::UnknownRequired { component, required } => {
            assert_eq!(component, "Position");
            assert_eq!(required, "DoesNotExist");
        }
        other => panic!("期望 UnknownRequired，得到 {other:?}"),
    }
}

#[test]
fn validate_requires_detects_cycle() {
    let mut world = World::new();
    let mut registry = builtins(&mut world);
    assert!(registry.typed("Position").is_some(), "Position 必然已注册");
    registry.require("Position", "Velocity");

    let err = registry.validate_requires().expect_err("依赖环应被拒绝");
    assert!(
        matches!(err, RegistryError::RequiresCycle { .. }),
        "期望 RequiresCycle，得到 {err:?}"
    );
    assert!(
        err.message() == "required-component cycle detected: Position -> Velocity -> Position"
            || err.message()
                == "required-component cycle detected: Velocity -> Position -> Velocity",
        "{}",
        err.message()
    );
}

#[test]
fn sound_requirements_are_accepted() {
    let mut world = World::new();
    assert_eq!(builtins(&mut world).validate_requires(), Ok(()));
}

#[test]
fn dynamic_components_cannot_shadow_typed_ones() {
    let mut world = World::new();
    let mut registry = builtins(&mut world);
    let refused = registry.register_dynamic("Position", 7, value("{}"));
    assert_eq!(
        refused,
        Err(RegistryError::DynamicShadowsTyped { name: "Position".to_owned() })
    );
    assert_eq!(
        refused.unwrap_err().message(),
        "component name `Position` is already registered as a typed component and cannot be re-declared as dynamic"
    );
    assert_eq!(
        RegistryError::UnknownRequired { component: "A".to_owned(), required: "B".to_owned() }
            .message(),
        "typed component `A` declares require on `B` which is not a registered typed component"
    );
    assert_eq!(registry.register_dynamic("Health", 7, value("{}")), Ok(()));
    assert_eq!(registry.component_names(), ["Position", "Velocity", "Health"]);
    assert!(matches!(registry.resolve("Health"), Some(ComponentKind::Dynamic(d)) if d.id == 7));
    assert!(matches!(registry.resolve("Position"), Some(ComponentKind::Typed(_))));
    assert!(registry.resolve("Nothing").is_none());
    assert!(registry.dynamic("Position").is_none());
}

#[test]
fn worlds_are_read_as_they_are() {
    let mut world = World::new();
    let mut registry = builtins(&mut world);
    registry.register_dynamic("Ghost", 1_000_000, value("{}")).unwrap();
    let parent = world.spawn(Position::default()).id();
    let child = world.spawn(ChildOf(parent)).id();
    let other = world.spawn((Position::default(), ChildOf(parent))).id();
    let (p, c, o) = (parent.to_bits(), child.to_bits(), other.to_bits());

    assert!(world_access::is_alive(&world, p));
    assert_eq!(world_access::parent_of(&world, c), Some(p));
    assert_eq!(world_access::parent_of(&world, p), None);
    assert_eq!(world_access::children_of(&world, p), [c, o]);
    assert!(world_access::children_of(&world, c).is_empty());
    assert!(world_access::has_component(&world, &registry, p, "Position"));
    assert!(!world_access::has_component(&world, &registry, c, "Position"));
    assert!(!world_access::has_component(&world, &registry, c, "Nothing"));
    assert_eq!(world_access::components_of(&world, &registry, o), ["Position"]);
    assert_eq!(world_access::query_with_component(&mut world, &registry, "Position"), [p, o]);
    assert!(world_access::query_with_component(&mut world, &registry, "Ghost").is_empty());
    let all = world_access::all_entities(&mut world);
    assert!(all.contains(&p) && all.contains(&c) && all.contains(&o));

    let tagged = vec![
        (p, VmTag::new(VmId(1))),
        (c, VmTag::new(VmId(1))),
        (o, VmTag::new(VmId(2))),
    ];
    let mine = |vm: u64, world: &mut World| {
        world_access::query_with_component_tagged(world, &registry, "Position", &tagged, VmId(vm))
    };
    assert_eq!(mine(1, &mut world), [p]);
    assert_eq!(mine(2, &mut world), [o]);
    assert!(mine(3, &mut world).is_empty());

    world.despawn(child);
    assert!(!world_access::is_alive(&world, c));
    assert!(!world_access::is_alive(&world, 0));
    assert_eq!(world_access::children_of(&world, p), [o]);
}

#[test]
fn worlds_are_changed_entity_by_entity() {
    let mut world = World::new();
    let registry = builtins(&mut world);
    let parent = world_access::spawn(&mut world);
    let child = world_access::spawn(&mut world);
    assert_ne!(parent, child);
    assert!(world_access::is_alive(&world, parent) && world_access::is_alive(&world, child));
    assert!(world_access::components_of(&world, &registry, child).is_empty());
    assert!(world_access::set_parent(&mut world, child, parent));
    assert_eq!(world_access::parent_of(&world, child), Some(parent));
    assert_eq!(world_access::children_of(&world, parent), [child]);
    assert!(world_access::clear_parent(&mut world, child));
    assert_eq!(world_access::parent_of(&world, child), None);
    assert!(world_access::clear_parent(&mut world, child));
    assert!(world_access::set_parent(&mut world, child, child));
    assert_eq!(world_access::parent_of(&world, child), None);
    assert!(!world_access::set_parent(&mut world, child, 0));
    assert!(!world_access::set_parent(&mut world, 0, parent));
    assert!(!world_access::clear_parent(&mut world, 0));
    assert!(!world_access::despawn(&mut world, 0));
    assert!(world_access::set_parent(&mut world, child, parent));
    assert!(world_access::despawn(&mut world, parent));
    assert!(!world_access::is_alive(&world, parent) && !world_access::is_alive(&world, child));
    assert!(!world_access::despawn(&mut world, parent));
    assert!(!world_access::set_parent(&mut world, child, parent));
}

#[test]
fn machines_take_their_entities_with_them() {
    let mut world = World::new();
    let mine: Vec<u64> = (0..3).map(|_| world_access::spawn(&mut world)).collect();
    let theirs = world_access::spawn(&mut world);
    assert!(world_access::set_parent(&mut world, mine[1], mine[0]));
    let mut tagged: Vec<_> = mine.iter().map(|e| (*e, VmTag::new(VmId(1)))).collect();
    tagged.push((theirs, VmTag::new(VmId(2))));
    world_access::despawn_tagged_entities(&mut world, &tagged, VmId(1));
    assert!(mine.iter().all(|e| !world_access::is_alive(&world, *e)));
    assert!(world_access::is_alive(&world, theirs));
}

#[test]
fn the_ways_to_ask_for_a_component_agree() {
    let mut world = World::new();
    let registry = builtins(&mut world);
    let entities = [
        world.spawn_empty().id().to_bits(),
        world.spawn(Position::default()).id().to_bits(),
        world.spawn((Position::default(), Velocity::default())).id().to_bits(),
        0,
    ];
    for entity in entities {
        for name in ["Position", "Velocity", "Nothing"] {
            let has = world_access::has_component(&world, &registry, entity, name);
            let listed = world_access::components_of(&world, &registry, entity);
            assert_eq!(listed.contains(&name.to_owned()), has);
            let found = world_access::query_with_component(&mut world, &registry, name);
            assert_eq!(found.contains(&entity), has);
        }
    }
}

#[test]
fn disabled_entities_are_found_by_what_disables_them() {
    let mut world = World::new();
    let mut registry = builtins(&mut world);
    registry.register_typed("Disabled", world.register_component::<Disabled>().index());
    let hidden = world.spawn((Position::default(), Disabled)).id().to_bits();
    let shown = world.spawn(Position::default()).id().to_bits();
    assert!(!world_access::all_entities(&mut world).contains(&hidden));
    assert_eq!(world_access::query_with_component(&mut world, &registry, "Position"), [shown]);
    assert_eq!(world_access::query_with_component(&mut world, &registry, "Disabled"), [hidden]);
}

fn stored(value: &str) -> Stored {
    Stored {
        dynamic: Some(self::value(value)),
        typed: Ok(None),
        typed_default: Err(TypedComponentError::NoReflectDefault),
    }
}

#[test]
fn reads_fall_back_to_defaults() {
    let mut world = World::new();
    let mut registry = builtins(&mut world);
    registry.register_dynamic("Health", 1_000_000, value(r#"{"value": 100}"#)).unwrap();
    let entity = world.spawn_empty().id().to_bits();
    let get = |component: &str, path: &str, stored: Stored| {
        world_access::get(&world, &registry, entity, component, path, stored)
    };
    assert_eq!(get("Health", "value", stored(r#"{"value": 30}"#)), Ok(value("30")));
    let absent = || Stored {
        dynamic: None,
        typed: Ok(None),
        typed_default: Ok(tree(0.0, 0.0, 0.0)),
    };
    assert_eq!(get("Health", "value", absent()), Ok(value("100")));
    assert_eq!(get("Position", "x", absent()), Ok(value("0.0")));
    assert_eq!(
        get("Position", "x", stored("1")),
        Err(WorldAccessError::ComponentNotPresent { entity, component: "Position".to_owned() })
    );
    let broken = Stored {
        dynamic: None,
        typed: Err(TypedComponentError::NoReflectComponent),
        typed_default: Ok(Value::Null),
    };
    assert_eq!(
        get("Position", "x", broken),
        Err(WorldAccessError::Typed(TypedComponentError::NoReflectComponent))
    );
    assert_eq!(
        get("Nothing", "x", absent()),
        Err(WorldAccessError::UnknownComponent { component: "Nothing".to_owned() })
    );
    assert_eq!(
        get("Health", "mana", absent()),
        Err(WorldAccessError::Path(PathError::KeyNotFound { key: "mana".to_owned() }))
    );
    assert_eq!(
        world_access::get(&world, &registry, 2, "Health", "", absent()),
        Err(WorldAccessError::EntityNotFound { entity: 2 })
    );
    assert_eq!(
        world_access::read_component(&registry, "Health", absent()),
        Ok(None)
    );
    assert_eq!(
        world_access::read_component(&registry, "Health", stored("5")),
        Ok(Some(value("5")))
    );
}

#[test]
fn dynamic_writes_start_from_the_default() {
    let mut world = World::new();
    let mut registry = builtins(&mut world);
    registry.register_dynamic("Health", 1_000_000, value(r#"{"value": 100}"#)).unwrap();
    let entity = world.spawn_empty().id().to_bits();
    let Ok(SetTarget::Dynamic(health)) =
        world_access::set(&world, &registry, entity, "Health", "max", value("9"))
    else {
        panic!("`Health` is a dynamic component")
    };
    let (after, done) = world_access::set_dynamic(health, None, "max", value("9"));
    assert_eq!(done, Ok(()));
    assert_eq!(after, value(r#"{"value": 100, "max": 9}"#));
    let (after, done) = world_access::set_dynamic(health, Some(after), "value.x", value("1"));
    assert_eq!(
        done,
        Err(WorldAccessError::Path(PathError::NotContainer { segment: "x".to_owned() }))
    );
    assert_eq!(after, value(r#"{"value": 100, "max": 9}"#));

    let remove = |component: &str, path: &str, stored: Option<Value>| {
        world_access::remove(&world, &registry, entity, component, path, stored)
    };
    assert_eq!(remove("Health", "max", Some(after)), Ok(value(r#"{"value": 100}"#)));
    assert_eq!(
        remove("Health", "max", None),
        Err(WorldAccessError::ComponentNotPresent { entity, component: "Health".to_owned() })
    );
    assert_eq!(
        remove("Position", "x", None),
        Err(WorldAccessError::TypedRemoveUnsupported { component: "Position".to_owned() })
    );
    assert_eq!(
        world_access::insert_dynamic_default(&registry, "Health"),
        Ok((1_000_000, value(r#"{"value": 100}"#)))
    );
    assert_eq!(
        world_access::insert_dynamic_default(&registry, "Position"),
        Err(WorldAccessError::UnknownComponent { component: "Position".to_owned() })
    );
}

#[test]
fn whole_writes_merge_fields_but_not_variants() {
    let merged = typed_path_set(value(r#"{"a": 1, "b": 2}"#), "", value(r#"{"b": 3, "c": 4}"#));
    assert_eq!(merged, Ok(value(r#"{"a": 1, "b": 3, "c": 4}"#)));
    let replaced = typed_path_set(value(r#"{"Px": 1}"#), "", value(r#"{"Percent": 2}"#));
    assert_eq!(replaced, Ok(value(r#"{"Percent": 2}"#)));
    let inner = typed_path_set(value(r#"{"a": {"b": 2}}"#), "a.b", value("5"));
    assert_eq!(inner, Ok(value(r#"{"a": {"b": 5}}"#)));
}

#[test]
fn overrides_are_laid_over_the_default() {
    let merged = TypedComponent::merge_with_default(
        value(r#"{"x": 1}"#),
        Ok(value(r#"{"x": 0, "y": 0}"#)),
    );
    assert_eq!(merged, Ok(value(r#"{"x": 1, "y": 0}"#)));
    let plain = TypedComponent::merge_with_default(
        value("7"),
        Err(TypedComponentError::NoReflectDefault),
    );
    assert_eq!(plain, Ok(value("7")));
    let failed = TypedComponent::merge_with_default(
        value("{}"),
        Err(TypedComponentError::NoReflectDefault),
    );
    assert_eq!(failed, Err(TypedComponentError::NoReflectDefault));
}

#[test]
fn typed_writes_start_from_what_is_there() {
    let mut world = World::new();
    let registry = builtins(&mut world);
    let entity = world.spawn_empty().id().to_bits();
    let Ok(SetTarget::Typed(typed)) =
        world_access::set(&world, &registry, entity, "Position", "x", value("1"))
    else {
        panic!("`Position` is a typed component")
    };
    let zero = || Ok(value(r#"{"x": 0, "y": 5}"#));
    assert!(matches!(
        typed.read(Ok(None), zero()),
        Ok(TypedSetStep::Insert(v)) if v == value(r#"{"x": 1, "y": 5}"#)
    ));
    assert!(matches!(
        typed.read(Ok(Some(value(r#"{"x": 7}"#))), zero()),
        Ok(TypedSetStep::Write(v)) if v == value(r#"{"x": 1}"#)
    ));
    let failure = |read, default| typed.read(read, default).map(|_| ()).unwrap_err();
    assert_eq!(
        failure(Ok(None), Err(TypedComponentError::NoReflectDefault)),
        WorldAccessError::Typed(TypedComponentError::NoReflectDefault)
    );
    assert_eq!(
        failure(Err(TypedComponentError::NoReflectComponent), zero()),
        WorldAccessError::Typed(TypedComponentError::NoReflectComponent)
    );
    assert!(matches!(failure(Ok(None), Ok(value("1"))), WorldAccessError::Path(_)));
}

#[test]
fn entities_are_written_as_the_engine_writes_them() {
    let mut world = World::new();
    let mut ids = vec![Entity::PLACEHOLDER, Entity::from_bits(u64::MAX), Entity::from_bits(2)];
    for _ in 0..3 {
        let entity = world.spawn_empty().id();
        world.despawn(entity);
        ids.push(entity);
        ids.push(world.spawn_empty().id());
    }
    for entity in ids {
        assert_eq!(entity_text(entity.to_bits()), format!("{entity:?}"));
    }
}

#[test]
fn access_errors_have_messages() {
    let entity = Entity::from_bits(u64::MAX);
    let bits = entity.to_bits();
    let name = || "Health".to_owned();
    let cases = [
        (
            WorldAccessError::EntityNotFound { entity: bits },
            format!("entity {entity:?} does not exist or has been despawned"),
        ),
        (
            WorldAccessError::UnknownComponent { component: name() },
            "component `Health` is not registered".to_owned(),
        ),
        (
            WorldAccessError::ComponentNotPresent { entity: bits, component: name() },
            format!("entity {entity:?} does not carry component `Health`"),
        ),
        (
            WorldAccessError::TypedReadAfterInsert { entity: bits },
            format!("typed component still unreadable on entity {entity:?} after insertion"),
        ),
        (
            WorldAccessError::TypedRemoveUnsupported { component: name() },
            "typed component `Health` does not support field removal".to_owned(),
        ),
        (WorldAccessError::Path(PathError::RemoveRoot), "cannot remove the root value".to_owned()),
        (
            WorldAccessError::Typed(TypedComponentError::EntityNotFound { entity: bits }),
            format!("entity {entity:?} does not exist"),
        ),
        (
            WorldAccessError::Typed(TypedComponentError::ComponentNotPresent { entity: bits }),
            format!("entity {entity:?} does not carry this typed component"),
        ),
        (
            WorldAccessError::Typed(TypedComponentError::Serialize("why".to_owned())),
            "failed to serialize component via reflect: why".to_owned(),
        ),
        (
            WorldAccessError::Typed(TypedComponentError::Deserialize("why".to_owned())),
            "failed to deserialize value into target component via reflect: why".to_owned(),
        ),
        (
            WorldAccessError::Typed(TypedComponentError::TypeNotRegistered {
                kind: "TypeId(0)".to_owned(),
            }),
            "component type id TypeId(0) is not registered with TypeRegistry".to_owned(),
        ),
        (
            WorldAccessError::Typed(TypedComponentError::NoReflectDefault),
            "component is missing ReflectDefault metadata".to_owned(),
        ),
        (
            WorldAccessError::Typed(TypedComponentError::NoReflectComponent),
            "component is missing ReflectComponent metadata".to_owned(),
        ),
    ];
    for (error, message) in cases {
        assert_eq!(error.message(), message);
    }
}

#[derive(Default, Clone, Copy)]
struct Acceleration;

impl Component for Acceleration {
    const STORAGE_TYPE: StorageType = StorageType::Table;
    type Mutability = Mutable;
}

#[test]
fn requirements_are_followed_to_the_end() {
    let mut world = World::new();
    let mut registry = builtins(&mut world);
    registry.register_typed("Acceleration", world.register_component::<Acceleration>().index());
    registry.register_typed("Child", world.register_component::<ChildOf>().index());
    registry.require("Acceleration", "Child");
    registry.require("Acceleration", "Velocity");
    let parent = world.spawn_empty().id();
    let entity = world.spawn((Acceleration, ChildOf(parent))).id();
    let mut added = Vec::new();
    let mut walk = RequiredWalk::start("Acceleration");
    while let Some((name, id)) = walk.next(&world, &registry, entity.to_bits()).unwrap() {
        assert_eq!(registry.typed(&name).map(|t| t.id), Some(id));
        insert_default(&mut world, entity, &name);
        added.push(name);
    }
    assert_eq!(added, ["Velocity", "Position"]);
    let mut again = RequiredWalk::start("Acceleration");
    assert_eq!(again.next(&world, &registry, entity.to_bits()), Ok(None));
    let mut dead = RequiredWalk::start("Acceleration");
    assert_eq!(
        dead.next(&world, &registry, 0),
        Err(WorldAccessError::EntityNotFound { entity: 0 })
    );
    registry.require("Child", "Nothing");
    let mut walk = RequiredWalk::start("Child");
    assert_eq!(
        walk.next(&world, &registry, entity.to_bits()),
        Err(WorldAccessError::UnknownComponent { component: "Nothing".to_owned() })
    );
}
