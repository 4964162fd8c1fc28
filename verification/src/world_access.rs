//! Reading and writing component values by entity, component name and dotted path.
//!
//! Components of both layers are reached in one way. The host keeps the values and says what it
//! holds; what a read returns, what a write stores, and which components a write brings along is
//! decided here.
use bevy_ecs::component::ComponentId;
use bevy_ecs::entity::Entity;
use bevy_ecs::hierarchy::{ChildOf, Children};
use bevy_ecs::query::QueryBuilder;
use bevy_ecs::world::World;
use vstd::prelude::*;
use vstd::string::*;

use crate::component::typed;
use crate::component::typed::TypedComponentError;
use crate::component::{ComponentKind, ComponentRegistry, Components, DynComponent};
use crate::dict;
use crate::entity;
use crate::text;
use crate::value::{Json, Value};
use crate::vm::id;
use crate::vm::id::{VmId, VmTag};
use crate::world_access::path::{PathError, PathFault, ValuePathExt};

pub mod path;

verus! {

/// The entity-component world of the host.
#[verifier::external_type_specification]
#[verifier::external_body]
pub struct ExWorld(bevy_ecs::world::World);

/// The entities that exist in a world, each by the bits of its id.
pub uninterp spec fn world_entities(world: World) -> Set<u64>;

/// For every entity of a world the ids of the components it carries.
pub uninterp spec fn world_components(world: World) -> Map<u64, Set<usize>>;

/// For every entity of a world that has a parent, the parent.
pub uninterp spec fn world_parents(world: World) -> Map<u64, u64>;

/// For every entity of a world that has children, the children in order.
pub uninterp spec fn world_children(world: World) -> Map<u64, Seq<u64>>;

/// Whether `entity` is still alive. It is when `World::get_entity` finds an entity with this id;
/// bits that are no id (`Entity::try_from_bits` refuses them) are never alive.
#[verifier::external_body]
#[must_use]
pub fn is_alive(world: &World, entity: u64) -> (alive: bool)
    ensures
        alive == world_entities(*world).contains(entity),
{
    match Entity::try_from_bits(entity) {
        Some(id) => world.get_entity(id).is_ok(),
        None => false,
    }
}

/// Whether `entity` carries the component with this id, as `EntityRef::contains_id` tells of an
/// entity that `World::get_entity` finds.
#[verifier::external_body]
fn carries(world: &World, entity: u64, id: usize) -> (yes: bool)
    ensures
        yes == (world_entities(*world).contains(entity) && world_components(
            *world,
        )[entity].contains(id)),
{
    match Entity::try_from_bits(entity) {
        Some(found) => match world.get_entity(found) {
            Ok(entity_ref) => entity_ref.contains_id(ComponentId::new(id)),
            Err(_) => false,
        },
        None => false,
    }
}

/// The parent of `entity`, as its `ChildOf` component names it.
#[verifier::external_body]
#[must_use]
pub fn parent_of(world: &World, entity: u64) -> (parent: Option<u64>)
    ensures
        parent == (if world_parents(*world).contains_key(entity) {
            Some(world_parents(*world)[entity])
        } else {
            None
        }),
{
    let found = world.get_entity(Entity::try_from_bits(entity)?).ok()?;
    Some(found.get::<ChildOf>()?.parent().to_bits())
}

/// The children of `entity`, if it has a `Children` component, in the order in which that lists
/// them.
#[verifier::external_body]
fn listed_children(world: &World, entity: u64) -> (children: Option<Vec<u64>>)
    ensures
        match children {
            Some(list) => world_children(*world).contains_key(entity) && list@ == world_children(
                *world,
            )[entity],
            None => !world_children(*world).contains_key(entity),
        },
{
    let found = world.get_entity(Entity::try_from_bits(entity)?).ok()?;
    Some(found.get::<Children>()?.iter().map(|child| child.to_bits()).collect())
}

/// The children of `entity`, in order.
#[must_use]
pub fn children_of(world: &World, entity: u64) -> (children: Vec<u64>)
    ensures
        children@ == (if world_children(*world).contains_key(entity) {
            world_children(*world)[entity]
        } else {
            Seq::empty()
        }),
{
    match listed_children(world, entity) {
        Some(children) => children,
        None => Vec::new(),
    }
}

/// The entities that a query for all entities walks, in its order.
pub uninterp spec fn queried_entities(world: World) -> Seq<u64>;

/// The entities that `World::query` for `Entity` yields: each of them exists and comes once.
/// Entities that the world disables are passed over, so not every entity need be among them.
#[verifier::external_body]
#[must_use]
pub fn all_entities(world: &mut World) -> (entities: Vec<u64>)
    ensures
        entities@ == queried_entities(*old(world)),
        entities@.no_duplicates(),
        forall|i: int|
            0 <= i < entities@.len() ==> world_entities(*old(world)).contains(
                #[trigger] entities@[i],
            ),
        world_entities(*final(world)) == world_entities(*old(world)),
        world_components(*final(world)) == world_components(*old(world)),
        world_parents(*final(world)) == world_parents(*old(world)),
        world_children(*final(world)) == world_children(*old(world)),
{
    let mut query = world.query::<Entity>();
    query.iter(world).map(|entity| entity.to_bits()).collect()
}

/// Why a component could not be read or written.
#[derive(Debug, Clone, PartialEq, Eq)]
pub enum WorldAccessError {
    /// The entity does not exist.
    EntityNotFound { entity: u64 },
    /// No component has the name.
    UnknownComponent { component: String },
    /// The entity does not carry the component.
    ComponentNotPresent { entity: u64, component: String },
    /// Fields of a typed component cannot be removed.
    TypedRemoveUnsupported { component: String },
    /// A typed component cannot be read right after it was inserted.
    TypedReadAfterInsert { entity: u64 },
    /// The path does not lead anywhere.
    Path(PathError),
    /// The host could not read or write a typed component.
    Typed(TypedComponentError),
}

impl WorldAccessError {
    /// The message that describes the error.
    pub open spec fn text(self) -> Seq<char> {
        match self {
            WorldAccessError::EntityNotFound { entity } => "entity "@ + entity::entity_name(entity) + " does not exist or has been despawned"@,
            WorldAccessError::UnknownComponent { component } => "component `"@ + component@ + "` is not registered"@,
            WorldAccessError::ComponentNotPresent { entity, component } => "entity "@ + entity::entity_name(entity) + " does not carry component `"@ + component@ + "`"@,
            WorldAccessError::TypedRemoveUnsupported { component } => "typed component `"@ + component@ + "` does not support field removal"@,
            WorldAccessError::TypedReadAfterInsert { entity } => "typed component still unreadable on entity "@ + entity::entity_name(entity) + " after insertion"@,
            WorldAccessError::Path(error) => error.text(),
            WorldAccessError::Typed(error) => error.text(),
        }
    }

    /// The message that describes the error.
    #[must_use]
    pub fn message(&self) -> (written: String)
        ensures
            written@ == self.text(),
    {
        match self {
            WorldAccessError::EntityNotFound { entity } => text::in_between("entity ", entity::entity_text(*entity).as_str(), " does not exist or has been despawned"),
            WorldAccessError::UnknownComponent { component } => text::in_between("component `", component.as_str(), "` is not registered"),
            WorldAccessError::ComponentNotPresent { entity, component } => {
                let mut whole = text::in_between("entity ", entity::entity_text(*entity).as_str(), " does not carry component `");
                whole.append(component.as_str());
                whole.append("`");
                whole
            },
            WorldAccessError::TypedRemoveUnsupported { component } => text::in_between("typed component `", component.as_str(), "` does not support field removal"),
            WorldAccessError::TypedReadAfterInsert { entity } => text::in_between("typed component still unreadable on entity ", entity::entity_text(*entity).as_str(), " after insertion"),
            WorldAccessError::Path(error) => error.message(),
            WorldAccessError::Typed(error) => error.message(),
        }
    }
}

impl WorldAccessError {
    /// The error is that the entity does not exist.
    pub open spec fn is_entity_not_found(self, entity: u64) -> bool {
        self == (WorldAccessError::EntityNotFound { entity })
    }

    /// The error is that no component has this name.
    pub open spec fn is_unknown_component(self, component: Seq<char>) -> bool {
        self is UnknownComponent && self->UnknownComponent_component@ == component
    }

    /// The error is that the entity does not carry the component.
    pub open spec fn is_not_present(self, entity: u64, component: Seq<char>) -> bool {
        self is ComponentNotPresent && self->ComponentNotPresent_entity == entity
            && self->ComponentNotPresent_component@ == component
    }

    /// The error is this fault of the path.
    pub open spec fn is_path(self, fault: PathFault) -> bool {
        self is Path && self->Path_0@ == fault
    }
}

impl Components {
    /// The id of the component of this name; a typed one goes first.
    pub open spec fn id_of(self, name: Seq<char>) -> Option<usize> {
        if self.typed.contains_key(name) {
            Some(self.typed[name].id)
        } else if self.dynamic.contains_key(name) {
            Some(self.dynamic[name].id)
        } else {
            None
        }
    }
}

/// The id of the component of this name.
pub fn component_id(registry: &ComponentRegistry, component: &str) -> (id: Option<usize>)
    ensures
        id == registry@.id_of(component@),
{
    match registry.resolve(component) {
        Some(ComponentKind::Typed(typed)) => Some(typed.id),
        Some(ComponentKind::Dynamic(dynamic)) => Some(dynamic.id),
        None => None,
    }
}

/// Whether `entity` carries the component of this name.
pub open spec fn carries_named(
    world: World,
    components: Components,
    entity: u64,
    name: Seq<char>,
) -> bool {
    world_entities(world).contains(entity) && match components.id_of(name) {
        Some(id) => world_components(world)[entity].contains(id),
        None => false,
    }
}

/// Whether `entity` itself carries the component of this name. A name that is not registered and
/// an entity that does not exist give `false`.
#[must_use]
pub fn has_component(world: &World, registry: &ComponentRegistry, entity: u64, name: &str) -> (yes:
    bool)
    ensures
        yes == carries_named(*world, registry@, entity, name@),
{
    match component_id(registry, name) {
        Some(id) => carries(world, entity, id),
        None => false,
    }
}

/// Those of `names` whose components `entity` carries.
pub open spec fn carried_names(
    world: World,
    components: Components,
    entity: u64,
    names: Seq<Seq<char>>,
) -> Seq<Seq<char>>
    decreases names.len(),
{
    if names.len() == 0 {
        Seq::empty()
    } else {
        let rest = carried_names(world, components, entity, names.drop_last());
        if carries_named(world, components, entity, names.last()) {
            rest.push(names.last())
        } else {
            rest
        }
    }
}

/// The names of the registered components that `entity` carries: typed ones first, in order.
#[must_use]
pub fn components_of(world: &World, registry: &ComponentRegistry, entity: u64) -> (names: Vec<
    String,
>)
    ensures
        text::texts(names@) == carried_names(
            *world,
            registry@,
            entity,
            dict::ascending_keys(registry@.typed) + dict::ascending_keys(registry@.dynamic),
        ),
        registry@.has_finitely_many(),
        forall|n: Seq<char>| #[trigger]
            text::texts(names@).contains(n) <==> carries_named(*world, registry@, entity, n),
{
    let all = registry.component_names();
    let ghost every = text::texts(all@);
    let mut names: Vec<String> = Vec::new();
    let mut i: usize = 0;
    assert(every.take(0) =~= Seq::<Seq<char>>::empty());
    assert(text::texts(names@) =~= Seq::<Seq<char>>::empty());
    while i < all.len()
        invariant
            i <= all.len(),
            every == text::texts(all@),
            text::texts(names@) == carried_names(
                *world,
                registry@,
                entity,
                every.take(i as int),
            ),
        decreases all.len() - i,
    {
        let ghost so_far = names@;
        assert(every.take(i + 1).drop_last() =~= every.take(i as int));
        assert(every.take(i + 1).last() == all@[i as int]@);
        if has_component(world, registry, entity, all[i].as_str()) {
            names.push(all[i].clone());
            assert(text::texts(names@) =~= text::texts(so_far).push(all@[i as int]@));
        }
        i += 1;
    }
    assert(every.take(every.len() as int) =~= every);
    proof {
        assert forall|n: Seq<char>| #[trigger]
            text::texts(names@).contains(n) <==> carries_named(*world, registry@, entity, n) by {
            listed_names_are_carried(*world, registry@, entity, n);
        }
    }
    names
}

/// The names listed of an entity are those of the components that it carries.
proof fn listed_names_are_carried(
    world: World,
    components: Components,
    entity: u64,
    name: Seq<char>,
)
    requires
        components.has_finitely_many(),
    ensures
        carried_names(
            world,
            components,
            entity,
            dict::ascending_keys(components.typed) + dict::ascending_keys(components.dynamic),
        ).contains(name) <==> carries_named(world, components, entity, name),
{
    let first = dict::ascending_keys(components.typed);
    let second = dict::ascending_keys(components.dynamic);
    let all = first + second;
    carried_names_carry(world, components, entity, all, name);
    dict::ascending_keys_list_the_domain(components.typed);
    dict::ascending_keys_list_the_domain(components.dynamic);
    if first.contains(name) {
        let i = choose|i: int| 0 <= i < first.len() && first[i] == name;
        assert(all[i] == name);
    }
    if second.contains(name) {
        let i = choose|i: int| 0 <= i < second.len() && second[i] == name;
        assert(all[first.len() + i] == name);
    }
}

proof fn carried_names_carry(
    world: World,
    components: Components,
    entity: u64,
    names: Seq<Seq<char>>,
    name: Seq<char>,
)
    ensures
        carried_names(world, components, entity, names).contains(name) <==> names.contains(name)
            && carries_named(world, components, entity, name),
    decreases names.len(),
{
    if names.len() > 0 {
        let shorter = names.drop_last();
        let rest = carried_names(world, components, entity, shorter);
        let all = carried_names(world, components, entity, names);
        carried_names_carry(world, components, entity, shorter, name);
        if all.contains(name) {
            let i = choose|i: int| 0 <= i < all.len() && all[i] == name;
            if i < rest.len() {
                assert(rest[i] == name);
                let j = choose|j: int| 0 <= j < shorter.len() && shorter[j] == name;
                assert(names[j] == name);
            } else {
                assert(names[names.len() - 1] == name);
            }
        }
        if names.contains(name) && carries_named(world, components, entity, name) {
            let j = choose|j: int| 0 <= j < names.len() && names[j] == name;
            if j < shorter.len() {
                assert(shorter[j] == name);
                let i = choose|i: int| 0 <= i < rest.len() && rest[i] == name;
                assert(all[i] == name);
            } else {
                assert(all[rest.len() as int] == name);
            }
        }
    }
}

/// The components that a world knows, each by its id.
pub uninterp spec fn world_component_ids(world: World) -> Set<usize>;

/// Whether the world knows a component with this id, as `Components::get_info` tells. No entity
/// carries a component that the world does not know.
#[verifier::external_body]
fn is_component(world: &World, id: usize) -> (yes: bool)
    ensures
        yes == world_component_ids(*world).contains(id),
        !yes ==> forall|entity: u64| #[trigger]
            world_entities(*world).contains(entity) ==> !world_components(
                *world,
            )[entity].contains(id),
{
    world.components().get_info(ComponentId::new(id)).is_some()
}

/// The entities that a query for the component with this id walks, in its order.
pub uninterp spec fn queried_with(world: World, id: usize) -> Seq<u64>;

/// Whether `found` are the entities that carry the component with this id, each of them once. A
/// query passes over the entities that the world disables, but for those that are disabled by this
/// very component, so nothing is said of an entity that a query for all entities passes over.
pub open spec fn are_carriers(world: World, id: usize, found: Seq<u64>) -> bool {
    &&& found.no_duplicates()
    &&& forall|entity: u64| #[trigger]
        found.contains(entity) ==> world_entities(world).contains(entity) && world_components(
            world,
        )[entity].contains(id)
    &&& forall|entity: u64| #[trigger]
        queried_entities(world).contains(entity) && world_entities(world).contains(entity)
            && world_components(world)[entity].contains(id) ==> found.contains(entity)
}

/// The entities that `QueryBuilder::with_id` selects, with `Entity` as the data: those that carry
/// the component, each once.
#[verifier::external_body]
fn query_id(world: &mut World, id: usize) -> (entities: Vec<u64>)
    requires
        world_component_ids(*old(world)).contains(id),
    ensures
        entities@ == queried_with(*old(world), id),
        are_carriers(*old(world), id, entities@),
        world_entities(*final(world)) == world_entities(*old(world)),
        world_components(*final(world)) == world_components(*old(world)),
        world_parents(*final(world)) == world_parents(*old(world)),
        world_children(*final(world)) == world_children(*old(world)),
{
    let mut query = QueryBuilder::<Entity>::new(world).with_id(ComponentId::new(id)).build();
    query.iter(world).map(|entity| entity.to_bits()).collect()
}

/// The entities that a query for the component of this name walks: none if the name is not
/// registered, or the world does not know the component.
pub open spec fn queried_named(world: World, components: Components, component: Seq<char>) -> Seq<
    u64,
> {
    match components.id_of(component) {
        Some(id) => if world_component_ids(world).contains(id) {
            queried_with(world, id)
        } else {
            Seq::empty()
        },
        None => Seq::empty(),
    }
}

/// Whether `found` are the entities that carry the component of this name; none if the name is not
/// registered.
pub open spec fn are_named_carriers(
    world: World,
    components: Components,
    component: Seq<char>,
    found: Seq<u64>,
) -> bool {
    match components.id_of(component) {
        Some(id) => are_carriers(world, id, found),
        None => found.len() == 0,
    }
}

/// Whether a query for the component of this name walks the entities that carry it.
pub open spec fn finds_carriers(world: World, components: Components, component: Seq<char>) -> bool {
    are_named_carriers(world, components, component, queried_named(world, components, component))
}

/// Every entity that carries the component of this name; none if the name is not registered.
#[must_use]
pub fn query_with_component(world: &mut World, registry: &ComponentRegistry, component: &str) -> (
    entities: Vec<u64>)
    ensures
        entities@ == queried_named(*old(world), registry@, component@),
        are_named_carriers(*old(world), registry@, component@, entities@),
        world_entities(*final(world)) == world_entities(*old(world)),
        world_components(*final(world)) == world_components(*old(world)),
        world_parents(*final(world)) == world_parents(*old(world)),
        world_children(*final(world)) == world_children(*old(world)),
{
    match component_id(registry, component) {
        Some(id) => if is_component(world, id) {
            query_id(world, id)
        } else {
            Vec::new()
        },
        None => Vec::new(),
    }
}

/// The three ways to ask for a component agree where no entity is disabled, that is where a query
/// for all entities walks every entity: an entity carries a component exactly if the name is in the
/// list of its components, and exactly if a query for the component finds it. A default is not
/// counted: only what the entity itself carries is.
pub proof fn presence_agrees(
    world: World,
    components: Components,
    entity: u64,
    component: Seq<char>,
    names: Seq<Seq<char>>,
    found: Seq<u64>,
)
    requires
        components.has_finitely_many(),
        names == carried_names(
            world,
            components,
            entity,
            dict::ascending_keys(components.typed) + dict::ascending_keys(components.dynamic),
        ),
        are_named_carriers(world, components, component, found),
        forall|e: u64| #[trigger]
            world_entities(world).contains(e) ==> queried_entities(world).contains(e),
    ensures
        names.contains(component) <==> carries_named(world, components, entity, component),
        found.contains(entity) <==> carries_named(world, components, entity, component),
        !world_entities(world).contains(entity) ==> !carries_named(
            world,
            components,
            entity,
            component,
        ),
        components.id_of(component) is None ==> !carries_named(
            world,
            components,
            entity,
            component,
        ),
{
    listed_names_are_carried(world, components, entity, component);
    if carries_named(world, components, entity, component) {
        assert(queried_entities(world).contains(entity));
    }
}

/// The entities of a virtual machine that carry the component of this name. `tagged` lists the
/// marked entities of the world.
pub open spec fn tagged_carriers(
    world: World,
    components: Components,
    component: Seq<char>,
    tagged: Seq<(u64, VmTag)>,
    vm: VmId,
) -> Seq<u64> {
    id::owned_among(queried_named(world, components, component), id::owned_by(tagged, vm))
}

/// The entities of a virtual machine that carry the component of this name.
#[must_use]
pub fn query_with_component_tagged(
    world: &mut World,
    registry: &ComponentRegistry,
    component: &str,
    tagged: &Vec<(u64, VmTag)>,
    vm: VmId,
) -> (entities: Vec<u64>)
    ensures
        entities@ == tagged_carriers(*old(world), registry@, component@, tagged@, vm),
        finds_carriers(*old(world), registry@, component@),
        world_entities(*final(world)) == world_entities(*old(world)),
        world_components(*final(world)) == world_components(*old(world)),
        world_parents(*final(world)) == world_parents(*old(world)),
        world_children(*final(world)) == world_children(*old(world)),
{
    let found = query_with_component(world, registry, component);
    id::keep_owned(&found, &id::owned_entities(tagged, vm))
}

/// A query of a virtual machine finds an entity only if it exists, carries the component and bears
/// the mark of the machine, so no machine sees the entities of another. It finds every such entity
/// that a query for all entities walks.
pub proof fn queries_stay_within_the_machine(
    world: World,
    components: Components,
    component: Seq<char>,
    tagged: Seq<(u64, VmTag)>,
    vm: VmId,
    entity: u64,
)
    requires
        finds_carriers(world, components, component),
    ensures
        tagged_carriers(world, components, component, tagged, vm).contains(entity) ==> {
            &&& carries_named(world, components, entity, component)
            &&& tagged.contains((entity, VmTag { vm }))
        },
        queried_entities(world).contains(entity) && carries_named(
            world,
            components,
            entity,
            component,
        ) && tagged.contains((entity, VmTag { vm })) ==> tagged_carriers(
            world,
            components,
            component,
            tagged,
            vm,
        ).contains(entity),
{
    let owned = id::owned_by(tagged, vm);
    let found = queried_named(world, components, component);
    let mine = |e: u64| owned.contains(e);
    let kept = tagged_carriers(world, components, component, tagged, vm);
    assert(kept == found.filter(mine));
    id::owned_entities_bear_the_mark(tagged, vm, entity);
    found.filter_lemma(mine);
    if kept.contains(entity) {
        found.lemma_filter_contains_rev(mine, entity);
        let i = choose|i: int| 0 <= i < kept.len() && kept[i] == entity;
        assert(mine(found.filter(mine)[i]));
        assert(found.contains(entity));
    }
    if found.contains(entity) && mine(entity) {
        let j = choose|j: int| 0 <= j < found.len() && found[j] == entity;
        assert(found.filter(mine).contains(found[j]));
    }
}

/// Makes an entity without components, with `World::spawn_empty`. Its id is new to the world, and
/// nothing else changes. The program stops when the world has no id left.
#[verifier::external_body]
pub fn spawn(world: &mut World) -> (entity: u64)
    ensures
        !world_entities(*old(world)).contains(entity),
        world_entities(*final(world)) == world_entities(*old(world)).insert(entity),
        world_components(*final(world))[entity] == Set::<usize>::empty(),
        forall|other: u64| #[trigger]
            world_entities(*old(world)).contains(other) ==> world_components(*final(world))[other]
                == world_components(*old(world))[other],
        world_parents(*final(world)) == world_parents(*old(world)),
        world_children(*final(world)) == world_children(*old(world)),
{
    world.spawn_empty().id().to_bits()
}

/// Whether `after` is a world that despawning `entity` may leave of `before`.
pub uninterp spec fn may_despawn(before: World, entity: u64, after: World) -> bool;

/// Takes an entity away, with `World::despawn`, and returns whether it existed; if it did not,
/// nothing happens. Its children go with it, and the hooks and observers of the world run before
/// this returns: nothing more is said of what they change than that this call did it.
#[verifier::external_body]
pub fn despawn(world: &mut World, entity: u64) -> (existed: bool)
    ensures
        existed == world_entities(*old(world)).contains(entity),
        !world_entities(*final(world)).contains(entity),
        existed ==> may_despawn(*old(world), entity, *final(world)),
        !existed ==> world_entities(*final(world)) == world_entities(*old(world)),
        !existed ==> world_components(*final(world)) == world_components(*old(world)),
        !existed ==> world_parents(*final(world)) == world_parents(*old(world)),
        !existed ==> world_children(*final(world)) == world_children(*old(world)),
{
    match Entity::try_from_bits(entity) {
        Some(id) => world.despawn(id),
        None => false,
    }
}

/// Whether `worlds` are what taking away these entities one after the other goes through. For an
/// entity that went with an earlier one nothing is done.
pub open spec fn taken_away(worlds: Seq<World>, entities: Seq<u64>) -> bool {
    &&& worlds.len() == entities.len() + 1
    &&& forall|k: int| 0 <= k < entities.len() ==> #[trigger] taken_away_at(worlds, entities, k)
}

/// Whether entity `k`, if it was there, was taken away.
pub open spec fn taken_away_at(worlds: Seq<World>, entities: Seq<u64>, k: int) -> bool {
    &&& !world_entities(worlds[k + 1]).contains(entities[k])
    &&& if world_entities(worlds[k]).contains(entities[k]) {
        may_despawn(worlds[k], entities[k], worlds[k + 1])
    } else {
        worlds[k + 1] == worlds[k]
    }
}

/// Takes away every entity that a virtual machine owns. `tagged` lists the marked entities of the
/// world.
pub fn despawn_tagged_entities(world: &mut World, tagged: &Vec<(u64, VmTag)>, vm: VmId)
    ensures
        exists|worlds: Seq<World>|
            {
                &&& #[trigger] taken_away(worlds, id::owned_by(tagged@, vm))
                &&& worlds[0] == *old(world)
                &&& worlds.last() == *final(world)
            },
{
    let owned = id::owned_entities(tagged, vm);
    let ghost mut worlds: Seq<World> = seq![*world];
    let mut i: usize = 0;
    while i < owned.len()
        invariant
            i <= owned.len(),
            worlds[0] == *old(world),
            worlds.last() == *world,
            taken_away(worlds, owned@.take(i as int)),
        decreases owned.len() - i,
    {
        let ghost before = worlds;
        if is_alive(world, owned[i]) {
            let _ = despawn(world, owned[i]);
        }
        proof {
            worlds = worlds.push(*world);
            assert forall|k: int| 0 <= k < i + 1 implies #[trigger] taken_away_at(
                worlds,
                owned@.take(i + 1),
                k,
            ) by {
                if k < i {
                    assert(taken_away_at(before, owned@.take(i as int), k));
                }
            }
        }
        i += 1;
    }
    assert(owned@.take(owned@.len() as int) =~= owned@);
}

/// Whether `after` is a world that inserting a `ChildOf` of `parent` into the entity `child` may
/// leave of `before`.
pub uninterp spec fn may_link(before: World, child: u64, parent: u64, after: World) -> bool;

/// Whether `after` is a world that removing the `ChildOf` from the entity `child` may leave of
/// `before`.
pub uninterp spec fn may_unlink(before: World, child: u64, after: World) -> bool;

/// Gives an entity that exists a `ChildOf` component, with `EntityWorldMut::insert`, and returns
/// whether it exists. The hooks of `ChildOf` and the observers of the world run before this
/// returns. They may take the link away again, as they do from an entity that is to be its own
/// parent, so nothing more is said of the world than that this call left it.
#[verifier::external_body]
fn link(world: &mut World, child: u64, parent: u64) -> (existed: bool)
    requires
        world_entities(*old(world)).contains(parent),
    ensures
        existed == world_entities(*old(world)).contains(child),
        existed ==> may_link(*old(world), child, parent, *final(world)),
        !existed ==> world_entities(*final(world)) == world_entities(*old(world)),
        !existed ==> world_components(*final(world)) == world_components(*old(world)),
        !existed ==> world_parents(*final(world)) == world_parents(*old(world)),
        !existed ==> world_children(*final(world)) == world_children(*old(world)),
{
    match (Entity::try_from_bits(child), Entity::try_from_bits(parent)) {
        (Some(child), Some(parent)) => match world.get_entity_mut(child) {
            Ok(mut target) => {
                target.insert(ChildOf(parent));
                true
            },
            Err(_) => false,
        },
        _ => false,
    }
}

/// Makes `child` a child of `parent`, and returns whether both exist; if not, nothing happens.
pub fn set_parent(world: &mut World, child: u64, parent: u64) -> (both: bool)
    ensures
        both == (world_entities(*old(world)).contains(child) && world_entities(
            *old(world),
        ).contains(parent)),
        both ==> may_link(*old(world), child, parent, *final(world)),
        !both ==> world_entities(*final(world)) == world_entities(*old(world)),
        !both ==> world_components(*final(world)) == world_components(*old(world)),
        !both ==> world_parents(*final(world)) == world_parents(*old(world)),
        !both ==> world_children(*final(world)) == world_children(*old(world)),
{
    if !is_alive(world, parent) {
        return false;
    }
    link(world, child, parent)
}

/// Takes the `ChildOf` component from an entity, with `EntityWorldMut::remove`, and returns whether
/// the entity exists; if it does not, nothing happens. The hooks of `ChildOf` and the observers of
/// the world run before this returns, so nothing more is said of the world than that this call left
/// it.
#[verifier::external_body]
pub fn clear_parent(world: &mut World, child: u64) -> (existed: bool)
    ensures
        existed == world_entities(*old(world)).contains(child),
        existed ==> may_unlink(*old(world), child, *final(world)),
        !existed ==> world_entities(*final(world)) == world_entities(*old(world)),
        !existed ==> world_components(*final(world)) == world_components(*old(world)),
        !existed ==> world_parents(*final(world)) == world_parents(*old(world)),
        !existed ==> world_children(*final(world)) == world_children(*old(world)),
{
    match Entity::try_from_bits(child) {
        Some(id) => match world.get_entity_mut(id) {
            Ok(mut target) => {
                target.remove::<ChildOf>();
                true
            },
            Err(_) => false,
        },
        None => false,
    }
}

/// What the host holds of one component of one entity.
pub struct Stored {
    /// The value of a dynamic component, if the entity carries it.
    pub dynamic: Option<Value>,
    /// The tree of a typed component, if the entity carries it.
    pub typed: Result<Option<Value>, TypedComponentError>,
    /// The tree of the default of a typed component.
    pub typed_default: Result<Value, TypedComponentError>,
}

pub open spec fn value_or(stored: Option<Value>, default: Json) -> Json {
    match stored {
        Some(v) => v@,
        None => default,
    }
}

fn at_path(root: &Value, path: &str) -> (found: Result<Value, WorldAccessError>)
    ensures
        match path::get_at(root@, path::path_segments(path@)) {
            Ok(v) => found is Ok && found->Ok_0@ == v,
            Err(fault) => found is Err && found->Err_0.is_path(fault),
        },
{
    match root.path_get(path) {
        Ok(v) => Ok(v.clone()),
        Err(e) => Err(WorldAccessError::Path(e)),
    }
}

/// What a read gives, once the entity exists and the component is known.
pub open spec fn read_outcome(
    root: Json,
    path: Seq<char>,
    found: Result<Value, WorldAccessError>,
) -> bool {
    match path::get_at(root, path::path_segments(path)) {
        Ok(v) => found is Ok && found->Ok_0@ == v,
        Err(fault) => found is Err && found->Err_0.is_path(fault),
    }
}

/// Whether a read of the value at `path` of a component gives `found`, where `stored` is what the
/// host holds of the component.
pub open spec fn is_read(
    world: World,
    components: Components,
    entity: u64,
    component: Seq<char>,
    path: Seq<char>,
    stored: Stored,
    found: Result<Value, WorldAccessError>,
) -> bool {
    if !world_entities(world).contains(entity) {
        found is Err && found->Err_0.is_entity_not_found(entity)
    } else if components.typed.contains_key(component) {
        match stored.typed {
            Err(e) => found == Err::<Value, WorldAccessError>(WorldAccessError::Typed(e)),
            Ok(Some(v)) => read_outcome(v@, path, found),
            Ok(None) => match stored.typed_default {
                Ok(v) => read_outcome(v@, path, found),
                Err(_) => found is Err && found->Err_0.is_not_present(entity, component),
            },
        }
    } else if components.dynamic.contains_key(component) {
        read_outcome(value_or(stored.dynamic, components.dynamic[component].default), path, found)
    } else {
        found is Err && found->Err_0.is_unknown_component(component)
    }
}

/// Reads the value at `path` of a component. What the entity does not carry reads as the default
/// of the component.
pub fn get(
    world: &World,
    registry: &ComponentRegistry,
    entity: u64,
    component: &str,
    path: &str,
    stored: Stored,
) -> (found: Result<Value, WorldAccessError>)
    ensures
        is_read(*world, registry@, entity, component@, path@, stored, found),
{
    if !is_alive(world, entity) {
        return Err(WorldAccessError::EntityNotFound { entity });
    }
    match registry.resolve(component) {
        Some(ComponentKind::Dynamic(dynamic)) => match stored.dynamic {
            Some(v) => at_path(&v, path),
            None => at_path(&dynamic.default, path),
        },
        Some(ComponentKind::Typed(_)) => match stored.typed {
            Ok(Some(v)) => at_path(&v, path),
            Ok(None) => match stored.typed_default {
                Ok(v) => at_path(&v, path),
                Err(_) => Err(
                    WorldAccessError::ComponentNotPresent {
                        entity,
                        component: component.to_owned(),
                    },
                ),
            },
            Err(e) => Err(WorldAccessError::Typed(e)),
        },
        None => Err(WorldAccessError::UnknownComponent { component: component.to_owned() }),
    }
}

/// Reads a whole component; nothing if the entity does not carry it.
pub fn read_component(registry: &ComponentRegistry, component: &str, stored: Stored) -> (found:
    Result<Option<Value>, WorldAccessError>)
    ensures
        if registry@.typed.contains_key(component@) {
            match stored.typed {
                Ok(v) => found == Ok::<Option<Value>, WorldAccessError>(v),
                Err(e) => found == Err::<Option<Value>, WorldAccessError>(
                    WorldAccessError::Typed(e),
                ),
            }
        } else if registry@.dynamic.contains_key(component@) {
            found == Ok::<Option<Value>, WorldAccessError>(stored.dynamic)
        } else {
            found is Err && found->Err_0.is_unknown_component(component@)
        },
{
    match registry.resolve(component) {
        Some(ComponentKind::Dynamic(_)) => Ok(stored.dynamic),
        Some(ComponentKind::Typed(_)) => match stored.typed {
            Ok(v) => Ok(v),
            Err(e) => Err(WorldAccessError::Typed(e)),
        },
        None => Err(WorldAccessError::UnknownComponent { component: component.to_owned() }),
    }
}

/// What a write acts on.
pub enum SetTarget<'a> {
    /// A dynamic component.
    Dynamic(&'a DynComponent),
    /// A typed component: the write goes on as a [`TypedSet`].
    Typed(TypedSet),
}

/// Whether a write acts on `target`: the entity has to exist and the component to be known.
pub open spec fn is_target(
    world: World,
    components: Components,
    entity: u64,
    component: Seq<char>,
    path: Seq<char>,
    value: Json,
    target: Result<SetTarget, WorldAccessError>,
) -> bool {
    if !world_entities(world).contains(entity) {
        target is Err && target->Err_0.is_entity_not_found(entity)
    } else if components.typed.contains_key(component) {
        target is Ok && match target->Ok_0 {
            SetTarget::Typed(t) => t@ == (TypedSetState { path, value }),
            SetTarget::Dynamic(_) => false,
        }
    } else if components.dynamic.contains_key(component) {
        target is Ok && match target->Ok_0 {
            SetTarget::Dynamic(d) => d@ == components.dynamic[component],
            SetTarget::Typed(_) => false,
        }
    } else {
        target is Err && target->Err_0.is_unknown_component(component)
    }
}

/// Starts a write: the entity has to exist and the component to be known.
pub fn set<'a>(
    world: &World,
    registry: &'a ComponentRegistry,
    entity: u64,
    component: &str,
    path: &str,
    value: Value,
) -> (target: Result<SetTarget<'a>, WorldAccessError>)
    ensures
        is_target(*world, registry@, entity, component@, path@, value@, target),
{
    if !is_alive(world, entity) {
        return Err(WorldAccessError::EntityNotFound { entity });
    }
    match registry.resolve(component) {
        Some(ComponentKind::Dynamic(dynamic)) => Ok(SetTarget::Dynamic(dynamic)),
        Some(ComponentKind::Typed(_)) => Ok(
            SetTarget::Typed(TypedSet { path: path.to_owned(), value }),
        ),
        None => Err(WorldAccessError::UnknownComponent { component: component.to_owned() }),
    }
}

/// The value that a dynamic component has after a write at `path`, and whether the write
/// succeeded. A component that the entity does not carry yet starts from its default, also when
/// the write then fails; a write that fails changes no value.
pub fn set_dynamic(component: &DynComponent, stored: Option<Value>, path: &str, value: Value) -> (
    after: (Value, Result<(), WorldAccessError>))
    ensures
        ({
            let before = value_or(stored, component@.default);
            match path::set_at(before, path::path_segments(path@), value@) {
                Ok(v) => after.1 is Ok && after.0@ == v,
                Err(fault) => after.1 is Err && after.1->Err_0.is_path(fault) && after.0@
                    == before,
            }
        }),
{
    let mut root = match stored {
        Some(v) => v,
        None => component.default.clone(),
    };
    match root.path_set(path, value) {
        Ok(()) => (root, Ok(())),
        Err(e) => (root, Err(WorldAccessError::Path(e))),
    }
}

/// Whether removing the value at `path` of a component leaves the component at `after`.
pub open spec fn is_removal(
    world: World,
    components: Components,
    entity: u64,
    component: Seq<char>,
    path: Seq<char>,
    stored: Option<Value>,
    after: Result<Value, WorldAccessError>,
) -> bool {
    if !world_entities(world).contains(entity) {
        after is Err && after->Err_0.is_entity_not_found(entity)
    } else if components.typed.contains_key(component) {
        after is Err && after->Err_0 is TypedRemoveUnsupported
            && after->Err_0->TypedRemoveUnsupported_component@ == component
    } else if !components.dynamic.contains_key(component) {
        after is Err && after->Err_0.is_unknown_component(component)
    } else {
        match stored {
            None => after is Err && after->Err_0.is_not_present(entity, component),
            Some(root) => match path::remove_at(root@, path::path_segments(path)) {
                Ok(v) => after is Ok && after->Ok_0@ == v,
                Err(fault) => after is Err && after->Err_0.is_path(fault),
            },
        }
    }
}

/// Removes the value at `path` of a dynamic component: the value the component has afterwards.
/// Typed components have a fixed shape and refuse this.
pub fn remove(
    world: &World,
    registry: &ComponentRegistry,
    entity: u64,
    component: &str,
    path: &str,
    stored: Option<Value>,
) -> (after: Result<Value, WorldAccessError>)
    ensures
        is_removal(*world, registry@, entity, component@, path@, stored, after),
{
    if !is_alive(world, entity) {
        return Err(WorldAccessError::EntityNotFound { entity });
    }
    match registry.resolve(component) {
        Some(ComponentKind::Typed(_)) => Err(
            WorldAccessError::TypedRemoveUnsupported { component: component.to_owned() },
        ),
        None => Err(WorldAccessError::UnknownComponent { component: component.to_owned() }),
        Some(ComponentKind::Dynamic(_)) => match stored {
            None => Err(
                WorldAccessError::ComponentNotPresent { entity, component: component.to_owned() },
            ),
            Some(root) => {
                let mut root = root;
                match root.path_remove(path) {
                    Ok(()) => Ok(root),
                    Err(e) => Err(WorldAccessError::Path(e)),
                }
            },
        },
    }
}

/// The default value of the dynamic component of this name, under its id, to be put on an entity.
pub fn insert_dynamic_default(registry: &ComponentRegistry, component: &str) -> (insert: Result<
    (usize, Value),
    WorldAccessError,
>)
    ensures
        match insert {
            Ok((id, v)) => registry@.dynamic.contains_key(component@)
                && registry@.dynamic[component@].id == id
                && registry@.dynamic[component@].default == v@,
            Err(e) => !registry@.dynamic.contains_key(component@) && e.is_unknown_component(
                component@,
            ),
        },
{
    match registry.dynamic(component) {
        Some(dynamic) => Ok((dynamic.id, dynamic.default.clone())),
        None => Err(WorldAccessError::UnknownComponent { component: component.to_owned() }),
    }
}

/// A write to a typed component: what is to be written, and where.
pub struct TypedSet {
    path: String,
    value: Value,
}

/// The state of a [`TypedSet`].
pub struct TypedSetState {
    pub path: Seq<char>,
    pub value: Json,
}

impl View for TypedSet {
    type V = TypedSetState;

    closed spec fn view(&self) -> TypedSetState {
        TypedSetState { path: self.path@, value: self.value@ }
    }
}

/// What the host has to do for a write to a typed component.
pub enum TypedSetStep {
    /// Put a component with this tree on the entity, which does not carry it yet.
    Insert(Value),
    /// Write this tree back into the component.
    Write(Value),
}

impl TypedSet {
    /// Takes what the host read of the component, and the tree of the default of the component. A
    /// tree is changed and written back; a component that is not there starts from the default. A
    /// path that does not lead anywhere is found out before anything is written or inserted.
    pub fn read(
        &self,
        outcome: Result<Option<Value>, TypedComponentError>,
        default: Result<Value, TypedComponentError>,
    ) -> (step: Result<TypedSetStep, WorldAccessError>)
        ensures
            match outcome {
                Err(e) => step == Err::<TypedSetStep, WorldAccessError>(
                    WorldAccessError::Typed(e),
                ),
                Ok(None) => match default {
                    Err(e) => step == Err::<TypedSetStep, WorldAccessError>(
                        WorldAccessError::Typed(e),
                    ),
                    Ok(d) => match typed::typed_set(d@, self@.path, self@.value) {
                        Ok(v) => step is Ok && step->Ok_0 is Insert && step->Ok_0->Insert_0@ == v,
                        Err(fault) => step is Err && step->Err_0.is_path(fault),
                    },
                },
                Ok(Some(snapshot)) => match typed::typed_set(
                    snapshot@,
                    self@.path,
                    self@.value,
                ) {
                    Ok(v) => step is Ok && step->Ok_0 is Write && step->Ok_0->Write_0@ == v,
                    Err(fault) => step is Err && step->Err_0.is_path(fault),
                },
            },
    {
        match outcome {
            Err(e) => Err(WorldAccessError::Typed(e)),
            Ok(None) => match default {
                Err(e) => Err(WorldAccessError::Typed(e)),
                Ok(d) => match typed::typed_path_set(d, self.path.as_str(), self.value.clone()) {
                    Ok(v) => Ok(TypedSetStep::Insert(v)),
                    Err(e) => Err(WorldAccessError::Path(e)),
                },
            },
            Ok(Some(snapshot)) => match typed::typed_path_set(
                snapshot,
                self.path.as_str(),
                self.value.clone(),
            ) {
                Ok(v) => Ok(TypedSetStep::Write(v)),
                Err(e) => Err(WorldAccessError::Path(e)),
            },
        }
    }
}

/// The components that have to be added because a typed component requires them, one at a time.
/// Each is only added if the entity does not carry it, and then brings along what it requires
/// itself, before the rest.
pub struct RequiredWalk {
    /// Components whose requirements are being followed, and how many of them were, innermost
    /// last.
    frames: Vec<(String, usize)>,
}

pub open spec fn frame_views(frames: Seq<(String, usize)>) -> Seq<(Seq<char>, int)> {
    frames.map_values(|f: (String, usize)| (f.0@, f.1 as int))
}

impl View for RequiredWalk {
    type V = Seq<(Seq<char>, int)>;

    closed spec fn view(&self) -> Seq<(Seq<char>, int)> {
        frame_views(self.frames@)
    }
}

/// Whether the last of `frames` has a requirement to follow.
pub open spec fn is_open(components: Components, frames: Seq<(Seq<char>, int)>) -> bool {
    &&& frames.len() > 0
    &&& components.typed.contains_key(frames.last().0)
    &&& 0 <= frames.last().1 < components.typed[frames.last().0].requires.len()
}

/// The requirement that comes next.
pub open spec fn wanted(components: Components, frames: Seq<(Seq<char>, int)>) -> Seq<char> {
    components.typed[frames.last().0].requires[frames.last().1]
}

/// The frames behind the requirement that comes next.
pub open spec fn passed(frames: Seq<(Seq<char>, int)>) -> Seq<(Seq<char>, int)> {
    frames.drop_last().push((frames.last().0, frames.last().1 + 1))
}

/// How many requirements of the last frame are to be followed.
pub open spec fn left_to_follow(components: Components, frames: Seq<(Seq<char>, int)>) -> nat {
    if is_open(components, frames) {
        (components.typed[frames.last().0].requires.len() - frames.last().1) as nat
    } else {
        0
    }
}

/// The frames from which the walk goes on: those whose requirements were all followed are dropped
/// from the end, and a requirement that the entity carries is passed over. What is left stands at a
/// requirement that the entity lacks, or at none.
pub open spec fn settled(
    components: Components,
    frames: Seq<(Seq<char>, int)>,
    carried: Set<usize>,
) -> Seq<(Seq<char>, int)>
    decreases frames.len(), left_to_follow(components, frames),
{
    if frames.len() == 0 {
        frames
    } else if !is_open(components, frames) {
        settled(components, frames.drop_last(), carried)
    } else if components.typed.contains_key(wanted(components, frames)) && carried.contains(
        components.typed[wanted(components, frames)].id,
    ) {
        settled(components, passed(frames), carried)
    } else {
        frames
    }
}

/// One step of a walk over required components, given the ids of the components that the entity
/// carries: the first one that is lacking is added, with its own requirements to follow. Nothing
/// when the walk is over or that requirement is unknown.
pub open spec fn walk_step(
    components: Components,
    frames: Seq<(Seq<char>, int)>,
    carried: Set<usize>,
) -> Option<(Seq<(Seq<char>, int)>, Set<usize>)> {
    let here = settled(components, frames, carried);
    let name = wanted(components, here);
    if here.len() == 0 || !components.typed.contains_key(name) {
        None
    } else {
        Some((passed(here).push((name, 0int)), carried.insert(components.typed[name].id)))
    }
}

/// The ids of the components that an entity carries; none if it does not exist.
pub open spec fn carried_ids(world: World, entity: u64) -> Set<usize> {
    if world_entities(world).contains(entity) {
        world_components(world)[entity]
    } else {
        Set::empty()
    }
}

impl RequiredWalk {
    /// Starts with the requirements of `component`; a component that is not typed has none.
    pub fn start(component: &str) -> (walk: Self)
        ensures
            walk@ == seq![(component@, 0int)],
    {
        let mut frames: Vec<(String, usize)> = Vec::new();
        frames.push((component.to_owned(), 0));
        assert(frame_views(frames@) =~= seq![(component@, 0int)]);
        RequiredWalk { frames }
    }

    /// The next component that is to be added to the entity, with its id, or nothing when the
    /// entity carries all that is required. What the entity carries is left alone. The walk goes
    /// on with what the component itself requires. A requirement that no typed component meets is
    /// an error, and so is an entity that does not exist and lacks something.
    pub fn next(&mut self, world: &World, registry: &ComponentRegistry, entity: u64) -> (required:
        Result<Option<(String, usize)>, WorldAccessError>)
        ensures
            ({
                let carried = carried_ids(*world, entity);
                let here = settled(registry@, old(self)@, carried);
                let name = wanted(registry@, here);
                if here.len() == 0 {
                    required == Ok::<Option<(String, usize)>, WorldAccessError>(None)
                        && final(self)@ == here
                } else if !registry@.typed.contains_key(name) {
                    required is Err && required->Err_0.is_unknown_component(name)
                        && final(self)@ == here
                } else if !world_entities(*world).contains(entity) {
                    required is Err && required->Err_0.is_entity_not_found(entity)
                        && final(self)@ == here
                } else {
                    &&& required is Ok
                    &&& required->Ok_0 matches Some((found, id))
                    &&& found@ == name
                    &&& id == registry@.typed[name].id
                    &&& !world_components(*world)[entity].contains(id)
                    &&& walk_step(registry@, old(self)@, carried) == Some(
                        (final(self)@, carried.insert(id)),
                    )
                }
            }),
    {
        let ghost start = self@;
        let ghost carried = carried_ids(*world, entity);
        while self.frames.len() > 0
            invariant
                start == old(self)@,
                carried == carried_ids(*world, entity),
                settled(registry@, self@, carried) == settled(registry@, start, carried),
            decreases self@.len(), left_to_follow(registry@, self@),
        {
            let ghost here = self@;
            let last: usize = self.frames.len() - 1;
            assert(here.last() == (self.frames@[last as int].0@, self.frames@[last as int].1 as int));
            let (name, next) = self.frames.remove(last);
            let ghost rest = self.frames@;
            assert(frame_views(rest) =~= here.drop_last());
            match registry.typed(name.as_str()) {
                Some(typed) => {
                    if next < typed.requires.len() {
                        let lacking = typed.requires[next].clone();
                        assert(lacking@ == wanted(registry@, here));
                        match registry.typed(lacking.as_str()) {
                            Some(found) => {
                                if carries(world, entity, found.id) {
                                    self.frames.push((name, next + 1));
                                    assert(self@ =~= passed(here));
                                } else if !is_alive(world, entity) {
                                    self.frames.push((name, next));
                                    assert(self@ =~= here);
                                    return Err(WorldAccessError::EntityNotFound { entity });
                                } else {
                                    self.frames.push((name, next + 1));
                                    self.frames.push((lacking.clone(), 0));
                                    assert(self@ =~= passed(here).push((lacking@, 0int)));
                                    return Ok(Some((lacking, found.id)));
                                }
                            },
                            None => {
                                self.frames.push((name, next));
                                assert(self@ =~= here);
                                return Err(WorldAccessError::UnknownComponent { component: lacking });
                            },
                        }
                    }
                },
                None => {},
            }
        }
        Ok(None)
    }
}

/// Whether the entity carries what the first `n` requirements of `name` are.
pub open spec fn has_required(
    components: Components,
    name: Seq<char>,
    n: int,
    carried: Set<usize>,
) -> bool {
    components.typed.contains_key(name) ==> forall|k: int|
        0 <= k < n && k < components.typed[name].requires.len() ==> {
            let required = #[trigger] components.typed[name].requires[k];
            components.typed.contains_key(required) && carried.contains(
                components.typed[required].id,
            )
        }
}

/// Whether `states` is a walk over required components, from its start to its end.
pub open spec fn is_walk(
    components: Components,
    component: Seq<char>,
    states: Seq<(Seq<(Seq<char>, int)>, Set<usize>)>,
) -> bool {
    &&& states.len() > 0
    &&& states[0].0 == seq![(component, 0int)]
    &&& settled(components, states.last().0, states.last().1).len() == 0
    &&& forall|i: int|
        0 <= i < states.len() - 1 ==> walk_step(
            components,
            (#[trigger] states[i]).0,
            states[i].1,
        ) == Some(states[i + 1])
}

/// Whether the entity carries what was followed of the requirements of every frame.
spec fn keeps_up(components: Components, frames: Seq<(Seq<char>, int)>, carried: Set<usize>) -> bool {
    forall|p: int|
        0 <= p < frames.len() ==> has_required(
            components,
            (#[trigger] frames[p]).0,
            frames[p].1,
            carried,
        ) && frames[p].1 >= 0
}

proof fn settling_keeps_up(
    components: Components,
    frames: Seq<(Seq<char>, int)>,
    carried: Set<usize>,
)
    requires
        keeps_up(components, frames, carried),
    ensures
        ({
            let here = settled(components, frames, carried);
            &&& here.len() <= frames.len()
            &&& keeps_up(components, here, carried)
            &&& here.len() > 0 ==> is_open(components, here)
            &&& here.len() > 0 && components.typed.contains_key(wanted(components, here))
                ==> !carried.contains(components.typed[wanted(components, here)].id)
            &&& forall|p: int|
                #![trigger frames[p]]
                #![trigger here[p]]
                0 <= p < here.len() ==> here[p].0 == frames[p].0
            &&& forall|p: int|
                here.len() <= p < frames.len() ==> components.typed.contains_key(
                    (#[trigger] frames[p]).0,
                ) ==> has_required(
                    components,
                    frames[p].0,
                    components.typed[frames[p].0].requires.len() as int,
                    carried,
                )
        }),
    decreases frames.len(), left_to_follow(components, frames),
{
    if frames.len() > 0 {
        let here = settled(components, frames, carried);
        let last = frames.len() - 1;
        assert(has_required(components, frames[last].0, frames[last].1, carried));
        if !is_open(components, frames) {
            let shorter = frames.drop_last();
            assert forall|p: int| 0 <= p < shorter.len() implies has_required(
                components,
                (#[trigger] shorter[p]).0,
                shorter[p].1,
                carried,
            ) && shorter[p].1 >= 0 by {
                assert(shorter[p] == frames[p]);
            }
            settling_keeps_up(components, shorter, carried);
            assert forall|p: int|
                here.len() <= p < frames.len() && components.typed.contains_key(
                    (#[trigger] frames[p]).0,
                ) implies has_required(
                components,
                frames[p].0,
                components.typed[frames[p].0].requires.len() as int,
                carried,
            ) by {
                if p < shorter.len() {
                    assert(shorter[p] == frames[p]);
                }
            }
            assert forall|p: int| 0 <= p < here.len() implies here[p].0 == (#[trigger] frames[p]).0 by {
                assert(shorter[p] == frames[p]);
            }
        } else if components.typed.contains_key(wanted(components, frames)) && carried.contains(
            components.typed[wanted(components, frames)].id,
        ) {
            let further = passed(frames);
            assert forall|p: int| 0 <= p < further.len() implies has_required(
                components,
                (#[trigger] further[p]).0,
                further[p].1,
                carried,
            ) && further[p].1 >= 0 by {
                if p < last {
                    assert(further[p] == frames[p]);
                } else {
                    assert(further[p] == (frames[last].0, frames[last].1 + 1));
                }
            }
            settling_keeps_up(components, further, carried);
            assert forall|p: int|
                here.len() <= p < frames.len() && components.typed.contains_key(
                    (#[trigger] frames[p]).0,
                ) implies has_required(
                components,
                frames[p].0,
                components.typed[frames[p].0].requires.len() as int,
                carried,
            ) by {
                assert(further[p].0 == frames[p].0);
            }
            assert forall|p: int| 0 <= p < here.len() implies here[p].0 == (#[trigger] frames[p]).0 by {
                assert(further[p].0 == frames[p].0);
            }
        }
    }
}

proof fn walk_keeps_up(
    components: Components,
    component: Seq<char>,
    states: Seq<(Seq<(Seq<char>, int)>, Set<usize>)>,
    i: int,
)
    requires
        is_walk(components, component, states),
        0 <= i < states.len(),
    ensures
        keeps_up(components, states[i].0, states[i].1),
        i > 0 ==> states[i - 1].1.subset_of(states[i].1),
    decreases i,
{
    if i > 0 {
        walk_keeps_up(components, component, states, i - 1);
        let (frames, carried) = states[i - 1];
        settling_keeps_up(components, frames, carried);
        let here = settled(components, frames, carried);
        let name = wanted(components, here);
        assert(walk_step(components, states[i - 1].0, states[i - 1].1) == Some(states[i - 1 + 1]));
        let (after, now) = states[i];
        assert forall|p: int| 0 <= p < after.len() implies has_required(
            components,
            (#[trigger] after[p]).0,
            after[p].1,
            now,
        ) && after[p].1 >= 0 by {
            if p < here.len() - 1 {
                assert(after[p] == here[p]);
                assert(has_required(components, here[p].0, here[p].1, carried));
            } else if p == here.len() - 1 {
                assert(after[p] == (here.last().0, here.last().1 + 1));
                assert(has_required(components, here[p].0, here[p].1, carried));
            }
        }
    }
}

/// When the walk is over the entity carries all that any component that was followed requires:
/// what the component it began with requires, and what each added component requires. Nothing
/// that was carried is lost.
pub proof fn walk_adds_all_that_is_required(
    components: Components,
    component: Seq<char>,
    states: Seq<(Seq<(Seq<char>, int)>, Set<usize>)>,
    i: int,
    p: int,
)
    requires
        is_walk(components, component, states),
        0 <= i < states.len(),
        0 <= p < states[i].0.len(),
    ensures
        states[i].1.subset_of(states.last().1),
        components.typed.contains_key(states[i].0[p].0) ==> has_required(
            components,
            states[i].0[p].0,
            components.typed[states[i].0[p].0].requires.len() as int,
            states.last().1,
        ),
    decreases states.len() - i,
{
    let (frames, carried) = states[i];
    walk_keeps_up(components, component, states, i);
    settling_keeps_up(components, frames, carried);
    let here = settled(components, frames, carried);
    if i < states.len() - 1 {
        assert(walk_step(components, states[i].0, states[i].1) == Some(states[i + 1]));
        walk_keeps_up(components, component, states, i + 1);
        walk_adds_all_that_is_required(components, component, states, i + 1, here.len() - 1);
        if p < here.len() {
            assert(states[i + 1].0[p].0 == here[p].0);
            walk_adds_all_that_is_required(components, component, states, i + 1, p);
        }
    }
}

/// A step of the walk adds one component, and one that the entity did not carry: what is carried is
/// never added again.
pub proof fn walk_adds_nothing_twice(
    components: Components,
    frames: Seq<(Seq<char>, int)>,
    carried: Set<usize>,
)
    requires
        walk_step(components, frames, carried) is Some,
    ensures
        ({
            let (after, now) = walk_step(components, frames, carried)->Some_0;
            let added = after.last().0;
            &&& components.typed.contains_key(added)
            &&& !carried.contains(components.typed[added].id)
            &&& now == carried.insert(components.typed[added].id)
        }),
    decreases frames.len(), left_to_follow(components, frames),
{
    if !is_open(components, frames) {
        walk_adds_nothing_twice(components, frames.drop_last(), carried);
    } else if components.typed.contains_key(wanted(components, frames)) && carried.contains(
        components.typed[wanted(components, frames)].id,
    ) {
        walk_adds_nothing_twice(components, passed(frames), carried);
    }
}

/// What was written to a dynamic component is what is read from it: the write of `value` at
/// `path`, if it succeeds, leaves a value whose part at `path` is `value`.
pub proof fn set_dynamic_then_get(before: Json, path: Seq<char>, value: Json)
    requires
        path::set_at(before, path::path_segments(path), value) is Ok,
    ensures
        path::get_at(
            path::set_at(before, path::path_segments(path), value)->Ok_0,
            path::path_segments(path),
        ) == Ok::<Json, PathFault>(value),
{
    path::set_then_get(before, path::path_segments(path), value);
}

/// A name is looked up among the typed components first and then among the dynamic ones.
pub proof fn typed_names_go_first(components: Components, name: Seq<char>)
    ensures
        components.typed.contains_key(name) ==> components.id_of(name) == Some(
            components.typed[name].id,
        ),
        !components.typed.contains_key(name) && components.dynamic.contains_key(name)
            ==> components.id_of(name) == Some(components.dynamic[name].id),
        components.id_of(name) is None <==> !components.typed.contains_key(name)
            && !components.dynamic.contains_key(name),
{
}

/// A read of an entity that is not there fails, and so does one of a component that nobody
/// registered, each with its own error.
pub proof fn reads_of_nothing_fail(
    world: World,
    components: Components,
    entity: u64,
    component: Seq<char>,
    path: Seq<char>,
    stored: Stored,
    found: Result<Value, WorldAccessError>,
)
    requires
        is_read(world, components, entity, component, path, stored, found),
    ensures
        !world_entities(world).contains(entity) ==> found is Err && found->Err_0
            == (WorldAccessError::EntityNotFound { entity }),
        world_entities(world).contains(entity) && !components.typed.contains_key(component)
            && !components.dynamic.contains_key(component) ==> found is Err
            && found->Err_0 is UnknownComponent && found->Err_0->UnknownComponent_component@
            == component,
{
}

/// A read of a whole component gives what the entity carries and, where it carries none, the
/// default of the component. A read at a path gives the part of that value at the path, and fails
/// as the path does where there is none.
pub proof fn reads_give_the_value_or_the_default(
    world: World,
    components: Components,
    entity: u64,
    component: Seq<char>,
    path: Seq<char>,
    stored: Stored,
    found: Result<Value, WorldAccessError>,
    whole: Json,
)
    requires
        is_read(world, components, entity, component, path, stored, found),
        world_entities(world).contains(entity),
        components.typed.contains_key(component) ==> match stored.typed {
            Ok(Some(v)) => whole == v@,
            Ok(None) => stored.typed_default is Ok && whole == stored.typed_default->Ok_0@,
            Err(_) => false,
        },
        !components.typed.contains_key(component) ==> components.dynamic.contains_key(component)
            && match stored.dynamic {
            Some(v) => whole == v@,
            None => whole == components.dynamic[component].default,
        },
    ensures
        path.len() == 0 ==> found is Ok && found->Ok_0@ == whole,
        path::get_at(whole, path::path_segments(path)) is Ok ==> found is Ok && found->Ok_0@
            == path::get_at(whole, path::path_segments(path))->Ok_0,
        path::get_at(whole, path::path_segments(path)) is Err ==> found is Err
            && found->Err_0 is Path && found->Err_0->Path_0@ == path::get_at(
            whole,
            path::path_segments(path),
        )->Err_0,
{
    if path.len() == 0 {
        assert(path =~= Seq::<char>::empty());
        path::segments_lie_between_dots(path, path, path);
        assert(path::path_segments(path) =~= Seq::<Seq<char>>::empty());
        path::reading_goes_down_step_by_step(whole, Seq::empty(), path);
    }
}

/// A typed component that cannot be read fails as the host says; one that the entity lacks and
/// that has no default is not present.
pub proof fn unreadable_components_say_why(
    world: World,
    components: Components,
    entity: u64,
    component: Seq<char>,
    path: Seq<char>,
    stored: Stored,
    found: Result<Value, WorldAccessError>,
)
    requires
        is_read(world, components, entity, component, path, stored, found),
        world_entities(world).contains(entity),
        components.typed.contains_key(component),
    ensures
        stored.typed is Err ==> found == Err::<Value, WorldAccessError>(
            WorldAccessError::Typed(stored.typed->Err_0),
        ),
        stored.typed == Ok::<Option<Value>, TypedComponentError>(None) && stored.typed_default is Err
            ==> found is Err && found->Err_0 is ComponentNotPresent
            && found->Err_0->ComponentNotPresent_entity == entity
            && found->Err_0->ComponentNotPresent_component@ == component,
{
}

/// A write starts where a read would: not without the entity, not for an unknown component, and
/// on the typed component where both layers have the name. It carries the path and the value.
pub proof fn writes_start_where_reads_do(
    world: World,
    components: Components,
    entity: u64,
    component: Seq<char>,
    path: Seq<char>,
    value: Json,
    target: Result<SetTarget, WorldAccessError>,
)
    requires
        is_target(world, components, entity, component, path, value, target),
    ensures
        target is Ok <==> world_entities(world).contains(entity) && (
        components.typed.contains_key(component) || components.dynamic.contains_key(component)),
        !world_entities(world).contains(entity) ==> target->Err_0
            == (WorldAccessError::EntityNotFound { entity }),
        world_entities(world).contains(entity) && target is Err
            ==> target->Err_0 is UnknownComponent && target->Err_0->UnknownComponent_component@
            == component,
        target is Ok ==> (target->Ok_0 is Typed <==> components.typed.contains_key(component)),
        target is Ok && target->Ok_0 is Typed ==> target->Ok_0->Typed_0@.path == path
            && target->Ok_0->Typed_0@.value == value,
        target is Ok && target->Ok_0 is Dynamic ==> target->Ok_0->Dynamic_0@
            == components.dynamic[component],
{
}

/// Parts are removed from dynamic components alone, and only from one that the entity carries; a
/// removal that succeeds leaves a value in which a key that was removed cannot be read.
pub proof fn removals_act_on_carried_dynamic_components(
    world: World,
    components: Components,
    entity: u64,
    component: Seq<char>,
    path: Seq<char>,
    stored: Option<Value>,
    after: Result<Value, WorldAccessError>,
)
    requires
        is_removal(world, components, entity, component, path, stored, after),
    ensures
        after is Ok ==> world_entities(world).contains(entity) && !components.typed.contains_key(
            component,
        ) && components.dynamic.contains_key(component) && stored is Some && path::get_at(
            stored->Some_0@,
            path::path_segments(path),
        ) is Ok && path::path_segments(path).len() > 0,
        !world_entities(world).contains(entity) ==> after is Err && after->Err_0
            == (WorldAccessError::EntityNotFound { entity }),
        world_entities(world).contains(entity) && components.typed.contains_key(component)
            ==> after is Err && after->Err_0 is TypedRemoveUnsupported
            && after->Err_0->TypedRemoveUnsupported_component@ == component,
        world_entities(world).contains(entity) && components.id_of(component) is None ==> after is Err
            && after->Err_0 is UnknownComponent && after->Err_0->UnknownComponent_component@
            == component,
        world_entities(world).contains(entity) && !components.typed.contains_key(component)
            && components.dynamic.contains_key(component) && stored is None ==> after is Err
            && after->Err_0 is ComponentNotPresent && after->Err_0->ComponentNotPresent_entity
            == entity && after->Err_0->ComponentNotPresent_component@ == component,
        world_entities(world).contains(entity) && !components.typed.contains_key(component)
            && components.dynamic.contains_key(component) && stored is Some
            && path::path_segments(path).len() > 0 && path::get_at(
            stored->Some_0@,
            path::path_segments(path),
        ) is Ok ==> after is Ok && after->Ok_0@ == path::remove_at(
            stored->Some_0@,
            path::path_segments(path),
        )->Ok_0,
{
    if path::path_segments(path).len() > 0 && stored is Some {
        path::remove_fails_as_get_fails(stored->Some_0@, path::path_segments(path));
    } else if stored is Some {
        assert(path::path_segments(path) =~= Seq::<Seq<char>>::empty());
        path::the_empty_path_is_the_root(stored->Some_0@, Json::Null);
    }
}

/// The list of what an entity carries keeps the order of the names it is made from, and holds
/// each that is carried and no other.
pub proof fn carried_names_keep_their_order(
    world: World,
    components: Components,
    entity: u64,
    a: Seq<Seq<char>>,
    b: Seq<Seq<char>>,
    name: Seq<char>,
)
    ensures
        carried_names(world, components, entity, a + b) == carried_names(
            world,
            components,
            entity,
            a,
        ) + carried_names(world, components, entity, b),
        carries_named(world, components, entity, name) ==> carried_names(
            world,
            components,
            entity,
            seq![name],
        ) == seq![name],
        !carries_named(world, components, entity, name) ==> carried_names(
            world,
            components,
            entity,
            seq![name],
        ).len() == 0,
    decreases b.len(),
{
    if b.len() == 0 {
        assert(a + b =~= a);
        assert(carried_names(world, components, entity, a) + carried_names(
            world,
            components,
            entity,
            b,
        ) =~= carried_names(world, components, entity, a));
    } else {
        carried_names_keep_their_order(world, components, entity, a, b.drop_last(), name);
        assert((a + b).drop_last() =~= a + b.drop_last());
        assert((a + b).last() == b.last());
        assert(carried_names(world, components, entity, a + b) =~= carried_names(
            world,
            components,
            entity,
            a,
        ) + carried_names(world, components, entity, b));
    }
    assert(seq![name].drop_last() =~= Seq::<Seq<char>>::empty());
    assert(seq![name].last() == name);
    assert(carried_names(world, components, entity, seq![name].drop_last()) =~= Seq::<
        Seq<char>,
    >::empty());
    assert(carries_named(world, components, entity, name) ==> carried_names(
        world,
        components,
        entity,
        seq![name],
    ) =~= seq![name]);
}

proof fn walk_passes_carried(
    components: Components,
    component: Seq<char>,
    carried: Set<usize>,
    outer: Seq<(Seq<char>, int)>,
    from: int,
    k: int,
)
    requires
        components.typed.contains_key(component),
        0 <= from <= k < components.typed[component].requires.len(),
        forall|j: int|
            from <= j < k ==> components.typed.contains_key(
                #[trigger] components.typed[component].requires[j],
            ) && carried.contains(components.typed[components.typed[component].requires[j]].id),
        components.typed.contains_key(components.typed[component].requires[k]),
        !carried.contains(components.typed[components.typed[component].requires[k]].id),
    ensures
        settled(components, outer.push((component, from)), carried) == outer.push((component, k)),
    decreases k - from,
{
    let frames = outer.push((component, from));
    assert(frames.last() == (component, from));
    assert(frames.drop_last() =~= outer);
    assert(is_open(components, frames));
    if from < k {
        assert(wanted(components, frames) == components.typed[component].requires[from]);
        assert(passed(frames) =~= outer.push((component, from + 1)));
        walk_passes_carried(components, component, carried, outer, from + 1, k);
    } else {
        assert(wanted(components, frames) == components.typed[component].requires[k]);
    }
}

/// Requirements are met in the order in which they are listed, and one that the entity carries is
/// passed over: the first that is lacking is the one that is added.
pub proof fn the_first_lacking_requirement_is_added(
    components: Components,
    component: Seq<char>,
    carried: Set<usize>,
    outer: Seq<(Seq<char>, int)>,
    k: int,
)
    requires
        components.typed.contains_key(component),
        0 <= k < components.typed[component].requires.len(),
        forall|j: int|
            0 <= j < k ==> components.typed.contains_key(
                #[trigger] components.typed[component].requires[j],
            ) && carried.contains(components.typed[components.typed[component].requires[j]].id),
        components.typed.contains_key(components.typed[component].requires[k]),
        !carried.contains(components.typed[components.typed[component].requires[k]].id),
    ensures
        ({
            let step = walk_step(components, outer.push((component, 0int)), carried);
            let added = components.typed[component].requires[k];
            &&& step is Some
            &&& step->Some_0.0.last() == (added, 0int)
            &&& step->Some_0.1 == carried.insert(components.typed[added].id)
        }),
{
    walk_passes_carried(components, component, carried, outer, 0, k);
    let here = outer.push((component, k));
    assert(here.last() == (component, k));
}

/// What an added component requires itself is met before anything else: its first requirement
/// that is lacking is the next to be added.
pub proof fn added_components_bring_their_own_along(
    components: Components,
    frames: Seq<(Seq<char>, int)>,
    carried: Set<usize>,
    k: int,
)
    requires
        walk_step(components, frames, carried) is Some,
        ({
            let (after, now) = walk_step(components, frames, carried)->Some_0;
            let added = after.last().0;
            let requires_it = components.typed[added].requires;
            &&& 0 <= k < requires_it.len()
            &&& forall|j: int|
                0 <= j < k ==> components.typed.contains_key(#[trigger] requires_it[j])
                    && now.contains(components.typed[requires_it[j]].id)
            &&& components.typed.contains_key(requires_it[k])
            &&& !now.contains(components.typed[requires_it[k]].id)
        }),
    ensures
        ({
            let (after, now) = walk_step(components, frames, carried)->Some_0;
            let next = components.typed[after.last().0].requires[k];
            let then_step = walk_step(components, after, now);
            &&& then_step is Some
            &&& then_step->Some_0.0.last() == (next, 0int)
            &&& then_step->Some_0.1 == now.insert(components.typed[next].id)
        }),
{
    walk_adds_nothing_twice(components, frames, carried);
    let (after, now) = walk_step(components, frames, carried)->Some_0;
    let added = after.last().0;
    assert(after.last().1 == 0);
    let outer = after.drop_last();
    assert(after =~= outer.push((added, 0int)));
    the_first_lacking_requirement_is_added(components, added, now, outer, k);
}

/// Whether a world went through `worlds` as the marked entities of a machine left it: each of them
/// is missing at some point, and every step leaves the world alone or despawns one of them.
pub open spec fn marked_entities_leave(
    worlds: Seq<World>,
    tagged: Seq<(u64, VmTag)>,
    vm: VmId,
) -> bool {
    &&& worlds.len() > 0
    &&& forall|entity: u64| #[trigger]
        tagged.contains((entity, VmTag { vm })) ==> exists|k: int|
            0 < k < worlds.len() && !world_entities(#[trigger] worlds[k]).contains(entity)
    &&& forall|k: int|
        0 < k < worlds.len() ==> #[trigger] worlds[k] == worlds[k - 1] || exists|entity: u64|
            #[trigger] may_despawn(worlds[k - 1], entity, worlds[k]) && tagged.contains(
                (entity, VmTag { vm }),
            )
}

/// Unloading a machine takes away every entity that bears its mark, one after the other, and acts
/// on no other entity.
pub proof fn every_marked_entity_is_taken_away(
    world: &mut World,
    tagged: &Vec<(u64, VmTag)>,
    vm: VmId,
)
    requires
        call_ensures(despawn_tagged_entities, (world, tagged, vm), ()),
    ensures
        exists|worlds: Seq<World>| #[trigger]
            marked_entities_leave(worlds, tagged@, vm) && worlds[0] == *old(world) && worlds.last()
                == *final(world),
{
    let owned = id::owned_by(tagged@, vm);
    let worlds = choose|worlds: Seq<World>|
        {
            &&& #[trigger] taken_away(worlds, owned)
            &&& worlds[0] == *old(world)
            &&& worlds.last() == *final(world)
        };
    assert forall|entity: u64| #[trigger] tagged@.contains(
        (entity, VmTag { vm }),
    ) implies exists|k: int|
        0 < k < worlds.len() && !world_entities(#[trigger] worlds[k]).contains(entity) by {
        id::owned_entities_bear_the_mark(tagged@, vm, entity);
        let k = choose|k: int| 0 <= k < owned.len() && owned[k] == entity;
        assert(taken_away_at(worlds, owned, k));
        assert(!world_entities(worlds[k + 1]).contains(entity));
    }
    assert forall|k: int| 0 < k < worlds.len() implies #[trigger] worlds[k] == worlds[k - 1]
        || exists|entity: u64| #[trigger]
        may_despawn(worlds[k - 1], entity, worlds[k]) && tagged@.contains(
            (entity, VmTag { vm }),
        ) by {
        assert(taken_away_at(worlds, owned, k - 1));
        let entity = owned[k - 1];
        assert(owned.contains(entity));
        id::owned_entities_bear_the_mark(tagged@, vm, entity);
        if worlds[k] != worlds[k - 1] {
            assert(may_despawn(worlds[k - 1], entity, worlds[k]));
        }
    }
    assert(marked_entities_leave(worlds, tagged@, vm));
}

/// What was written to a dynamic component of an entity is read from it: a write that succeeds at a
/// path is followed by a read at that path that gives the value. A write that fails leaves the
/// value that the component had, or its default.
pub proof fn written_components_are_read(
    world: &World,
    registry: &ComponentRegistry,
    entity: u64,
    name: &str,
    component: &DynComponent,
    stored: Option<Value>,
    path: &str,
    value: Value,
    after: (Value, Result<(), WorldAccessError>),
    kept: Stored,
    found: Result<Value, WorldAccessError>,
)
    requires
        world_entities(*world).contains(entity),
        !registry@.typed.contains_key(name@),
        registry@.dynamic.contains_key(name@),
        call_ensures(set_dynamic, (component, stored, path, value), after),
        kept.dynamic == Some(after.0),
        call_ensures(get, (world, registry, entity, name, path, kept), found),
    ensures
        after.1 is Ok ==> found is Ok && found->Ok_0@ == value@,
        after.1 is Err && stored is Some ==> after.0@ == stored->Some_0@,
        after.1 is Err && stored is None ==> after.0@ == component.default@,
{
    let before = value_or(stored, component@.default);
    if after.1 is Ok {
        path::set_then_get(before, path::path_segments(path@), value@);
    }
}

/// A component that the entity does not carry reads as the default of the component, and a whole
/// one that it carries as what it carries.
pub proof fn missing_components_read_as_their_default(
    world: &World,
    registry: &ComponentRegistry,
    entity: u64,
    name: &str,
    path: &str,
    stored: Stored,
    found: Result<Value, WorldAccessError>,
)
    requires
        world_entities(*world).contains(entity),
        !registry@.typed.contains_key(name@),
        registry@.dynamic.contains_key(name@),
        path@.len() == 0,
        call_ensures(get, (world, registry, entity, name, path, stored), found),
    ensures
        found is Ok,
        stored.dynamic is None ==> found->Ok_0@ == registry@.dynamic[name@].default,
        stored.dynamic is Some ==> found->Ok_0@ == stored.dynamic->Some_0@,
{
    reads_give_the_value_or_the_default(
        *world,
        registry@,
        entity,
        name@,
        path@,
        stored,
        found,
        value_or(stored.dynamic, registry@.dynamic[name@].default),
    );
}

/// A write to a typed component is written back if the entity carries it, and inserted if not; what
/// is handed to the host reads, at the path, as the value. What the host cannot read is not
/// written.
pub proof fn typed_writes_carry_the_value(
    write: &TypedSet,
    outcome: Result<Option<Value>, TypedComponentError>,
    default: Result<Value, TypedComponentError>,
    step: Result<TypedSetStep, WorldAccessError>,
)
    requires
        call_ensures(TypedSet::read, (write, outcome, default), step),
    ensures
        outcome is Err ==> step == Err::<TypedSetStep, WorldAccessError>(
            WorldAccessError::Typed(outcome->Err_0),
        ),
        step is Ok ==> (step->Ok_0 is Write <==> outcome->Ok_0 is Some) && (step->Ok_0 is Insert
            <==> outcome->Ok_0 is None),
        step is Ok && write@.path.len() > 0 ==> path::get_at(
            if step->Ok_0 is Write {
                step->Ok_0->Write_0@
            } else {
                step->Ok_0->Insert_0@
            },
            path::path_segments(write@.path),
        ) == Ok::<Json, PathFault>(write@.value),
{
    if step is Ok {
        let snapshot = if outcome->Ok_0 is Some {
            outcome->Ok_0->Some_0@
        } else {
            default->Ok_0@
        };
        typed::a_set_value_is_read_back(snapshot, write@.path, write@.value);
    }
}

/// A part that was removed from a dynamic component is not read any more, if it was a key of an
/// object.
pub proof fn removed_keys_are_not_read(
    world: &World,
    registry: &ComponentRegistry,
    entity: u64,
    name: &str,
    parent: Seq<char>,
    key: Seq<char>,
    path: &str,
    stored: Option<Value>,
    after: Result<Value, WorldAccessError>,
    kept: Stored,
    found: Result<Value, WorldAccessError>,
)
    requires
        key.len() > 0,
        !key.contains('.'),
        path@ == parent.push('.') + key,
        call_ensures(remove, (world, registry, entity, name, path, stored), after),
        after is Ok,
        path::get_at(stored->Some_0@, path::path_segments(parent)) is Ok,
        path::get_at(stored->Some_0@, path::path_segments(parent))->Ok_0 is Object,
        kept.dynamic == Some(after->Ok_0),
        call_ensures(get, (world, registry, entity, name, path, kept), found),
    ensures
        found is Err,
        found->Err_0 is Path,
        found->Err_0->Path_0@ == (PathFault::KeyNotFound { key }),
{
    path::segments_lie_between_dots(parent, key, key);
    let parents = path::path_segments(parent);
    assert(parents + seq![key] =~= parents.push(key));
    path::remove_then_get(stored->Some_0@, parents, key);
}

/// A whole component is read as the host holds it, in the layer that its name belongs to: nothing
/// if the entity does not carry it, whatever its default is. An unknown name is an error.
pub proof fn whole_components_are_read_as_held(
    registry: &ComponentRegistry,
    component: &str,
    stored: Stored,
    found: Result<Option<Value>, WorldAccessError>,
)
    requires
        call_ensures(read_component, (registry, component, stored), found),
    ensures
        registry@.typed.contains_key(component@) && stored.typed is Ok ==> found is Ok
            && found->Ok_0 == stored.typed->Ok_0,
        registry@.typed.contains_key(component@) && stored.typed is Err ==> found is Err
            && found->Err_0 == WorldAccessError::Typed(stored.typed->Err_0),
        !registry@.typed.contains_key(component@) && registry@.dynamic.contains_key(component@)
            ==> found is Ok && found->Ok_0 == stored.dynamic,
        !registry@.typed.contains_key(component@) && !registry@.dynamic.contains_key(component@)
            ==> found is Err && found->Err_0 is UnknownComponent
            && found->Err_0->UnknownComponent_component@ == component@,
{
}

/// A dynamic component that was registered is put on entities under the id and with the default
/// that it was registered with.
pub proof fn registered_defaults_are_inserted(
    registry: &mut ComponentRegistry,
    name: &str,
    id: usize,
    default: Value,
    done: Result<(), crate::component::RegistryError>,
    after: &ComponentRegistry,
    insert: Result<(usize, Value), WorldAccessError>,
)
    requires
        call_ensures(ComponentRegistry::register_dynamic, (registry, name, id, default), done),
        done is Ok,
        after@ == final(registry)@,
        call_ensures(insert_dynamic_default, (after, name), insert),
    ensures
        insert is Ok,
        insert->Ok_0.0 == id,
        insert->Ok_0.1@ == default@,
{
}

/// An entity is put under a parent exactly if both exist; otherwise the world stays as it is.
pub proof fn both_must_exist_to_be_linked(
    world: &mut World,
    child: u64,
    parent: u64,
    both: bool,
    before: &World,
    a: bool,
    b: bool,
)
    requires
        *before == *old(world),
        call_ensures(is_alive, (before, child), a),
        call_ensures(is_alive, (before, parent), b),
        call_ensures(set_parent, (world, child, parent), both),
    ensures
        both <==> a && b,
        !both ==> world_entities(*final(world)) == world_entities(*old(world)),
        !both ==> world_components(*final(world)) == world_components(*old(world)),
        !both ==> world_parents(*final(world)) == world_parents(*old(world)),
        !both ==> world_children(*final(world)) == world_children(*old(world)),
{
}

/// A query finds an entity only if the entity carries the component, and each entity once; it
/// finds every carrier that a query for all entities walks. Asking one by one agrees with it.
pub proof fn queries_agree_with_single_questions(
    world: &mut World,
    registry: &ComponentRegistry,
    component: &str,
    found: Vec<u64>,
    before: &World,
    entity: u64,
    yes: bool,
    names: Vec<String>,
)
    requires
        call_ensures(query_with_component, (world, registry, component), found),
        *before == *old(world),
        call_ensures(has_component, (before, registry, entity, component), yes),
        call_ensures(components_of, (before, registry, entity), names),
    ensures
        found@.no_duplicates(),
        found@.contains(entity) ==> yes,
        yes && queried_entities(*before).contains(entity) ==> found@.contains(entity),
        yes <==> exists|i: int| 0 <= i < names@.len() && (#[trigger] names@[i])@ == component@,
{
    let texts = text::texts(names@);
    assert(texts.contains(component@) <==> carries_named(*before, registry@, entity, component@));
    if texts.contains(component@) {
        let i = choose|i: int| 0 <= i < texts.len() && texts[i] == component@;
        assert(names@[i]@ == component@);
    }
    if exists|i: int| 0 <= i < names@.len() && (#[trigger] names@[i])@ == component@ {
        let i = choose|i: int| 0 <= i < names@.len() && (#[trigger] names@[i])@ == component@;
        assert(texts[i] == component@);
    }
}

} // verus!
