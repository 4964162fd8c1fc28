//! The functions that scripts call: what each of them decides.
//!
//! Scripts name entities by integers, and components and events by names that are looked up in
//! the plugin of the script first.
use bevy_ecs::world::World;
use vstd::prelude::*;
use vstd::string::*;

use crate::component::ComponentRegistry;
use crate::error::VmError;
use crate::event;
use crate::event::{EventError, EventKind, EventRegistry, EventStore, Pulled};
use crate::plugin_loader::ROOT_PLUGIN;
use crate::system::script::convert;
use crate::system::script::convert::ConvertError;
use crate::system::script::dynamic;
use crate::system::script::dynamic::{Dynamic, Script};
use crate::text;
use crate::value;
use crate::value::{Json, Number, Value};
use crate::vm::id::{VmId, VmTag};
use crate::world_access;
use crate::world_access::{SetTarget, Stored, WorldAccessError};

verus! {

/// How many operations a script may take in one run.
pub const MAX_OPERATIONS: u64 = 1_000_000;

/// How deep the calls of a script may nest.
pub const MAX_CALL_LEVELS: usize = 64;

/// How deep an expression may nest outside functions.
pub const MAX_EXPR_DEPTH: usize = 128;

/// How deep an expression may nest inside a function.
pub const MAX_FUNCTION_EXPR_DEPTH: usize = 128;

/// Why a function that a script called failed.
#[derive(Debug, Clone, PartialEq, Eq)]
pub enum ScriptError {
    /// An argument has no tree form.
    Convert(ConvertError),
    /// A component could not be read or written.
    Access(WorldAccessError),
    /// An event channel could not be used.
    Event(EventError),
    /// An event channel is stored as another kind than it is registered as.
    ChannelMismatch { name: String },
}

impl ScriptError {
    /// The message that the script sees.
    pub open spec fn text(self) -> Seq<char> {
        match self {
            ScriptError::Convert(error) => error.text(),
            ScriptError::Access(error) => error.text(),
            ScriptError::Event(error) => error.text(),
            ScriptError::ChannelMismatch { name } => "event `"@ + name@
                + "` channel kind mismatch"@,
        }
    }

    /// The message that the script sees.
    #[must_use]
    pub fn message(&self) -> (written: String)
        ensures
            written@ == self.text(),
    {
        match self {
            ScriptError::Convert(error) => error.message(),
            ScriptError::Access(error) => error.message(),
            ScriptError::Event(error) => error.message(),
            ScriptError::ChannelMismatch { name } => text::in_between(
                "event `",
                name.as_str(),
                "` channel kind mismatch",
            ),
        }
    }

    /// The error is that a value of this kind has no tree form.
    pub open spec fn is_unsupported(self, kind: Seq<char>) -> bool {
        self is Convert && self->Convert_0 is Unsupported && self->Convert_0->Unsupported_kind@
            == kind
    }

    /// The error is that the channel of this name is stored as another kind than it is registered
    /// as.
    pub open spec fn is_channel_mismatch(self, name: Seq<char>) -> bool {
        self is ChannelMismatch && self->ChannelMismatch_name@ == name
    }
}

/// Something that names are registered in.
pub trait KnownNames {
    /// Whether the name is registered.
    spec fn known(&self, name: Seq<char>) -> bool;

    /// Whether the name is registered.
    fn is_known(&self, name: &str) -> (yes: bool)
        ensures
            yes == self.known(name@),
    ;
}

impl KnownNames for ComponentRegistry {
    open spec fn known(&self, name: Seq<char>) -> bool {
        self@.typed.contains_key(name) || self@.dynamic.contains_key(name)
    }

    fn is_known(&self, name: &str) -> (yes: bool) {
        self.resolve(name).is_some()
    }
}

impl KnownNames for EventRegistry {
    open spec fn known(&self, name: Seq<char>) -> bool {
        self@.taken(name)
    }

    fn is_known(&self, name: &str) -> (yes: bool) {
        self.resolve(name).is_some()
    }
}

/// The full name of something in a plugin.
pub open spec fn qualified(plugin: Seq<char>, name: Seq<char>) -> Seq<char> {
    plugin + "::"@ + name
}

/// What a name in a script of `plugin` stands for: the thing of that name in the plugin itself, if
/// there is one; else what has the name globally. A name with `::` in it is taken as it stands,
/// and so is every name in a script of the top-level world.
pub open spec fn resolved<R: KnownNames>(plugin: Seq<char>, name: Seq<char>, registry: &R) -> Seq<
    char,
> {
    if !text::has_double_colon(name) && plugin != ROOT_PLUGIN@ && registry.known(
        qualified(plugin, name),
    ) {
        qualified(plugin, name)
    } else {
        name
    }
}

/// The registered name that a name in a script of `plugin` stands for. A name that is not
/// registered at all is left as it is, for the message about it.
pub fn resolve_component_name<R: KnownNames>(plugin: &str, name: &str, registry: &R) -> (full:
    String)
    ensures
        full@ == resolved(plugin@, name@, registry),
{
    if !text::is_qualified(name) && !text::same_text(plugin, ROOT_PLUGIN) {
        let full = text::in_between(plugin, "::", name);
        if registry.is_known(full.as_str()) {
            return full;
        }
    }
    name.to_owned()
}

/// The integer by which scripts know an entity: its bits as a signed number.
pub open spec fn encoded(entity: u64) -> i64 {
    if entity <= i64::MAX {
        entity as i64
    } else {
        (entity - 0x1_0000_0000_0000_0000) as i64
    }
}

/// The bits of the entity that scripts know by an integer.
pub open spec fn decoded(value: i64) -> u64 {
    if value >= 0 {
        value as u64
    } else {
        (value + 0x1_0000_0000_0000_0000) as u64
    }
}

/// The integer by which scripts know an entity.
pub fn encode_entity(entity: u64) -> (value: i64)
    ensures
        value == encoded(entity),
{
    if entity <= 0x7fff_ffff_ffff_ffff {
        entity as i64
    } else {
        -((0xffff_ffff_ffff_ffff - entity) as i64) - 1
    }
}

/// The bits of the entity that scripts know by this integer. Not every integer stands for an
/// entity.
pub fn decode_entity(value: i64) -> (entity: u64)
    ensures
        entity == decoded(value),
{
    if value >= 0 {
        value as u64
    } else {
        0xffff_ffff_ffff_ffff - (-(value + 1)) as u64
    }
}

/// An entity that goes to a script and back is the same, and different entities stay different.
pub proof fn entities_survive_scripts(a: u64, b: u64)
    ensures
        decoded(encoded(a)) == a,
        encoded(a) == encoded(b) ==> a == b,
{
}

/// Every integer stands for other bits, and for the bits that it comes from.
pub proof fn integers_survive_the_host(value: i64)
    ensures
        encoded(decoded(value)) == value,
{
}

/// A coordinate axis.
#[derive(Debug, Clone, Copy, PartialEq, Eq, Structural)]
pub enum Axis {
    X,
    Y,
    Z,
}

/// A part of the transform of an entity that scripts reach as if it were a component.
#[derive(Debug, Clone, Copy, PartialEq, Eq, Structural)]
pub enum TransformAlias {
    /// A coordinate of the translation.
    Position(Axis),
    /// An angle of the rotation, in degrees: about the first axis, then the second, the third.
    Rotation(Axis),
}

pub open spec fn axis_of(path: Seq<char>) -> Option<Axis> {
    if path == "x"@ {
        Some(Axis::X)
    } else if path == "y"@ {
        Some(Axis::Y)
    } else if path == "z"@ {
        Some(Axis::Z)
    } else {
        None
    }
}

/// The part of a transform that a component name and a path stand for.
pub open spec fn alias_of(component: Seq<char>, path: Seq<char>) -> Option<TransformAlias> {
    match axis_of(path) {
        Some(axis) => if component == "Position"@ {
            Some(TransformAlias::Position(axis))
        } else if component == "Rotation"@ {
            Some(TransformAlias::Rotation(axis))
        } else {
            None
        },
        None => None,
    }
}

/// The part of a transform that a component name and a path stand for, if they do.
pub fn transform_alias(component: &str, path: &str) -> (alias: Option<TransformAlias>)
    ensures
        alias == alias_of(component@, path@),
{
    let axis = if text::same_text(path, "x") {
        Axis::X
    } else if text::same_text(path, "y") {
        Axis::Y
    } else if text::same_text(path, "z") {
        Axis::Z
    } else {
        return None;
    };
    if text::same_text(component, "Position") {
        Some(TransformAlias::Position(axis))
    } else if text::same_text(component, "Rotation") {
        Some(TransformAlias::Rotation(axis))
    } else {
        None
    }
}

/// Entities as scripts know them.
pub open spec fn all_encoded(entities: Seq<u64>) -> Seq<i64> {
    entities.map_values(|e: u64| encoded(e))
}

fn encode_all(entities: &Vec<u64>) -> (values: Vec<i64>)
    ensures
        values@ == all_encoded(entities@),
{
    let mut values: Vec<i64> = Vec::new();
    let mut i: usize = 0;
    while i < entities.len()
        invariant
            i <= entities.len(),
            values@ == all_encoded(entities@.take(i as int)),
        decreases entities.len() - i,
    {
        values.push(encode_entity(entities[i]));
        i += 1;
        assert(values@ =~= all_encoded(entities@.take(i as int)));
    }
    assert(entities@.take(entities@.len() as int) =~= entities@);
    values
}

/// The entities of one virtual machine that carry a component, as a script asks for them.
/// `tagged` lists the marked entities of the world.
pub fn query(
    world: &mut World,
    registry: &ComponentRegistry,
    plugin: &str,
    component: &str,
    tagged: &Vec<(u64, VmTag)>,
    vm: VmId,
) -> (entities: Vec<i64>)
    ensures
        entities@ == all_encoded(
            world_access::tagged_carriers(
                *old(world),
                registry@,
                resolved(plugin@, component@, registry),
                tagged@,
                vm,
            ),
        ),
        world_access::finds_carriers(
            *old(world),
            registry@,
            resolved(plugin@, component@, registry),
        ),
        world_access::world_entities(*final(world)) == world_access::world_entities(*old(world)),
        world_access::world_components(*final(world)) == world_access::world_components(
            *old(world),
        ),
        world_access::world_parents(*final(world)) == world_access::world_parents(*old(world)),
        world_access::world_children(*final(world)) == world_access::world_children(*old(world)),
{
    let name = resolve_component_name(plugin, component, registry);
    encode_all(
        &world_access::query_with_component_tagged(world, registry, name.as_str(), tagged, vm),
    )
}

/// Whether an entity carries a component, as a script asks.
pub fn has_component(
    world: &World,
    registry: &ComponentRegistry,
    plugin: &str,
    entity: i64,
    component: &str,
) -> (yes: bool)
    ensures
        yes == world_access::carries_named(
            *world,
            registry@,
            decoded(entity),
            resolved(plugin@, component@, registry),
        ),
{
    let name = resolve_component_name(plugin, component, registry);
    world_access::has_component(world, registry, decode_entity(entity), name.as_str())
}

/// The parent of an entity as a script sees it: nothing if there is none.
pub fn parent_of(world: &World, entity: i64) -> (parent: Dynamic)
    ensures
        parent@ == (if world_access::world_parents(*world).contains_key(decoded(entity)) {
            Script::Int(encoded(world_access::world_parents(*world)[decoded(entity)]))
        } else {
            Script::Unit
        }),
{
    match world_access::parent_of(world, decode_entity(entity)) {
        Some(parent) => Dynamic::Int(encode_entity(parent)),
        None => Dynamic::Unit,
    }
}

/// The children of an entity as a script sees them.
pub fn children_of(world: &World, entity: i64) -> (children: Vec<i64>)
    ensures
        children@ == (if world_access::world_children(*world).contains_key(decoded(entity)) {
            all_encoded(world_access::world_children(*world)[decoded(entity)])
        } else {
            Seq::empty()
        }),
{
    let values = encode_all(&world_access::children_of(world, decode_entity(entity)));
    assert(all_encoded(Seq::empty()) =~= Seq::empty());
    values
}

/// What a script gets to read.
pub enum Got {
    /// This part of the transform of the entity, which the host keeps.
    Alias(TransformAlias),
    /// A value.
    Value(Dynamic),
}

/// Reads the value at `path` of a component, for a script. `fetch` gives what the host holds of
/// the component of a name.
pub fn get<F: FnOnce(&str) -> Stored>(
    world: &World,
    registry: &ComponentRegistry,
    plugin: &str,
    entity: i64,
    component: &str,
    path: &str,
    fetch: F,
) -> (got: Result<Got, ScriptError>)
    requires
        forall|name: &str| fetch.requires((name,)),
    ensures
        match alias_of(component@, path@) {
            Some(alias) => got == Ok::<Got, ScriptError>(Got::Alias(alias)),
            None => exists|name: &str, stored: Stored, found: Result<Value, WorldAccessError>|
                {
                    &&& #[trigger] fetch.ensures((name,), stored)
                    &&& name@ == resolved(plugin@, component@, registry)
                    &&& #[trigger] world_access::is_read(
                        *world,
                        registry@,
                        decoded(entity),
                        name@,
                        path@,
                        stored,
                        found,
                    )
                    &&& match found {
                        Ok(v) => got is Ok && got->Ok_0 is Value && got->Ok_0->Value_0@
                            == convert::script_of(v@),
                        Err(e) => got == Err::<Got, ScriptError>(ScriptError::Access(e)),
                    }
                },
        },
{
    match transform_alias(component, path) {
        Some(alias) => Ok(Got::Alias(alias)),
        None => {
            let name = resolve_component_name(plugin, component, registry);
            let short: &str = name.as_str();
            let stored = fetch(short);
            let ghost held = stored;
            let found = world_access::get(
                world,
                registry,
                decode_entity(entity),
                short,
                path,
                stored,
            );
            proof {
                assert(fetch.ensures((short,), held));
                assert(world_access::is_read(
                    *world,
                    registry@,
                    decoded(entity),
                    short@,
                    path@,
                    held,
                    found,
                ));
            }
            match found {
                Ok(v) => Ok(Got::Value(convert::to_dynamic(&v))),
                Err(e) => Err(ScriptError::Access(e)),
            }
        },
    }
}

/// What a write of a script acts on.
pub enum SetPlan<'a> {
    /// This part of the transform of the entity is to become this number.
    Alias(TransformAlias, Number),
    /// A component of this name is to be written with this value.
    Component(String, Value, SetTarget<'a>),
}

/// Plans the write of a value at `path` of a component, for a script. Only a number can go into
/// the transform of an entity, and only of one that exists; anything else is a write to a
/// component that happens to have such a name.
pub fn plan_set<'a>(
    world: &World,
    registry: &'a ComponentRegistry,
    plugin: &str,
    entity: i64,
    component: &str,
    path: &str,
    value: Dynamic,
) -> (plan: Result<SetPlan<'a>, ScriptError>)
    ensures
        match convert::json_of(value@) {
            Err(kind) => plan is Err && plan->Err_0.is_unsupported(kind),
            Ok(v) => if alias_of(component@, path@) is Some && v is Number
                && world_access::world_entities(*world).contains(decoded(entity)) {
                plan == Ok::<SetPlan, ScriptError>(
                    SetPlan::Alias(alias_of(component@, path@)->Some_0, v->Number_0),
                )
            } else {
                exists|target: Result<SetTarget, WorldAccessError>|
                    {
                        &&& #[trigger] world_access::is_target(
                            *world,
                            registry@,
                            decoded(entity),
                            resolved(plugin@, component@, registry),
                            path@,
                            v,
                            target,
                        )
                        &&& match target {
                            Ok(t) => plan is Ok && match plan->Ok_0 {
                                SetPlan::Component(name, w, to) => name@ == resolved(
                                    plugin@,
                                    component@,
                                    registry,
                                ) && w@ == v && to == t,
                                SetPlan::Alias(_, _) => false,
                            },
                            Err(e) => plan == Err::<SetPlan, ScriptError>(ScriptError::Access(e)),
                        }
                    }
            },
        },
{
    let tree = match convert::from_dynamic(value) {
        Ok(v) => v,
        Err(e) => {
            return Err(ScriptError::Convert(e));
        },
    };
    if let Some(alias) = transform_alias(component, path) {
        if let Value::Number(number) = &tree {
            if world_access::is_alive(world, decode_entity(entity)) {
                return Ok(SetPlan::Alias(alias, *number));
            }
        }
    }
    let name = resolve_component_name(plugin, component, registry);
    let target = world_access::set(
        world,
        registry,
        decode_entity(entity),
        name.as_str(),
        path,
        tree.clone(),
    );
    proof {
        assert(world_access::is_target(
            *world,
            registry@,
            decoded(entity),
            name@,
            path@,
            tree@,
            target,
        ));
    }
    match target {
        Ok(to) => Ok(SetPlan::Component(name, tree, to)),
        Err(e) => Err(ScriptError::Access(e)),
    }
}

/// Removes the value at `path` of a component, for a script: the full name of the component and
/// the value that it has afterwards. `fetch` gives the value that the host holds of the dynamic
/// component of a name.
pub fn remove<F: FnOnce(&str) -> Option<Value>>(
    world: &World,
    registry: &ComponentRegistry,
    plugin: &str,
    entity: i64,
    component: &str,
    path: &str,
    fetch: F,
) -> (after: Result<(String, Value), ScriptError>)
    requires
        forall|name: &str| fetch.requires((name,)),
    ensures
        exists|name: &str, stored: Option<Value>, left: Result<Value, WorldAccessError>|
            {
                &&& #[trigger] fetch.ensures((name,), stored)
                &&& name@ == resolved(plugin@, component@, registry)
                &&& #[trigger] world_access::is_removal(
                    *world,
                    registry@,
                    decoded(entity),
                    name@,
                    path@,
                    stored,
                    left,
                )
                &&& match left {
                    Ok(v) => after is Ok && after->Ok_0.0@ == name@ && after->Ok_0.1 == v,
                    Err(e) => after == Err::<(String, Value), ScriptError>(ScriptError::Access(e)),
                }
            },
{
    let name = resolve_component_name(plugin, component, registry);
    let short: &str = name.as_str();
    let stored = fetch(short);
    let ghost held = stored;
    let left = world_access::remove(world, registry, decode_entity(entity), short, path, stored);
    proof {
        assert(fetch.ensures((short,), held));
        assert(world_access::is_removal(
            *world,
            registry@,
            decoded(entity),
            short@,
            path@,
            held,
            left,
        ));
    }
    match left {
        Ok(v) => Ok((name, v)),
        Err(e) => Err(ScriptError::Access(e)),
    }
}

/// Emits an event, for a script: the payload is laid over the default of the channel. `send` hands
/// an event of a typed channel to the host, which is left alone in every other case. A channel that
/// is not registered is an error.
pub fn emit<W, F: FnOnce(W, Value) -> (W, Result<(), EventError>)>(
    registry: &EventRegistry,
    store: &mut EventStore,
    plugin: &str,
    name: &str,
    payload: Dynamic,
    host: W,
    send: F,
) -> (done: (W, Result<(), ScriptError>))
    requires
        forall|v: Value| send.requires((host, v)),
    ensures
        ({
            let channel = resolved(plugin@, name@, registry);
            let before = old(store)@;
            match convert::json_of(payload@) {
                Err(kind) => {
                    &&& done.0 == host
                    &&& done.1 is Err
                    &&& done.1->Err_0.is_unsupported(kind)
                    &&& final(store)@ == before
                },
                Ok(p) => if registry@.typed.contains_key(channel) {
                    &&& final(store)@ == before
                    &&& if before.typed.contains_key(channel) {
                        exists|event: Value, sent: Result<(), EventError>|
                            {
                                &&& #[trigger] event::is_sent(send, host, event, done.0, sent)
                                &&& event@ == event::with_default(p, registry@.typed[channel])
                                &&& done.1 == (match sent {
                                    Ok(()) => Ok::<(), ScriptError>(()),
                                    Err(e) => Err(ScriptError::Event(e)),
                                })
                            }
                    } else if before.dynamic.contains_key(channel) {
                        &&& done.0 == host
                        &&& done.1 is Err
                        &&& done.1->Err_0.is_channel_mismatch(channel)
                    } else {
                        &&& done.0 == host
                        &&& done.1 is Err
                        &&& done.1->Err_0 is Event
                        &&& before.refuses_typed(channel, done.1->Err_0->Event_0)
                    }
                } else if registry@.dynamic.contains_key(channel) {
                    &&& done.0 == host
                    &&& match done.1 {
                        Ok(()) => !before.typed.contains_key(channel)
                            && before.dynamic.contains_key(channel) && final(store)@
                            == before.pushed(
                            channel,
                            event::with_default(p, Some(registry@.dynamic[channel])),
                        ),
                        Err(e) => e is Event && before.refuses_dynamic(channel, e->Event_0)
                            && final(store)@ == before,
                    }
                } else {
                    &&& done.0 == host
                    &&& final(store)@ == before
                    &&& done.1 is Err
                    &&& done.1->Err_0 is Event
                    &&& done.1->Err_0->Event_0 is UnknownEvent
                    &&& done.1->Err_0->Event_0->UnknownEvent_name@ == channel
                },
            }
        }),
{
    let payload = match convert::from_dynamic(payload) {
        Ok(v) => v,
        Err(e) => {
            return (host, Err(ScriptError::Convert(e)));
        },
    };
    let channel = resolve_component_name(plugin, name, registry);
    match registry.resolve(channel.as_str()) {
        Some(EventKind::Typed(typed)) => {
            if !store.has_typed(channel.as_str()) && store.dynamic_buffer(
                channel.as_str(),
            ).is_some() {
                return (host, Err(ScriptError::ChannelMismatch { name: channel }));
            }
            let event = event::merge_with_default(payload, typed.default.as_ref());
            let ghost first = host;
            let (host, sent) = store.emit_typed(channel.as_str(), event, host, send);
            let done = match sent {
                Ok(()) => (host, Ok(())),
                Err(e) => (host, Err(ScriptError::Event(e))),
            };
            proof {
                if old(store)@.typed.contains_key(channel@) {
                    assert(event::is_sent(send, first, event, done.0, sent));
                }
            }
            done
        },
        Some(EventKind::Dynamic(dynamic)) => {
            let event = event::merge_with_default(payload, Some(&dynamic.default));
            match store.push_dynamic(channel.as_str(), event) {
                Ok(()) => (host, Ok(())),
                Err(e) => (host, Err(ScriptError::Event(e))),
            }
        },
        None => (host, Err(ScriptError::Event(EventError::UnknownEvent { name: channel }))),
    }
}

/// The script-side forms of a list of values.
pub open spec fn scripts_of(list: Seq<Json>) -> Seq<Script> {
    list.map_values(|v: Json| convert::script_of(v))
}

fn to_dynamics(list: &Vec<Value>) -> (scripts: Vec<Dynamic>)
    ensures
        dynamic::items_view(scripts@) == scripts_of(value::items_view(list@)),
{
    let mut scripts: Vec<Dynamic> = Vec::new();
    let mut i: usize = 0;
    while i < list.len()
        invariant
            i <= list.len(),
            scripts@.len() == i,
            forall|j: int|
                0 <= j < i ==> (#[trigger] scripts@[j])@ == convert::script_of(list@[j]@),
        decreases list.len() - i,
    {
        scripts.push(convert::to_dynamic(&list[i]));
        i += 1;
    }
    assert(dynamic::items_view(scripts@) =~= scripts_of(value::items_view(list@)));
    scripts
}

/// The events of a channel in this tick, for a script. `pull` gets from the host the events of a
/// typed channel that are new; only the first read of the tick asks the host. A channel that is not
/// there has no events. One that is stored as another kind than it is registered as is an error.
pub fn events<W, F: FnOnce(W) -> (W, Pulled)>(
    registry: &EventRegistry,
    store: &mut EventStore,
    plugin: &str,
    name: &str,
    host: W,
    pull: F,
) -> (read: (W, Result<Vec<Dynamic>, ScriptError>))
    requires
        pull.requires((host,)),
    ensures
        ({
            let channel = resolved(plugin@, name@, registry);
            let before = old(store)@;
            if before.typed.contains_key(channel) {
                if !registry@.typed.contains_key(channel) {
                    &&& read.0 == host
                    &&& final(store)@ == before
                    &&& read.1 is Err
                    &&& read.1->Err_0.is_channel_mismatch(channel)
                } else if before.typed[channel].primed {
                    &&& read.0 == host
                    &&& final(store)@ == before
                    &&& read.1 is Ok
                    &&& dynamic::items_view(read.1->Ok_0@) == scripts_of(
                        before.typed[channel].events,
                    )
                } else {
                    exists|pulled: Pulled|
                        {
                            &&& #[trigger] event::is_pull(pull, host, read.0, pulled)
                            &&& final(store)@ == before.after_read(
                                channel,
                                value::items_view(pulled.events@),
                                pulled.failure is None,
                            )
                            &&& match pulled.failure {
                                None => read.1 is Ok && dynamic::items_view(read.1->Ok_0@)
                                    == scripts_of(final(store)@.typed[channel].events),
                                Some(e) => read.1 == Err::<Vec<Dynamic>, ScriptError>(
                                    ScriptError::Event(e),
                                ),
                            }
                        }
                }
            } else if before.dynamic.contains_key(channel) {
                &&& read.0 == host
                &&& final(store)@ == before
                &&& if registry@.typed.contains_key(channel) || !registry@.dynamic.contains_key(
                    channel,
                ) {
                    read.1 is Err && read.1->Err_0.is_channel_mismatch(channel)
                } else {
                    read.1 is Ok && dynamic::items_view(read.1->Ok_0@) == scripts_of(
                        before.dynamic[channel],
                    )
                }
            } else {
                &&& read.0 == host
                &&& final(store)@ == before
                &&& read.1 is Ok
                &&& dynamic::items_view(read.1->Ok_0@) == Seq::<Script>::empty()
            }
        }),
{
    let channel = resolve_component_name(plugin, name, registry);
    if store.has_typed(channel.as_str()) {
        return match registry.resolve(channel.as_str()) {
            Some(EventKind::Typed(_)) => {
                let ghost first = host;
                let (host, list) = store.read_typed(channel.as_str(), host, pull);
                let read = match list {
                    Ok(list) => (host, Ok(to_dynamics(&list))),
                    Err(e) => (host, Err(ScriptError::Event(e))),
                };
                proof {
                    if !old(store)@.typed[channel@].primed {
                        let pulled = choose|pulled: Pulled|
                            {
                                &&& #[trigger] event::is_pull(pull, first, host, pulled)
                                &&& store@ == old(store)@.after_read(
                                    channel@,
                                    value::items_view(pulled.events@),
                                    pulled.failure is None,
                                )
                                &&& match list {
                                    Ok(got) => pulled.failure is None && value::items_view(got@)
                                        == store@.typed[channel@].events,
                                    Err(e) => pulled.failure == Some(e),
                                }
                            };
                        assert(event::is_pull(pull, first, read.0, pulled));
                    }
                }
                read
            },
            _ => (host, Err(ScriptError::ChannelMismatch { name: channel })),
        };
    }
    match store.dynamic_buffer(channel.as_str()) {
        Some(buffer) => match registry.resolve(channel.as_str()) {
            Some(EventKind::Dynamic(_)) => (host, Ok(to_dynamics(buffer.current()))),
            _ => (host, Err(ScriptError::ChannelMismatch { name: channel })),
        },
        None => {
            let none: Vec<Dynamic> = Vec::new();
            assert(dynamic::items_view(none@) =~= Seq::<Script>::empty());
            (host, Ok(none))
        },
    }
}

/// Whether the first `n` conditions of a script were asked in order, each once, and held. The world
/// of the host goes from one to the next.
pub open spec fn held<W, C: Fn(usize, W) -> (W, Result<bool, String>)>(
    condition: C,
    worlds: Seq<W>,
    n: int,
) -> bool {
    &&& worlds.len() == n + 1
    &&& forall|i: usize|
        0 <= i < n ==> #[trigger] condition.ensures(
            (i, worlds[i as int]),
            (worlds[i + 1], Ok(true)),
        )
}

/// Whether a run with `count` conditions leads from one world to the other and gives `done`.
/// Either all conditions held and then the body ran, or the first condition that did not hold, or
/// failed, was the last to be asked and the body did not run.
pub open spec fn is_gated_run<
    W,
    C: Fn(usize, W) -> (W, Result<bool, String>),
    B: FnOnce(W) -> (W, Result<(), String>),
>(
    count: usize,
    condition: C,
    body: B,
    world: W,
    after: W,
    done: Result<(), VmError>,
) -> bool {
    exists|worlds: Seq<W>|
        {
            &&& #[trigger] held(condition, worlds, worlds.len() - 1)
            &&& 0 < worlds.len() <= count + 1
            &&& worlds[0] == world
            &&& if worlds.len() == count + 1 {
                match done {
                    Ok(()) => body.ensures((worlds.last(),), (after, Ok(()))),
                    Err(VmError::ScriptRuntime(reason)) => body.ensures(
                        (worlds.last(),),
                        (after, Err(reason)),
                    ),
                    _ => false,
                }
            } else {
                let k = (worlds.len() - 1) as usize;
                match done {
                    Ok(()) => condition.ensures((k, worlds.last()), (after, Ok(false))),
                    Err(VmError::ScriptRuntime(reason)) => exists|why: String| #[trigger]
                        condition.ensures((k, worlds.last()), (after, Err(why))) && reason@
                            == "run_if eval: "@ + why@,
                    _ => false,
                }
            }
        }
}

/// Runs a script with `count` conditions: each is asked in order, and the body runs only if all of
/// them hold. The first that does not hold ends the run, and so does the first that fails.
pub fn run_gated<
    W,
    C: Fn(usize, W) -> (W, Result<bool, String>),
    B: FnOnce(W) -> (W, Result<(), String>),
>(count: usize, world: W, condition: C, body: B) -> (run: (W, Result<(), VmError>))
    requires
        forall|i: usize, w: W| 0 <= i < count ==> #[trigger] condition.requires((i, w)),
        forall|w: W| #[trigger] body.requires((w,)),
    ensures
        is_gated_run(count, condition, body, world, run.0, run.1),
{
    let ghost mut worlds: Seq<W> = seq![world];
    let mut now = world;
    let mut i: usize = 0;
    while i < count
        invariant
            i <= count,
            worlds[0] == world,
            worlds.last() == now,
            held(condition, worlds, i as int),
            forall|j: usize, w: W| 0 <= j < count ==> #[trigger] condition.requires((j, w)),
        decreases count - i,
    {
        let (after, outcome) = condition(i, now);
        match outcome {
            Ok(true) => {},
            Ok(false) => {
                assert(held(condition, worlds, worlds.len() - 1));
                let run = (after, Ok(()));
                assert(condition.ensures((i, worlds.last()), (run.0, Ok(false))));
                return run;
            },
            Err(why) => {
                let reason = text::followed_by("run_if eval: ", why.as_str());
                assert(held(condition, worlds, worlds.len() - 1));
                let run = (after, Err(VmError::ScriptRuntime(reason)));
                assert(condition.ensures((i, worlds.last()), (run.0, Err(why))));
                return run;
            },
        }
        proof {
            let sofar = worlds;
            worlds = worlds.push(after);
            assert forall|j: usize| 0 <= j < i + 1 implies #[trigger] condition.ensures(
                (j, worlds[j as int]),
                (worlds[j + 1], Ok(true)),
            ) by {
                if j < i {
                    assert(condition.ensures((j, sofar[j as int]), (sofar[j + 1], Ok(true))));
                }
            }
        }
        now = after;
        i += 1;
    }
    assert(held(condition, worlds, worlds.len() - 1));
    let (after, ran) = body(now);
    match ran {
        Ok(unit) => {
            assert(unit == ());
            (after, Ok(()))
        },
        Err(reason) => (after, Err(VmError::ScriptRuntime(reason))),
    }
}

/// The integer of an entity is its bits as a two's complement number: small bits are the number
/// itself, and those from the upper half lie below zero, by as much as they lie below the end.
pub proof fn entities_are_signed_bits(entity: u64, value: i64)
    ensures
        encoded(entity) == entity || encoded(entity) == entity - 0x1_0000_0000_0000_0000,
        encoded(entity) >= 0 <==> entity < 0x8000_0000_0000_0000,
        decoded(value) == value || decoded(value) == value + 0x1_0000_0000_0000_0000,
        value >= 0 ==> decoded(value) == value,
{
}

/// Lists of entities and of values reach scripts in their order, each item on its own.
pub proof fn lists_reach_scripts_in_order(entities: Seq<u64>, list: Seq<Json>, i: int)
    ensures
        all_encoded(entities).len() == entities.len(),
        0 <= i < entities.len() ==> all_encoded(entities)[i] == encoded(entities[i]),
        scripts_of(list).len() == list.len(),
        0 <= i < list.len() ==> scripts_of(list)[i] == convert::script_of(list[i]),
{
}

/// The three coordinates of the position and of the rotation are parts of the transform, each by
/// its letter, and nothing else is.
pub proof fn positions_and_rotations_are_parts_of_the_transform(
    component: Seq<char>,
    path: Seq<char>,
)
    ensures
        alias_of("Position"@, "x"@) == Some(TransformAlias::Position(Axis::X)),
        alias_of("Position"@, "y"@) == Some(TransformAlias::Position(Axis::Y)),
        alias_of("Position"@, "z"@) == Some(TransformAlias::Position(Axis::Z)),
        alias_of("Rotation"@, "x"@) == Some(TransformAlias::Rotation(Axis::X)),
        alias_of("Rotation"@, "y"@) == Some(TransformAlias::Rotation(Axis::Y)),
        alias_of("Rotation"@, "z"@) == Some(TransformAlias::Rotation(Axis::Z)),
        component != "Position"@ && component != "Rotation"@ ==> alias_of(component, path) is None,
        path != "x"@ && path != "y"@ && path != "z"@ ==> alias_of(component, path) is None,
{
    reveal_strlit("x");
    reveal_strlit("y");
    reveal_strlit("z");
    reveal_strlit("Position");
    reveal_strlit("Rotation");
    assert("x"@[0] != "y"@[0]);
    assert("x"@[0] != "z"@[0]);
    assert("y"@[0] != "z"@[0]);
    assert("Position"@[0] != "Rotation"@[0]);
}

/// A script finds what its own plugin has under a name before what has the name globally. A name
/// with `::` in it, and every name in the top-level world, stands for itself, and so does a name
/// that the plugin does not know.
pub proof fn scripts_see_their_own_plugin_first<R: KnownNames>(
    plugin: Seq<char>,
    name: Seq<char>,
    a: Seq<char>,
    b: Seq<char>,
    registry: &R,
)
    ensures
        plugin != ROOT_PLUGIN@ && !name.contains(':') && registry.known(plugin + "::"@ + name)
            ==> resolved(plugin, name, registry) == plugin + "::"@ + name,
        !registry.known(plugin + "::"@ + name) ==> resolved(plugin, name, registry) == name,
        resolved(ROOT_PLUGIN@, name, registry) == name,
        resolved(plugin, a + "::"@ + b, registry) == a + "::"@ + b,
{
    text::qualified_names_are_cut_in_two(a, b, name);
}

/// A name counts as known exactly if it is registered, in either layer.
pub proof fn registered_names_are_known(
    components: &ComponentRegistry,
    events: &EventRegistry,
    name: Seq<char>,
)
    ensures
        components.known(name) <==> components@.typed.contains_key(name)
            || components@.dynamic.contains_key(name),
        events.known(name) <==> events@.typed.contains_key(name) || events@.dynamic.contains_key(
            name,
        ),
{
}

/// A script runs only if all of its conditions hold: they are asked from the first on, each on
/// the world that the one before it left, and the first that does not hold or fails is the last
/// to be asked. A run that was held back leaves the world as that condition left it.
pub proof fn scripts_run_only_if_all_conditions_hold<
    W,
    C: Fn(usize, W) -> (W, Result<bool, String>),
    B: FnOnce(W) -> (W, Result<(), String>),
>(
    count: usize,
    condition: C,
    body: B,
    world: W,
    after: W,
    done: Result<(), VmError>,
) -> (worlds: Seq<W>)
    requires
        is_gated_run(count, condition, body, world, after, done),
    ensures
        0 < worlds.len() <= count + 1,
        worlds[0] == world,
        forall|i: usize|
            0 <= i < worlds.len() - 1 ==> #[trigger] condition.ensures(
                (i, worlds[i as int]),
                (worlds[i + 1], Ok(true)),
            ),
        worlds.len() == count + 1 && done is Ok ==> body.ensures((worlds.last(),), (after, Ok(()))),
        worlds.len() == count + 1 && done is Err ==> done->Err_0 is ScriptRuntime && body.ensures(
            (worlds.last(),),
            (after, Err(done->Err_0->ScriptRuntime_0)),
        ),
        worlds.len() <= count && done is Ok ==> condition.ensures(
            ((worlds.len() - 1) as usize, worlds.last()),
            (after, Ok(false)),
        ),
        worlds.len() <= count && done is Err ==> done->Err_0 is ScriptRuntime && exists|
            why: String,
        | #[trigger]
            condition.ensures(
                ((worlds.len() - 1) as usize, worlds.last()),
                (after, Err(why)),
            ) && done->Err_0->ScriptRuntime_0@ == "run_if eval: "@ + why@,
{
    let worlds = choose|worlds: Seq<W>|
        {
            &&& #[trigger] held(condition, worlds, worlds.len() - 1)
            &&& 0 < worlds.len() <= count + 1
            &&& worlds[0] == world
            &&& if worlds.len() == count + 1 {
                match done {
                    Ok(()) => body.ensures((worlds.last(),), (after, Ok(()))),
                    Err(VmError::ScriptRuntime(reason)) => body.ensures(
                        (worlds.last(),),
                        (after, Err(reason)),
                    ),
                    _ => false,
                }
            } else {
                let k = (worlds.len() - 1) as usize;
                match done {
                    Ok(()) => condition.ensures((k, worlds.last()), (after, Ok(false))),
                    Err(VmError::ScriptRuntime(reason)) => exists|why: String| #[trigger]
                        condition.ensures((k, worlds.last()), (after, Err(why))) && reason@
                            == "run_if eval: "@ + why@,
                    _ => false,
                }
            }
        };
    worlds
}

/// What a script emits on a typed channel reaches the host: the host is handed an event that has
/// every field of the payload and, where the channel has no default, is the payload itself.
pub proof fn emitted_payloads_reach_the_host<
    W,
    F: FnOnce(W, Value) -> (W, Result<(), EventError>),
>(
    registry: &EventRegistry,
    store: &mut EventStore,
    plugin: &str,
    name: &str,
    payload: Dynamic,
    host: W,
    send: F,
    done: (W, Result<(), ScriptError>),
) -> (event: Value)
    requires
        call_ensures(emit::<W, F>, (registry, store, plugin, name, payload, host, send), done),
        convert::json_of(payload@) is Ok,
        registry@.typed.contains_key(resolved(plugin@, name@, registry)),
        old(store)@.typed.contains_key(resolved(plugin@, name@, registry)),
    ensures
        exists|sent: Result<(), EventError>| #[trigger]
            send.ensures((host, event), (done.0, sent)) && (done.1 is Ok <==> sent is Ok),
        registry@.typed[resolved(plugin@, name@, registry)] is None ==> event@ == convert::json_of(
            payload@,
        )->Ok_0,
        convert::json_of(payload@)->Ok_0 is Object ==> event@ is Object && forall|key: Seq<char>|
            convert::json_of(payload@)->Ok_0->Object_0.contains_key(key)
                ==> event@->Object_0.contains_key(key) && #[trigger] event@->Object_0[key]
                == convert::json_of(payload@)->Ok_0->Object_0[key],
        final(store)@ == old(store)@,
{
    let channel = resolved(plugin@, name@, registry);
    let p = convert::json_of(payload@)->Ok_0;
    let default = registry@.typed[channel];
    let (event, sent) = choose|event: Value, sent: Result<(), EventError>|
        {
            &&& #[trigger] event::is_sent(send, host, event, done.0, sent)
            &&& event@ == event::with_default(p, default)
            &&& done.1 == (match sent {
                Ok(()) => Ok::<(), ScriptError>(()),
                Err(e) => Err(ScriptError::Event(e)),
            })
        };
    assert(send.ensures((host, event), (done.0, sent)));
    event::a_payload_is_never_lost(p, default, Seq::empty());
    assert forall|key: Seq<char>| p is Object && p->Object_0.contains_key(key) implies event@->Object_0.contains_key(
        key,
    ) && #[trigger] event@->Object_0[key] == p->Object_0[key] by {
        event::a_payload_is_never_lost(p, default, key);
    }
    event
}

/// What a script emits on a dynamic channel stands there, behind what was emitted before it, with
/// every field of the payload; the host is left alone.
pub proof fn emitted_payloads_stand_on_their_channel<
    W,
    F: FnOnce(W, Value) -> (W, Result<(), EventError>),
>(
    registry: &EventRegistry,
    store: &mut EventStore,
    plugin: &str,
    name: &str,
    payload: Dynamic,
    host: W,
    send: F,
    done: (W, Result<(), ScriptError>),
    key: Seq<char>,
)
    requires
        call_ensures(emit::<W, F>, (registry, store, plugin, name, payload, host, send), done),
        done.1 is Ok,
        !registry@.typed.contains_key(resolved(plugin@, name@, registry)),
    ensures
        done.0 == host,
        ({
            let channel = resolved(plugin@, name@, registry);
            let before = old(store)@.dynamic[channel];
            let after = final(store)@.dynamic[channel];
            let p = convert::json_of(payload@)->Ok_0;
            &&& convert::json_of(payload@) is Ok
            &&& registry@.dynamic.contains_key(channel)
            &&& after.len() == before.len() + 1
            &&& after.take(before.len() as int) == before
            &&& !(p is Object) ==> after.last() == p
            &&& p is Object && p->Object_0.contains_key(key) ==> after.last() is Object
                && after.last()->Object_0.contains_key(key) && after.last()->Object_0[key]
                == p->Object_0[key]
        }),
{
    let channel = resolved(plugin@, name@, registry);
    let before = old(store)@.dynamic[channel];
    let after = final(store)@.dynamic[channel];
    let p = convert::json_of(payload@)->Ok_0;
    event::a_payload_is_never_lost(p, Some(registry@.dynamic[channel]), key);
    assert(after.take(before.len() as int) =~= before);
}

/// A script reads the events of a dynamic channel as they stand there, in their order, and nothing
/// changes by that.
pub proof fn scripts_read_events_in_order<W, F: FnOnce(W) -> (W, Pulled)>(
    registry: &EventRegistry,
    store: &mut EventStore,
    plugin: &str,
    name: &str,
    host: W,
    pull: F,
    read: (W, Result<Vec<Dynamic>, ScriptError>),
    i: int,
)
    requires
        call_ensures(events::<W, F>, (registry, store, plugin, name, host, pull), read),
        ({
            let channel = resolved(plugin@, name@, registry);
            &&& !registry@.typed.contains_key(channel)
            &&& registry@.dynamic.contains_key(channel)
            &&& !old(store)@.typed.contains_key(channel)
            &&& old(store)@.dynamic.contains_key(channel)
        }),
    ensures
        read.0 == host,
        final(store)@ == old(store)@,
        read.1 is Ok,
        ({
            let there = old(store)@.dynamic[resolved(plugin@, name@, registry)];
            &&& read.1->Ok_0@.len() == there.len()
            &&& 0 <= i < there.len() ==> read.1->Ok_0@[i]@ == convert::script_of(there[i])
        }),
{
    let there = old(store)@.dynamic[resolved(plugin@, name@, registry)];
    let list = read.1->Ok_0@;
    assert(dynamic::items_view(list) == scripts_of(there));
    assert(dynamic::items_view(list).len() == list.len());
    if 0 <= i < there.len() {
        assert(dynamic::items_view(list)[i] == list[i]@);
    }
}

/// A script that writes a number to a coordinate of the position or the rotation of an entity that
/// exists moves that entity; every other write acts on a component, with the value as it is.
pub proof fn writes_to_coordinates_move_the_entity<'a>(
    world: &World,
    registry: &'a ComponentRegistry,
    plugin: &str,
    entity: i64,
    component: &str,
    path: &str,
    value: Dynamic,
    plan: Result<SetPlan<'a>, ScriptError>,
)
    requires
        call_ensures(plan_set, (world, registry, plugin, entity, component, path, value), plan),
        convert::json_of(value@) is Ok,
    ensures
        plan is Ok && plan->Ok_0 is Alias ==> (component@ == "Position"@ || component@
            == "Rotation"@) && (path@ == "x"@ || path@ == "y"@ || path@ == "z"@)
            && convert::json_of(value@)->Ok_0 is Number
            && world_access::world_entities(*world).contains(decoded(entity)),
        plan is Ok && plan->Ok_0 is Alias ==> plan->Ok_0->Alias_0 == alias_of(
            component@,
            path@,
        )->Some_0 && convert::json_of(value@)->Ok_0 == Json::Number(plan->Ok_0->Alias_1),
        (component@ == "Position"@ || component@ == "Rotation"@) && (path@ == "x"@ || path@ == "y"@
            || path@ == "z"@) && convert::json_of(value@)->Ok_0 is Number
            && world_access::world_entities(*world).contains(decoded(entity)) ==> plan is Ok
            && plan->Ok_0 is Alias,
        plan is Ok && plan->Ok_0 is Component ==> plan->Ok_0->Component_1@ == convert::json_of(
            value@,
        )->Ok_0 && plan->Ok_0->Component_0@ == resolved(plugin@, component@, registry),
{
    positions_and_rotations_are_parts_of_the_transform(component@, path@);
}

/// A script that asks for the entities with a component is told only of entities that exist, carry
/// it, and bear the mark of its machine, so that asking whether such an entity carries the
/// component says yes; and of every one of those that a query for all entities walks.
pub proof fn scripts_find_what_their_machine_has(
    world: &mut World,
    registry: &ComponentRegistry,
    plugin: &str,
    component: &str,
    tagged: &Vec<(u64, VmTag)>,
    vm: VmId,
    found: Vec<i64>,
    before: &World,
    entity: u64,
    asked: i64,
    yes: bool,
)
    requires
        call_ensures(query, (world, registry, plugin, component, tagged, vm), found),
        *before == *old(world),
        call_ensures(encode_entity, (entity,), asked),
        call_ensures(has_component, (before, registry, plugin, asked, component), yes),
    ensures
        found@.contains(asked) ==> yes && tagged@.contains((entity, VmTag { vm })),
        yes && tagged@.contains((entity, VmTag { vm })) && world_access::queried_entities(
            *before,
        ).contains(entity) ==> found@.contains(asked),
        yes ==> world_access::world_entities(*before).contains(entity),
{
    let name = resolved(plugin@, component@, registry);
    let inside = world_access::tagged_carriers(*old(world), registry@, name, tagged@, vm);
    world_access::queries_stay_within_the_machine(
        *old(world),
        registry@,
        name,
        tagged@,
        vm,
        entity,
    );
    assert(decoded(asked) == entity);
    if found@.contains(asked) {
        let i = choose|i: int| 0 <= i < found@.len() && found@[i] == asked;
        lists_reach_scripts_in_order(inside, Seq::empty(), i);
        assert(inside[i] == entity);
        assert(inside.contains(entity));
    }
    if inside.contains(entity) {
        let i = choose|i: int| 0 <= i < inside.len() && inside[i] == entity;
        lists_reach_scripts_in_order(inside, Seq::empty(), i);
        assert(found@[i] == asked);
    }
}

/// Scripts see parents and children as the host does: the number that a script gets for a parent
/// stands for the parent, and the numbers of the children stand for the children, in their order.
pub proof fn scripts_see_the_hierarchy(
    world: &World,
    entity: u64,
    asked: i64,
    parent: Dynamic,
    children: Vec<i64>,
    i: int,
)
    requires
        call_ensures(encode_entity, (entity,), asked),
        call_ensures(parent_of, (world, asked), parent),
        call_ensures(children_of, (world, asked), children),
    ensures
        ({
            let parents = world_access::world_parents(*world);
            &&& parents.contains_key(entity) ==> parent@ is Int && decoded(parent@->Int_0)
                == parents[entity]
            &&& !parents.contains_key(entity) ==> parent@ is Unit
        }),
        ({
            let below = world_access::world_children(*world);
            &&& below.contains_key(entity) ==> children@.len() == below[entity].len()
            &&& below.contains_key(entity) && 0 <= i < children@.len() ==> decoded(children@[i])
                == below[entity][i]
            &&& !below.contains_key(entity) ==> children@.len() == 0
        }),
{
    assert(decoded(asked) == entity);
    let below = world_access::world_children(*world);
    if below.contains_key(entity) {
        lists_reach_scripts_in_order(below[entity], Seq::empty(), i);
    }
}

/// Numbers that scripts are given for entities lead back to them, and every number stands for an
/// entity that has this number.
pub proof fn entities_are_told_apart_by_number(
    entity: u64,
    value: i64,
    back: u64,
    other: i64,
    decoded_other: u64,
    again: i64,
)
    requires
        call_ensures(encode_entity, (entity,), value),
        call_ensures(decode_entity, (value,), back),
        call_ensures(decode_entity, (other,), decoded_other),
        call_ensures(encode_entity, (decoded_other,), again),
    ensures
        back == entity,
        again == other,
{
}

/// What a script reads of a component at a path is what the host holds there: the value that
/// stands at the path in the component, or in its default, as a script value.
pub proof fn scripts_read_what_the_host_holds<F: FnOnce(&str) -> Stored>(
    world: &World,
    registry: &ComponentRegistry,
    plugin: &str,
    entity: i64,
    component: &str,
    path: &str,
    fetch: F,
    got: Result<Got, ScriptError>,
    held: Value,
    value: Dynamic,
)
    requires
        call_ensures(
            get::<F>,
            (world, registry, plugin, entity, component, path, fetch),
            got,
        ),
        component@ != "Position"@,
        component@ != "Rotation"@,
        path@.len() == 0,
        world_access::world_entities(*world).contains(decoded(entity)),
        registry@.dynamic.contains_key(resolved(plugin@, component@, registry)),
        !registry@.typed.contains_key(resolved(plugin@, component@, registry)),
        forall|name: &str, stored: Stored| #[trigger]
            fetch.ensures((name,), stored) ==> stored.dynamic == Some(held),
        call_ensures(convert::to_dynamic, (&held,), value),
    ensures
        got is Ok,
        got->Ok_0 is Value,
        got->Ok_0->Value_0@ == value@,
{
    positions_and_rotations_are_parts_of_the_transform(component@, path@);
    let (name, stored, found) = choose|
        name: &str,
        stored: Stored,
        found: Result<Value, WorldAccessError>,
    |
        {
            &&& #[trigger] fetch.ensures((name,), stored)
            &&& name@ == resolved(plugin@, component@, registry)
            &&& #[trigger] world_access::is_read(
                *world,
                registry@,
                decoded(entity),
                name@,
                path@,
                stored,
                found,
            )
            &&& match found {
                Ok(v) => got is Ok && got->Ok_0 is Value && got->Ok_0->Value_0@
                    == convert::script_of(v@),
                Err(e) => got == Err::<Got, ScriptError>(ScriptError::Access(e)),
            }
        };
    world_access::reads_give_the_value_or_the_default(
        *world,
        registry@,
        decoded(entity),
        name@,
        path@,
        stored,
        found,
        held@,
    );
}

} // verus!
