//! Putting a virtual machine together from its plugins: what they declare is registered, and the
//! entities they describe get their components.
use vstd::prelude::*;
use vstd::string::*;

use crate::component::{ComponentKind, ComponentRegistry, Components, DynInfo};
use crate::component::RegistryError;
use crate::config::{EntityConfig, WorldConfig};
use crate::dict;
use crate::error::VmError;
use crate::event::{Channels, EventRegistry};
use crate::paths;
use crate::plugin_loader::{LoadedPlugin, ROOT_PLUGIN};
use crate::text;
use crate::value;
use crate::value::{Json, Value};
use crate::world_access::path;
use crate::world_access::path::{PathFault, ValuePathExt};
use crate::world_access::WorldAccessError;

verus! {

/// The name under which a plugin registers something: `plugin::short`, but the short name itself
/// in the top-level world, and a name with `::` in it as it stands.
pub open spec fn qualified_name(plugin: Seq<char>, short: Seq<char>) -> Seq<char> {
    if plugin == ROOT_PLUGIN@ || text::has_double_colon(short) {
        short
    } else {
        plugin + "::"@ + short
    }
}

/// The name under which a plugin registers something.
pub fn qualify_name(plugin: &str, short: &str) -> (name: String)
    ensures
        name@ == qualified_name(plugin@, short@),
{
    if text::same_text(plugin, ROOT_PLUGIN) || text::is_qualified(short) {
        short.to_owned()
    } else {
        text::in_between(plugin, "::", short)
    }
}

/// The events that a plugin declares: the full name and the default of each.
pub open spec fn declared_events(plugin: LoadedPlugin) -> Seq<(Seq<char>, Json)> {
    Seq::new(
        plugin.config.events@.len(),
        |i: int|
            (
                qualified_name(plugin.name@, plugin.config.events@[i].name@),
                plugin.config.events@[i].default@,
            ),
    )
}

/// The channels there are after the first `n` declarations, and the declaration whose name was
/// taken already, if one was: nothing is registered from there on.
pub open spec fn with_events(channels: Channels, decls: Seq<(Seq<char>, Json)>, n: nat) -> (
    Channels,
    Option<int>,
)
    decreases n,
{
    if n == 0 {
        (channels, None)
    } else {
        let (so_far, clash) = with_events(channels, decls, (n - 1) as nat);
        if clash is Some {
            (so_far, clash)
        } else if so_far.taken(decls[n - 1].0) {
            (so_far, Some(n - 1))
        } else {
            (
                Channels {
                    dynamic: so_far.dynamic.insert(decls[n - 1].0, decls[n - 1].1),
                    ..so_far
                },
                None,
            )
        }
    }
}

proof fn first_clash_counts(
    channels: Channels,
    decls: Seq<(Seq<char>, Json)>,
    n: nat,
    more: nat,
)
    requires
        n <= more,
        with_events(channels, decls, n).1 is Some,
    ensures
        with_events(channels, decls, more) == with_events(channels, decls, n),
    decreases more,
{
    if n < more {
        first_clash_counts(channels, decls, n, (more - 1) as nat);
    }
}

/// Registers the events that a plugin declares, each under its full name. A name that is taken
/// already is an error, and ends the registration.
pub fn register_plugin_events(registry: &mut EventRegistry, plugin: &LoadedPlugin) -> (done: Result<
    (),
    VmError,
>)
    ensures
        ({
            let decls = declared_events(*plugin);
            let (after, clash) = with_events(old(registry)@, decls, decls.len());
            &&& final(registry)@ == after
            &&& match clash {
                None => done is Ok,
                Some(i) => {
                    &&& done is Err
                    &&& done->Err_0 is Event
                    &&& done->Err_0->Event_0 is KindMismatch
                    &&& done->Err_0->Event_0->KindMismatch_name@ == decls[i].0
                },
            }
        }),
{
    let ghost start = registry@;
    let ghost decls = declared_events(*plugin);
    let mut i: usize = 0;
    while i < plugin.config.events.len()
        invariant
            i <= plugin.config.events.len(),
            start == old(registry)@,
            decls == declared_events(*plugin),
            (registry@, None::<int>) == with_events(start, decls, i as nat),
        decreases plugin.config.events.len() - i,
    {
        let decl = &plugin.config.events[i];
        let name = qualify_name(plugin.name.as_str(), decl.name.as_str());
        let ghost before = registry@;
        assert(decls[i as int] == (name@, decl.default@));
        match registry.register_dynamic(name.as_str(), decl.default.clone()) {
            Ok(()) => {
                assert(registry@ =~= with_events(start, decls, (i + 1) as nat).0);
            },
            Err(e) => {
                proof {
                    first_clash_counts(start, decls, (i + 1) as nat, decls.len());
                }
                return Err(VmError::Event(e));
            },
        }
        i += 1;
    }
    Ok(())
}

/// The components that a plugin declares: the full name and the default of each.
pub open spec fn declared_components(plugin: LoadedPlugin) -> Seq<(Seq<char>, Json)> {
    Seq::new(
        plugin.config.components@.len(),
        |i: int|
            (
                qualified_name(plugin.name@, plugin.config.components@[i].name@),
                plugin.config.components@[i].default@,
            ),
    )
}

/// The components there are after the first `n` declarations, the host giving the ids, and the
/// declaration that has the name of a typed component, if one has: nothing is registered from
/// there on.
pub open spec fn with_components(
    components: Components,
    decls: Seq<(Seq<char>, Json)>,
    ids: Seq<usize>,
    n: nat,
) -> (Components, Option<int>)
    decreases n,
{
    if n == 0 {
        (components, None)
    } else {
        let (so_far, clash) = with_components(components, decls, ids, (n - 1) as nat);
        if clash is Some {
            (so_far, clash)
        } else if so_far.typed.contains_key(decls[n - 1].0) {
            (so_far, Some(n - 1))
        } else {
            (
                Components {
                    dynamic: so_far.dynamic.insert(
                        decls[n - 1].0,
                        DynInfo { id: ids[n - 1], default: decls[n - 1].1 },
                    ),
                    ..so_far
                },
                None,
            )
        }
    }
}

proof fn first_shadow_counts(
    components: Components,
    decls: Seq<(Seq<char>, Json)>,
    ids: Seq<usize>,
    n: nat,
    more: nat,
)
    requires
        n <= more,
        with_components(components, decls, ids, n).1 is Some,
    ensures
        with_components(components, decls, ids, more) == with_components(
            components,
            decls,
            ids,
            n,
        ),
    decreases more,
{
    if n < more {
        first_shadow_counts(components, decls, ids, n, (more - 1) as nat);
    }
}

proof fn later_ids_do_not_matter(
    components: Components,
    decls: Seq<(Seq<char>, Json)>,
    ids: Seq<usize>,
    id: usize,
    n: nat,
)
    requires
        n <= ids.len(),
    ensures
        with_components(components, decls, ids.push(id), n) == with_components(
            components,
            decls,
            ids,
            n,
        ),
    decreases n,
{
    if n > 0 {
        later_ids_do_not_matter(components, decls, ids, id, (n - 1) as nat);
    }
}

/// Whether the host, asked for a component of this name, gave it this id, and went from one world
/// to the other.
pub open spec fn gave_id<W, F: Fn(&str, W) -> (W, usize)>(
    host: F,
    name: Seq<char>,
    world: W,
    after: W,
    id: usize,
) -> bool {
    exists|n: &str| n@ == name && #[trigger] host.ensures((n, world), (after, id))
}

/// Whether declaring components, the host giving these ids, leads from one registry to the other
/// and gives `done`. The host is asked once for each component, in order, and goes through these
/// worlds.
pub open spec fn components_declared<W, F: Fn(&str, W) -> (W, usize)>(
    before: Components,
    decls: Seq<(Seq<char>, Json)>,
    host: F,
    worlds: Seq<W>,
    ids: Seq<usize>,
    after: Components,
    done: Result<(), VmError>,
) -> bool {
    let (all, clash) = with_components(before, decls, ids, decls.len());
    &&& after == all
    &&& worlds.len() == ids.len() + 1
    &&& match clash {
        None => done is Ok && ids.len() == decls.len(),
        Some(i) => {
            &&& ids.len() == i
            &&& done is Err
            &&& done->Err_0 is Registry
            &&& done->Err_0->Registry_0 is DynamicShadowsTyped
            &&& done->Err_0->Registry_0->DynamicShadowsTyped_name@ == decls[i].0
        },
    }
    &&& ids_were_given(host, decls, worlds, ids)
}

/// Whether the host gave these ids to the first components, one after the other.
pub open spec fn ids_were_given<W, F: Fn(&str, W) -> (W, usize)>(
    host: F,
    decls: Seq<(Seq<char>, Json)>,
    worlds: Seq<W>,
    ids: Seq<usize>,
) -> bool {
    forall|i: int|
        0 <= i < ids.len() ==> gave_id(
            host,
            decls[i].0,
            worlds[i],
            worlds[i + 1],
            #[trigger] ids[i],
        )
}

/// Registers the components that a plugin declares, each under its full name. `host` gives the id
/// of a new component. The name of a typed component is an error, and ends the registration; the
/// host is not asked for an id then.
pub fn register_plugin_components<W, F: Fn(&str, W) -> (W, usize)>(
    registry: &mut ComponentRegistry,
    plugin: &LoadedPlugin,
    world: W,
    host: &F,
) -> (registered: (W, Result<(), VmError>))
    requires
        forall|name: &str, w: W| host.requires((name, w)),
    ensures
        exists|worlds: Seq<W>, ids: Seq<usize>|
            {
                &&& #[trigger] components_declared(
                    old(registry)@,
                    declared_components(*plugin),
                    *host,
                    worlds,
                    ids,
                    final(registry)@,
                    registered.1,
                )
                &&& worlds[0] == world
                &&& worlds.last() == registered.0
            },
{
    let ghost start = registry@;
    let ghost mut worlds: Seq<W> = seq![world];
    let mut now = world;
    let ghost decls = declared_components(*plugin);
    let ghost mut ids: Seq<usize> = Seq::empty();
    let mut i: usize = 0;
    while i < plugin.config.components.len()
        invariant
            i <= plugin.config.components.len(),
            start == old(registry)@,
            decls == declared_components(*plugin),
            ids.len() == i,
            forall|name: &str, w: W| host.requires((name, w)),
            worlds.len() == i + 1,
            worlds[0] == world,
            worlds.last() == now,
            (registry@, None::<int>) == with_components(start, decls, ids, i as nat),
            ids_were_given(*host, decls, worlds, ids),
        decreases plugin.config.components.len() - i,
    {
        let decl = &plugin.config.components[i];
        let name = qualify_name(plugin.name.as_str(), decl.name.as_str());
        let short: &str = name.as_str();
        assert(decls[i as int] == (name@, decl.default@));
        if registry.typed(short).is_some() {
            proof {
                first_shadow_counts(start, decls, ids, (i + 1) as nat, decls.len());
            }
            let done: Result<(), VmError> = Err(
                VmError::Registry(RegistryError::DynamicShadowsTyped { name: name.clone() }),
            );
            let registered = (now, done);
            assert(components_declared(
                start,
                decls,
                *host,
                worlds,
                ids,
                registry@,
                registered.1,
            ));
            return registered;
        }
        let (after, id) = host(short, now);
        proof {
            later_ids_do_not_matter(start, decls, ids, id, i as nat);
            assert(gave_id(*host, decls[i as int].0, worlds[i as int], after, id));
            let before = ids;
            let worlds_before = worlds;
            ids = ids.push(id);
            worlds = worlds.push(after);
            assert forall|j: int| 0 <= j < ids.len() implies gave_id(
                *host,
                decls[j].0,
                worlds[j],
                worlds[j + 1],
                #[trigger] ids[j],
            ) by {
                if j < before.len() {
                    assert(ids[j] == before[j]);
                    assert(worlds[j] == worlds_before[j]);
                    assert(worlds[j + 1] == worlds_before[j + 1]);
                }
            }
        }
        now = after;
        match registry.register_dynamic(short, id, decl.default.clone()) {
            Ok(()) => {
                assert(registry@ =~= with_components(start, decls, ids, (i + 1) as nat).0);
            },
            Err(e) => {
                return (now, Err(VmError::Registry(e)));
            },
        }
        i += 1;
    }
    let registered: (W, Result<(), VmError>) = (now, Ok(()));
    assert(components_declared(start, decls, *host, worlds, ids, registry@, registered.1));
    registered
}

impl Components {
    /// Whether a component of this name is registered.
    pub open spec fn has_name(self, name: Seq<char>) -> bool {
        self.typed.contains_key(name) || self.dynamic.contains_key(name)
    }
}

/// The component that an entity of `plugin` names: as written if it has `::` in it or is
/// registered like that, else the one of that name in the plugin. Nothing if there is neither.
pub open spec fn component_ref(components: Components, plugin: Seq<char>, name: Seq<char>) -> Option<
    Seq<char>,
> {
    if text::has_double_colon(name) || components.has_name(name) {
        Some(name)
    } else if components.has_name(plugin + "::"@ + name) {
        Some(plugin + "::"@ + name)
    } else {
        None
    }
}

/// The component that an entity of `plugin` names.
pub fn qualify_component_ref(registry: &ComponentRegistry, plugin: &str, name: &str) -> (found:
    Result<String, VmError>)
    ensures
        match component_ref(registry@, plugin@, name@) {
            Some(full) => found is Ok && found->Ok_0@ == full,
            None => found is Err && found->Err_0 is UnknownComponent
                && found->Err_0->UnknownComponent_0@ == name@,
        },
{
    if text::is_qualified(name) {
        return Ok(name.to_owned());
    }
    if registry.resolve(name).is_some() {
        return Ok(name.to_owned());
    }
    let full = text::in_between(plugin, "::", name);
    if registry.resolve(full.as_str()).is_some() {
        return Ok(full);
    }
    Err(VmError::UnknownComponent(name.to_owned()))
}

/// `root` with `v` laid over what stands at the path `field`: put together at every depth with
/// what is there, or put there if nothing is.
pub open spec fn laid_over(root: Json, field: Seq<char>, v: Json) -> Result<Json, PathFault> {
    let segments = path::path_segments(field);
    path::set_at(
        root,
        segments,
        match path::get_at(root, segments) {
            Ok(there) => value::deep_merged(there, v),
            Err(_) => v,
        },
    )
}

/// `root` with the first `n` of the named fields laid over it, and the field that does not fit, if
/// there is one: nothing is written from there on.
pub open spec fn with_fields(
    root: Json,
    fields: Map<Seq<char>, Json>,
    names: Seq<Seq<char>>,
    n: nat,
) -> (Json, Option<(Seq<char>, PathFault)>)
    decreases n,
{
    if n == 0 {
        (root, None)
    } else {
        let (so_far, failed) = with_fields(root, fields, names, (n - 1) as nat);
        if failed is Some {
            (so_far, failed)
        } else {
            match laid_over(so_far, names[n - 1], fields[names[n - 1]]) {
                Ok(v) => (v, None),
                Err(fault) => (so_far, Some((names[n - 1], fault))),
            }
        }
    }
}

/// The value of a dynamic component that an entity starts with, given the default of the component
/// and what the entity says of it. Each field of the latter is a path, and fields are taken in the
/// order of their names. Anything but two objects is not put together: the entity decides.
pub open spec fn dynamic_init(default: Json, overrides: Json) -> (
    Json,
    Option<(Seq<char>, PathFault)>,
) {
    match (default, overrides) {
        (Json::Object(_), Json::Object(fields)) => {
            let names = dict::ascending_keys(fields);
            with_fields(default, fields, names, names.len())
        },
        _ => (overrides, None),
    }
}

proof fn first_failure_counts(
    root: Json,
    fields: Map<Seq<char>, Json>,
    names: Seq<Seq<char>>,
    n: nat,
    more: nat,
)
    requires
        n <= more,
        with_fields(root, fields, names, n).1 is Some,
    ensures
        with_fields(root, fields, names, more) == with_fields(root, fields, names, n),
    decreases more,
{
    if n < more {
        first_failure_counts(root, fields, names, n, (more - 1) as nat);
    }
}

/// Whether the error is that this field of this component does not fit.
pub open spec fn is_field_failure(
    e: VmError,
    component: Seq<char>,
    failure: (Seq<char>, PathFault),
) -> bool {
    &&& e is InitDynamicField
    &&& e->InitDynamicField_component@ == component
    &&& e->InitDynamicField_field@ == failure.0
    &&& e->InitDynamicField_source.is_path(failure.1)
}

/// The value of a dynamic component that an entity starts with, and what went wrong, if something
/// did: the value then has the fields that came before.
pub fn init_dynamic_component(component: &str, default: Value, overrides: &Value) -> (start: (
    Value,
    Option<VmError>,
))
    ensures
        ({
            let (v, failed) = dynamic_init(default@, overrides@);
            &&& start.0@ == v
            &&& match failed {
                None => start.1 is None,
                Some(failure) => start.1 is Some && is_field_failure(
                    start.1->Some_0,
                    component@,
                    failure,
                ),
            }
        }),
{
    match (&default, overrides) {
        (Value::Object(_), Value::Object(fields)) => {},
        _ => {
            return (overrides.clone(), None);
        },
    }
    let ghost base = default@;
    let mut root = default;
    if let Value::Object(fields) = overrides {
        let ghost all = value::dict_view(*fields);
        let ghost names = dict::ascending_keys(all);
        let count: usize = fields.len();
        proof {
            value::keys_of_view(*fields);
        }
        let mut i: usize = 0;
        while i < count
            invariant
                i <= count == fields.spec_keys().len(),
                all == value::dict_view(*fields),
                names == fields.spec_keys(),
                overrides@ == Json::Object(all),
                base == default@,
                dynamic_init(base, overrides@) == with_fields(base, all, names, names.len()),
                (root@, None::<(Seq<char>, PathFault)>) == with_fields(
                    base,
                    all,
                    names,
                    i as nat,
                ),
            decreases count - i,
        {
            let (field, v) = fields.entry_at(i);
            assert(all[field@] == v@);
            let new = match root.path_get(field.as_str()) {
                Ok(there) => value::deep_merge(there.clone(), v.clone()),
                Err(_) => v.clone(),
            };
            match root.path_set(field.as_str(), new) {
                Ok(()) => {},
                Err(e) => {
                    proof {
                        first_failure_counts(base, all, names, (i + 1) as nat, names.len());
                    }
                    return (
                        root,
                        Some(
                            VmError::InitDynamicField {
                                component: component.to_owned(),
                                field: field.clone(),
                                source: WorldAccessError::Path(e),
                            },
                        ),
                    );
                },
            }
            i += 1;
        }
    }
    (root, None)
}

/// Whether a name is a path of one step.
pub open spec fn is_plain(name: Seq<char>) -> bool {
    name.len() > 0 && !name.contains('.')
}

proof fn plain_is_one_piece(name: Seq<char>)
    requires
        !name.contains('.'),
    ensures
        text::split_on(name, '.') == seq![name],
    decreases name.len(),
{
    if name.len() == 0 {
        assert(name =~= Seq::<char>::empty());
    } else {
        let shorter = name.drop_last();
        assert forall|i: int| 0 <= i < shorter.len() implies shorter[i] != '.' by {
            assert(name[i] == shorter[i]);
        }
        assert(name[name.len() - 1] != '.');
        plain_is_one_piece(shorter);
        let pieces = text::split_on(shorter, '.');
        assert(pieces.drop_last() =~= Seq::<Seq<char>>::empty());
        assert(shorter.push(name.last()) =~= name);
        assert(text::split_on(name, '.') =~= seq![name]);
    }
}

proof fn plain_is_one_segment(name: Seq<char>)
    requires
        is_plain(name),
    ensures
        path::path_segments(name) == seq![name],
{
    plain_is_one_piece(name);
    let pieces = seq![name];
    assert(pieces.drop_last() =~= Seq::<Seq<char>>::empty());
    assert(text::non_empty(pieces.drop_last()) =~= Seq::<Seq<char>>::empty());
    assert(text::non_empty(pieces) =~= seq![name]);
}

proof fn laying_a_plain_field(root: Map<Seq<char>, Json>, name: Seq<char>, v: Json)
    requires
        is_plain(name),
    ensures
        laid_over(Json::Object(root), name, v) == Ok::<Json, PathFault>(
            Json::Object(
                root.insert(
                    name,
                    if root.contains_key(name) {
                        value::deep_merged(root[name], v)
                    } else {
                        v
                    },
                ),
            ),
        ),
{
    plain_is_one_segment(name);
    let segments = seq![name];
    let rest = segments.drop_first();
    assert(rest =~= Seq::<Seq<char>>::empty());
    let whole = Json::Object(root);
    let new = match path::get_at(whole, segments) {
        Ok(there) => value::deep_merged(there, v),
        Err(_) => v,
    };
    let below = if root.contains_key(name) {
        root[name]
    } else {
        Json::Object(Map::empty())
    };
    assert(segments[0] == name);
    if root.contains_key(name) {
        assert(path::get_at(root[name], rest) == Ok::<Json, PathFault>(root[name]));
        assert(path::child(whole, name) == Ok::<Json, PathFault>(root[name]));
    }
    assert(path::set_at(below, rest, new) == Ok::<Json, PathFault>(new));
    assert(path::set_at(whole, segments, new) == Ok::<Json, PathFault>(
        Json::Object(root.insert(name, new)),
    ));
}

spec fn merged_so_far(
    default: Map<Seq<char>, Json>,
    fields: Map<Seq<char>, Json>,
    done: Seq<Seq<char>>,
) -> Map<Seq<char>, Json> {
    Map::new(
        |k: Seq<char>| default.contains_key(k) || done.contains(k),
        |k: Seq<char>|
            if done.contains(k) {
                if default.contains_key(k) {
                    value::deep_merged(default[k], fields[k])
                } else {
                    fields[k]
                }
            } else {
                default[k]
            },
    )
}

proof fn plain_fields_so_far(
    default: Map<Seq<char>, Json>,
    fields: Map<Seq<char>, Json>,
    names: Seq<Seq<char>>,
    n: nat,
)
    requires
        n <= names.len(),
        names.no_duplicates(),
        forall|i: int| 0 <= i < names.len() ==> is_plain(#[trigger] names[i]),
    ensures
        with_fields(Json::Object(default), fields, names, n) == (
            Json::Object(merged_so_far(default, fields, names.take(n as int))),
            None::<(Seq<char>, PathFault)>,
        ),
    decreases n,
{
    let after = merged_so_far(default, fields, names.take(n as int));
    if n == 0 {
        assert(after =~= default);
    } else {
        let name = names[n - 1];
        let done = names.take(n - 1);
        let before = merged_so_far(default, fields, done);
        plain_fields_so_far(default, fields, names, (n - 1) as nat);
        text::take_one_more(names, n - 1);
        assert(!done.contains(name));
        assert(before.contains_key(name) == default.contains_key(name));
        laying_a_plain_field(before, name, fields[name]);
        assert(after =~= before.insert(
            name,
            if before.contains_key(name) {
                value::deep_merged(before[name], fields[name])
            } else {
                fields[name]
            },
        )) by {
            assert(names.take(n - 1 + 1) == names.take(n as int));
        }
    }
}

/// Where the fields that an entity gives have plain names, the component starts with its default
/// and the fields put together at every depth.
pub proof fn plain_fields_are_merged_at_every_depth(
    default: Map<Seq<char>, Json>,
    fields: Map<Seq<char>, Json>,
)
    requires
        fields.dom().finite(),
        forall|name: Seq<char>| #[trigger] fields.contains_key(name) ==> is_plain(name),
    ensures
        dynamic_init(Json::Object(default), Json::Object(fields)) == (
            value::deep_merged(Json::Object(default), Json::Object(fields)),
            None::<(Seq<char>, PathFault)>,
        ),
{
    let names = dict::ascending_keys(fields);
    dict::ascending_keys_list_the_domain(fields);
    assert forall|i: int| 0 <= i < names.len() implies is_plain(#[trigger] names[i]) by {
        assert(names.contains(names[i]));
        assert(fields.contains_key(names[i]));
    }
    assert forall|i: int, j: int| 0 <= i < names.len() && 0 <= j < names.len() && i
        != j implies names[i] != names[j] by {
        text::precedes_irreflexive(names[i]);
    }
    plain_fields_so_far(default, fields, names, names.len());
    assert(names.take(names.len() as int) =~= names);
    let all = value::deep_merged(Json::Object(default), Json::Object(fields))->Object_0;
    assert(merged_so_far(default, fields, names) =~= all);
}

/// A component that a new entity is to get.
pub enum InitStep {
    /// A typed component, with what is laid over its default. What it requires comes along.
    Typed { name: String, overrides: Value },
    /// A dynamic component, by its name and id, with this value.
    Dynamic { name: String, id: usize, value: Value },
}

/// The content of an [`InitStep`].
pub enum InitInfo {
    Typed { name: Seq<char>, overrides: Json },
    Dynamic { name: Seq<char>, id: usize, value: Json },
}

impl View for InitStep {
    type V = InitInfo;

    open spec fn view(&self) -> InitInfo {
        match self {
            InitStep::Typed { name, overrides } => InitInfo::Typed {
                name: name@,
                overrides: overrides@,
            },
            InitStep::Dynamic { name, id, value } => InitInfo::Dynamic {
                name: name@,
                id: *id,
                value: value@,
            },
        }
    }
}

/// Why an entity could not get all of its components.
pub enum InitFault {
    /// No component has this name.
    Unknown(Seq<char>),
    /// This field of this component does not fit.
    Field(Seq<char>, (Seq<char>, PathFault)),
}

/// Whether the error is this fault.
pub open spec fn is_init_fault(e: VmError, fault: InitFault) -> bool {
    match fault {
        InitFault::Unknown(name) => e is UnknownComponent && e->UnknownComponent_0@ == name,
        InitFault::Field(component, failure) => is_field_failure(e, component, failure),
    }
}

/// What an entity of `plugin` gets for one component it names, and what is wrong with it.
pub open spec fn component_step(
    components: Components,
    plugin: Seq<char>,
    name: Seq<char>,
    overrides: Json,
) -> (Option<InitInfo>, Option<InitFault>) {
    match component_ref(components, plugin, name) {
        None => (None, Some(InitFault::Unknown(name))),
        Some(full) => if components.typed.contains_key(full) {
            (Some(InitInfo::Typed { name: full, overrides }), None)
        } else if components.dynamic.contains_key(full) {
            let (value, failed) = dynamic_init(components.dynamic[full].default, overrides);
            (
                Some(InitInfo::Dynamic { name: full, id: components.dynamic[full].id, value }),
                match failed {
                    None => None,
                    Some(failure) => Some(InitFault::Field(full, failure)),
                },
            )
        } else {
            (None, Some(InitFault::Unknown(full)))
        },
    }
}

/// What an entity of `plugin` gets for the first `n` components it names, and what is wrong, if
/// something is: it gets nothing from there on.
pub open spec fn entity_steps(
    components: Components,
    plugin: Seq<char>,
    parts: Map<Seq<char>, Json>,
    names: Seq<Seq<char>>,
    n: nat,
) -> (Seq<InitInfo>, Option<InitFault>)
    decreases n,
{
    if n == 0 {
        (Seq::empty(), None)
    } else {
        let (steps, fault) = entity_steps(components, plugin, parts, names, (n - 1) as nat);
        if fault is Some {
            (steps, fault)
        } else {
            let (step, wrong) = component_step(
                components,
                plugin,
                names[n - 1],
                parts[names[n - 1]],
            );
            match step {
                Some(info) => (steps.push(info), wrong),
                None => (steps, wrong),
            }
        }
    }
}

proof fn first_fault_counts(
    components: Components,
    plugin: Seq<char>,
    parts: Map<Seq<char>, Json>,
    names: Seq<Seq<char>>,
    n: nat,
    more: nat,
)
    requires
        n <= more,
        entity_steps(components, plugin, parts, names, n).1 is Some,
    ensures
        entity_steps(components, plugin, parts, names, more) == entity_steps(
            components,
            plugin,
            parts,
            names,
            n,
        ),
    decreases more,
{
    if n < more {
        first_fault_counts(components, plugin, parts, names, n, (more - 1) as nat);
    }
}

/// The components that a new entity is to get, in order, and what is wrong after that.
pub struct EntityPlan {
    pub steps: Vec<InitStep>,
    pub failure: Option<VmError>,
}

pub open spec fn step_infos(steps: Seq<InitStep>) -> Seq<InitInfo> {
    steps.map_values(|s: InitStep| s@)
}

fn plan_component(
    registry: &ComponentRegistry,
    plugin: &str,
    name: &str,
    overrides: &Value,
) -> (planned: (Option<InitStep>, Option<VmError>))
    ensures
        ({
            let (step, wrong) = component_step(registry@, plugin@, name@, overrides@);
            &&& match step {
                Some(info) => planned.0 is Some && planned.0->Some_0@ == info,
                None => planned.0 is None,
            }
            &&& match wrong {
                Some(fault) => planned.1 is Some && is_init_fault(planned.1->Some_0, fault),
                None => planned.1 is None,
            }
        }),
{
    let full = match qualify_component_ref(registry, plugin, name) {
        Ok(full) => full,
        Err(e) => {
            return (None, Some(e));
        },
    };
    match registry.resolve(full.as_str()) {
        Some(ComponentKind::Typed(_)) => (
            Some(InitStep::Typed { name: full, overrides: overrides.clone() }),
            None,
        ),
        Some(ComponentKind::Dynamic(dynamic)) => {
            let (value, failure) = init_dynamic_component(
                full.as_str(),
                dynamic.default.clone(),
                overrides,
            );
            (Some(InitStep::Dynamic { name: full, id: dynamic.id, value }), failure)
        },
        None => (None, Some(VmError::UnknownComponent(full))),
    }
}

/// The components that an entity of `plugin` is to get, taken in the order of their names.
pub fn plan_entity(registry: &ComponentRegistry, plugin: &str, entity: &EntityConfig) -> (plan:
    EntityPlan)
    ensures
        ({
            let parts = value::dict_view(entity.components);
            let names = dict::ascending_keys(parts);
            let (steps, fault) = entity_steps(registry@, plugin@, parts, names, names.len());
            &&& step_infos(plan.steps@) == steps
            &&& match fault {
                Some(f) => plan.failure is Some && is_init_fault(plan.failure->Some_0, f),
                None => plan.failure is None,
            }
        }),
{
    let ghost parts = value::dict_view(entity.components);
    let ghost names = dict::ascending_keys(parts);
    let count: usize = entity.components.len();
    proof {
        value::keys_of_view(entity.components);
    }
    let mut steps: Vec<InitStep> = Vec::new();
    assert(step_infos(steps@) =~= Seq::<InitInfo>::empty());
    let mut i: usize = 0;
    while i < count
        invariant
            i <= count == entity.components.spec_keys().len(),
            parts == value::dict_view(entity.components),
            names == entity.components.spec_keys(),
            names == dict::ascending_keys(parts),
            (step_infos(steps@), None::<InitFault>) == entity_steps(
                registry@,
                plugin@,
                parts,
                names,
                i as nat,
            ),
        decreases count - i,
    {
        let (name, overrides) = entity.components.entry_at(i);
        assert(parts[name@] == overrides@);
        let (step, failure) = plan_component(registry, plugin, name.as_str(), overrides);
        let ghost before = steps@;
        if let Some(s) = step {
            steps.push(s);
            assert(step_infos(steps@) =~= step_infos(before).push(s@));
        }
        if failure.is_some() {
            proof {
                first_fault_counts(registry@, plugin@, parts, names, (i + 1) as nat, names.len());
            }
            return EntityPlan { steps, failure };
        }
        i += 1;
    }
    EntityPlan { steps, failure: None }
}

/// The seed that a world is given: that of its top-level file.
pub open spec fn seed_of(plugins: Seq<LoadedPlugin>) -> Option<u64>
    decreases plugins.len(),
{
    if plugins.len() == 0 {
        None
    } else if plugins[0].name@ == ROOT_PLUGIN@ {
        plugins[0].config.seed
    } else {
        seed_of(plugins.drop_first())
    }
}

/// The seed that a world is given: that of its top-level file.
pub fn root_seed(plugins: &Vec<LoadedPlugin>) -> (seed: Option<u64>)
    ensures
        seed == seed_of(plugins@),
{
    let mut i: usize = 0;
    assert(plugins@.skip(0) =~= plugins@);
    while i < plugins.len()
        invariant
            i <= plugins.len(),
            seed_of(plugins@) == seed_of(plugins@.skip(i as int)),
        decreases plugins.len() - i,
    {
        assert(plugins@.skip(i as int).drop_first() =~= plugins@.skip(i + 1));
        if text::same_text(plugins[i].name.as_str(), ROOT_PLUGIN) {
            return plugins[i].config.seed;
        }
        i += 1;
    }
    None
}

/// The file that a world is loaded from: `world.ron` in a directory, else the file itself.
pub fn resolve_root_path(input: &str, is_dir: bool) -> (path: String)
    ensures
        path@ == (if is_dir {
            paths::joined_path(input@, "world.ron"@)
        } else {
            input@
        }),
{
    if is_dir {
        paths::join(input, "world.ron")
    } else {
        input.to_owned()
    }
}

/// The plugins of a world whose configuration is not in a file: the top-level world alone. It
/// cannot name modules, which would be looked for next to the file.
pub fn inline_plugins(config: WorldConfig, base_dir: &str) -> (plugins: Result<
    Vec<LoadedPlugin>,
    VmError,
>)
    ensures
        if config.modules@.len() == 0 {
            &&& plugins is Ok
            &&& plugins->Ok_0@.len() == 1
            &&& plugins->Ok_0@[0].name@ == ROOT_PLUGIN@
            &&& plugins->Ok_0@[0].config == config
            &&& plugins->Ok_0@[0].base_dir@ == base_dir@
        } else {
            &&& plugins is Err
            &&& plugins->Err_0 is Parse
            &&& plugins->Err_0->Parse_0@
                == "inline `from_text` does not support `plugins:` field; use `load()` with a file path"@
        },
{
    if config.modules.len() > 0 {
        return Err(
            VmError::Parse(
                "inline `from_text` does not support `plugins:` field; use `load()` with a file path".to_owned(),
            ),
        );
    }
    let mut plugins: Vec<LoadedPlugin> = Vec::new();
    plugins.push(
        LoadedPlugin { name: ROOT_PLUGIN.to_owned(), config, base_dir: base_dir.to_owned() },
    );
    Ok(plugins)
}

/// Registers what all plugins declare, plugin by plugin: first the components of each, then its
/// events. The first clash of names ends the registration.
pub fn register_plugins<W, F: Fn(&str, W) -> (W, usize)>(
    components: &mut ComponentRegistry,
    events: &mut EventRegistry,
    plugins: &Vec<LoadedPlugin>,
    world: W,
    host: &F,
) -> (registered: (W, Result<(), VmError>))
    requires
        forall|name: &str, w: W| host.requires((name, w)),
    ensures
        exists|stages: Seq<(W, Components, Channels)>|
            {
                &&& #[trigger] registered_in_turn(plugins@, *host, stages)
                &&& stages[0] == (world, old(components)@, old(events)@)
                &&& match registered.1 {
                    Ok(()) => stages.len() == plugins@.len() + 1 && stages.last() == (
                        registered.0,
                        final(components)@,
                        final(events)@,
                    ),
                    Err(e) => stages.len() <= plugins@.len() && refused(
                        plugins@[stages.len() - 1],
                        *host,
                        stages.last(),
                        (registered.0, final(components)@, final(events)@),
                        e,
                    ),
                }
            },
{
    let mut now = world;
    let ghost mut stages: Seq<(W, Components, Channels)> = seq![(world, components@, events@)];
    let mut i: usize = 0;
    while i < plugins.len()
        invariant
            i <= plugins.len(),
            forall|name: &str, w: W| host.requires((name, w)),
            stages.len() == i + 1,
            stages[0] == (world, old(components)@, old(events)@),
            stages.last() == (now, components@, events@),
            registered_in_turn(plugins@, *host, stages),
        decreases plugins.len() - i,
    {
        let plugin = &plugins[i];
        let ghost start = (now, components@, events@);
        let (after, done) = register_plugin_components(components, plugin, now, host);
        now = after;
        proof {
            if done is Ok {
                let (worlds, ids) = choose|worlds: Seq<W>, ids: Seq<usize>|
                    {
                        &&& #[trigger] components_declared(
                            start.1,
                            declared_components(*plugin),
                            *host,
                            worlds,
                            ids,
                            components@,
                            done,
                        )
                        &&& worlds[0] == start.0
                        &&& worlds.last() == after
                    };
                let (x, y) = ((start.0, start.1), (now, components@));
                assert(components_declared(
                    x.1,
                    declared_components(*plugin),
                    *host,
                    worlds,
                    ids,
                    y.1,
                    done,
                ));
                assert(components_taken(*plugin, *host, x, y));
            }
        }
        match done {
            Ok(()) => {},
            Err(e) => {
                assert(refused(*plugin, *host, start, (now, components@, events@), e));
                return (now, Err(e));
            },
        }
        let ghost between = components@;
        match register_plugin_events(events, plugin) {
            Ok(()) => {},
            Err(e) => {
                assert(components_taken(*plugin, *host, (start.0, start.1), (now, between)));
                assert(refused(*plugin, *host, start, (now, components@, events@), e));
                return (now, Err(e));
            },
        }
        proof {
            assert(components_taken(*plugin, *host, (start.0, start.1), (now, between)));
            let before = stages;
            stages = stages.push((now, components@, events@));
            assert forall|k: int| 0 <= k < stages.len() - 1 implies #[trigger] taken_up_at(
                plugins@,
                *host,
                stages,
                k,
            ) by {
                if k < before.len() - 1 {
                    assert(taken_up_at(plugins@, *host, before, k));
                }
            }
        }
        i += 1;
    }
    (now, Ok(()))
}

/// Whether registering the components of a plugin succeeds and leads from one world and registry to
/// the other.
pub open spec fn components_taken<W, F: Fn(&str, W) -> (W, usize)>(
    plugin: LoadedPlugin,
    host: F,
    before: (W, Components),
    after: (W, Components),
) -> bool {
    exists|worlds: Seq<W>, ids: Seq<usize>, done: Result<(), VmError>|
        {
            &&& #[trigger] components_declared(
                before.1,
                declared_components(plugin),
                host,
                worlds,
                ids,
                after.1,
                done,
            )
            &&& done is Ok
            &&& worlds[0] == before.0
            &&& worlds.last() == after.0
        }
}

/// Whether registering what a plugin declares succeeds and leads from one world and pair of
/// registries to the other.
pub open spec fn taken_up<W, F: Fn(&str, W) -> (W, usize)>(
    plugin: LoadedPlugin,
    host: F,
    before: (W, Components, Channels),
    after: (W, Components, Channels),
) -> bool {
    let decls = declared_events(plugin);
    &&& components_taken(plugin, host, (before.0, before.1), (after.0, after.1))
    &&& with_events(before.2, decls, decls.len()) == (after.2, None::<int>)
}

/// Whether plugins were registered one after the other, with these worlds and registries in
/// between.
pub open spec fn registered_in_turn<W, F: Fn(&str, W) -> (W, usize)>(
    plugins: Seq<LoadedPlugin>,
    host: F,
    stages: Seq<(W, Components, Channels)>,
) -> bool {
    &&& 0 < stages.len() <= plugins.len() + 1
    &&& forall|k: int|
        0 <= k < stages.len() - 1 ==> #[trigger] taken_up_at(plugins, host, stages, k)
}

/// Whether plugin `k` was registered between its stage and the next one.
pub open spec fn taken_up_at<W, F: Fn(&str, W) -> (W, usize)>(
    plugins: Seq<LoadedPlugin>,
    host: F,
    stages: Seq<(W, Components, Channels)>,
    k: int,
) -> bool {
    taken_up(plugins[k], host, stages[k], stages[k + 1])
}

/// Whether registering what a plugin declares fails with this error, from one world and pair of
/// registries, and leaves the other.
pub open spec fn refused<W, F: Fn(&str, W) -> (W, usize)>(
    plugin: LoadedPlugin,
    host: F,
    before: (W, Components, Channels),
    after: (W, Components, Channels),
    e: VmError,
) -> bool {
    let decls = declared_events(plugin);
    let (channels, clash) = with_events(before.2, decls, decls.len());
    ||| after.2 == before.2 && exists|worlds: Seq<W>, ids: Seq<usize>, done: Result<(), VmError>|
        {
            &&& #[trigger] components_declared(
                before.1,
                declared_components(plugin),
                host,
                worlds,
                ids,
                after.1,
                done,
            )
            &&& done == Err::<(), VmError>(e)
            &&& worlds[0] == before.0
            &&& worlds.last() == after.0
        }
    ||| {
        &&& components_taken(plugin, host, (before.0, before.1), (after.0, after.1))
        &&& after.2 == channels
        &&& clash is Some
        &&& e is Event
        &&& e->Event_0 is KindMismatch
        &&& e->Event_0->KindMismatch_name@ == decls[clash->Some_0].0
    }
}

/// What a plugin declares goes by the name of the plugin and its own; what the top-level world
/// declares, and what is written with `::` in it, goes by its own name.
pub proof fn names_are_told_apart_by_plugin(
    plugin: Seq<char>,
    short: Seq<char>,
    a: Seq<char>,
    b: Seq<char>,
)
    ensures
        plugin != ROOT_PLUGIN@ && !short.contains(':') ==> qualified_name(plugin, short) == plugin
            + "::"@ + short,
        qualified_name(ROOT_PLUGIN@, short) == short,
        qualified_name(plugin, a + "::"@ + b) == a + "::"@ + b,
{
    text::qualified_names_are_cut_in_two(a, b, short);
}

/// An entity of a plugin finds a component by the name it writes: the component of that very name
/// if there is one, else that of the plugin. A name with `::` in it is taken as it stands.
pub proof fn entities_find_components_of_their_plugin(
    components: Components,
    plugin: Seq<char>,
    short: Seq<char>,
    a: Seq<char>,
    b: Seq<char>,
)
    ensures
        components.typed.contains_key(short) || components.dynamic.contains_key(short)
            ==> component_ref(components, plugin, short) == Some(short),
        !short.contains(':') && !components.has_name(short) && (components.typed.contains_key(
            plugin + "::"@ + short,
        ) || components.dynamic.contains_key(plugin + "::"@ + short)) ==> component_ref(
            components,
            plugin,
            short,
        ) == Some(plugin + "::"@ + short),
        !short.contains(':') && !components.has_name(short) && !components.has_name(
            plugin + "::"@ + short,
        ) ==> component_ref(components, plugin, short) is None,
        component_ref(components, plugin, a + "::"@ + b) == Some(a + "::"@ + b),
{
    text::qualified_names_are_cut_in_two(a, b, short);
}

proof fn events_so_far(channels: Channels, decls: Seq<(Seq<char>, Json)>, n: nat, name: Seq<char>)
    requires
        n <= decls.len(),
    ensures
        ({
            let (after, clash) = with_events(channels, decls, n);
            &&& after.typed == channels.typed
            &&& channels.dynamic.contains_key(name) ==> after.dynamic.contains_key(name)
                && after.dynamic[name] == channels.dynamic[name]
            &&& after.dynamic.contains_key(name) && !channels.dynamic.contains_key(name) ==> exists|
                i: int,
            |
                0 <= i < n && (#[trigger] decls[i]).0 == name && decls[i].1 == after.dynamic[name]
            &&& clash is None ==> forall|i: int|
                0 <= i < n ==> after.dynamic.contains_key((#[trigger] decls[i]).0)
                    && after.dynamic[decls[i].0] == decls[i].1 && !channels.taken(decls[i].0)
                    && forall|j: int| 0 <= j < n && j != i ==> (#[trigger] decls[j]).0 != decls[i].0
            &&& clash is Some ==> 0 <= clash->Some_0 < n && (channels.taken(
                decls[clash->Some_0].0,
            ) || exists|j: int|
                0 <= j < clash->Some_0 && (#[trigger] decls[j]).0 == decls[clash->Some_0].0)
        }),
    decreases n,
{
    if n > 0 {
        events_so_far(channels, decls, (n - 1) as nat, name);
        let (before, clash) = with_events(channels, decls, (n - 1) as nat);
        let (after, now) = with_events(channels, decls, n);
        let last = decls[n - 1];
        events_so_far(channels, decls, (n - 1) as nat, last.0);
        if clash is None && now is None {
            assert forall|i: int| 0 <= i < n implies after.dynamic.contains_key(
                (#[trigger] decls[i]).0,
            ) && after.dynamic[decls[i].0] == decls[i].1 && !channels.taken(decls[i].0)
                && (forall|j: int| 0 <= j < n && j != i ==> (#[trigger] decls[j]).0 != decls[i].0) by {
                if i < n - 1 {
                    assert(before.dynamic.contains_key(decls[i].0));
                    assert(decls[i].0 != last.0);
                } else {
                    assert forall|j: int| 0 <= j < n && j != i implies (#[trigger] decls[j]).0
                        != decls[i].0 by {
                        assert(before.dynamic.contains_key(decls[j].0));
                    }
                }
            }
        }
        if after.dynamic.contains_key(name) && !channels.dynamic.contains_key(name) {
            if !before.dynamic.contains_key(name) {
                assert(decls[n - 1].0 == name);
            }
        }
    }
}

/// A plugin whose events are all registered has each of them as a channel, under its full name and
/// with the default that it declares; earlier channels stay as they are, and nothing else is
/// added. No two of its events, and no earlier channel, have one name.
pub proof fn declared_events_become_channels(
    plugin: LoadedPlugin,
    before: Channels,
    after: Channels,
    i: int,
    name: Seq<char>,
)
    requires
        with_events(before, declared_events(plugin), declared_events(plugin).len()) == (
            after,
            None::<int>,
        ),
        0 <= i < plugin.config.events@.len(),
    ensures
        ({
            let full = qualified_name(plugin.name@, plugin.config.events@[i].name@);
            &&& after.dynamic.contains_key(full)
            &&& after.dynamic[full] == plugin.config.events@[i].default@
            &&& !before.typed.contains_key(full) && !before.dynamic.contains_key(full)
        }),
        after.typed == before.typed,
        before.dynamic.contains_key(name) ==> after.dynamic.contains_key(name)
            && after.dynamic[name] == before.dynamic[name],
        after.dynamic.contains_key(name) && !before.dynamic.contains_key(name) ==> exists|k: int|
            0 <= k < plugin.config.events@.len() && qualified_name(
                plugin.name@,
                (#[trigger] plugin.config.events@[k]).name@,
            ) == name,
{
    let decls = declared_events(plugin);
    events_so_far(before, decls, decls.len(), name);
    assert(decls[i].0 == qualified_name(plugin.name@, plugin.config.events@[i].name@));
    if after.dynamic.contains_key(name) && !before.dynamic.contains_key(name) {
        let k = choose|k: int|
            0 <= k < decls.len() && (#[trigger] decls[k]).0 == name && decls[k].1
                == after.dynamic[name];
        assert(qualified_name(plugin.name@, plugin.config.events@[k].name@) == name);
    }
}

/// Registering the events of a plugin breaks off exactly where a name is taken: by a channel that
/// was there, or by an event that the plugin declares before it.
pub proof fn only_taken_event_names_are_refused(
    plugin: LoadedPlugin,
    before: Channels,
    after: Channels,
    clash: int,
)
    requires
        with_events(before, declared_events(plugin), declared_events(plugin).len()) == (
            after,
            Some(clash),
        ),
    ensures
        0 <= clash < plugin.config.events@.len(),
        ({
            let full = qualified_name(plugin.name@, plugin.config.events@[clash].name@);
            ||| before.typed.contains_key(full)
            ||| before.dynamic.contains_key(full)
            ||| exists|j: int|
                0 <= j < clash && qualified_name(
                    plugin.name@,
                    (#[trigger] plugin.config.events@[j]).name@,
                ) == full
        }),
{
    let decls = declared_events(plugin);
    events_so_far(before, decls, decls.len(), Seq::empty());
    let full = decls[clash].0;
    if !before.taken(full) {
        let j = choose|j: int| 0 <= j < clash && (#[trigger] decls[j]).0 == full;
        assert(qualified_name(plugin.name@, plugin.config.events@[j].name@) == full);
    }
}

proof fn components_so_far(
    components: Components,
    decls: Seq<(Seq<char>, Json)>,
    ids: Seq<usize>,
    n: nat,
    name: Seq<char>,
)
    requires
        n <= decls.len(),
    ensures
        ({
            let (after, clash) = with_components(components, decls, ids, n);
            &&& after.typed == components.typed
            &&& (forall|i: int| 0 <= i < n ==> (#[trigger] decls[i]).0 != name) ==> (
            after.dynamic.contains_key(name) <==> components.dynamic.contains_key(name)) && (
            after.dynamic.contains_key(name) ==> after.dynamic[name] == components.dynamic[name])
            &&& clash is None ==> forall|i: int|
                0 <= i < n ==> after.dynamic.contains_key((#[trigger] decls[i]).0)
                    && !components.typed.contains_key(decls[i].0) && ((forall|j: int|
                    i < j < n ==> (#[trigger] decls[j]).0 != decls[i].0) ==> after.dynamic[
                    decls[i].0
                ] == (DynInfo { id: ids[i], default: decls[i].1 }))
            &&& clash is Some ==> 0 <= clash->Some_0 < n && components.typed.contains_key(
                decls[clash->Some_0].0,
            ) && forall|j: int|
                0 <= j < clash->Some_0 ==> !components.typed.contains_key((#[trigger] decls[j]).0)
        }),
    decreases n,
{
    if n > 0 {
        components_so_far(components, decls, ids, (n - 1) as nat, name);
        let (before, clash) = with_components(components, decls, ids, (n - 1) as nat);
        let (after, now) = with_components(components, decls, ids, n);
        let last = decls[n - 1];
        if clash is None && now is None {
            assert forall|i: int| 0 <= i < n implies after.dynamic.contains_key(
                (#[trigger] decls[i]).0,
            ) && !components.typed.contains_key(decls[i].0) && ((forall|j: int|
                i < j < n ==> (#[trigger] decls[j]).0 != decls[i].0) ==> after.dynamic[decls[i].0]
                == (DynInfo { id: ids[i], default: decls[i].1 })) by {
                if i < n - 1 {
                    assert(before.dynamic.contains_key(decls[i].0));
                    if forall|j: int| i < j < n ==> (#[trigger] decls[j]).0 != decls[i].0 {
                        assert(decls[n - 1].0 != decls[i].0);
                        assert(after.dynamic[decls[i].0] == before.dynamic[decls[i].0]);
                    }
                }
            }
        }
        if forall|i: int| 0 <= i < n ==> (#[trigger] decls[i]).0 != name {
            assert(decls[n - 1].0 != name);
        }
    }
}

/// A plugin whose components are all registered has each of them under its full name, with the id
/// that the host gave it and the default that the plugin declares; of two of one name the later
/// counts. Typed components and other dynamic ones stay as they are.
pub proof fn declared_components_are_registered(
    plugin: LoadedPlugin,
    before: Components,
    ids: Seq<usize>,
    after: Components,
    i: int,
    name: Seq<char>,
)
    requires
        with_components(
            before,
            declared_components(plugin),
            ids,
            declared_components(plugin).len(),
        ) == (after, None::<int>),
        0 <= i < plugin.config.components@.len(),
    ensures
        ({
            let full = qualified_name(plugin.name@, plugin.config.components@[i].name@);
            &&& after.dynamic.contains_key(full)
            &&& !before.typed.contains_key(full)
            &&& (forall|j: int|
                i < j < plugin.config.components@.len() ==> qualified_name(
                    plugin.name@,
                    (#[trigger] plugin.config.components@[j]).name@,
                ) != full) ==> after.dynamic[full].id == ids[i] && after.dynamic[full].default
                == plugin.config.components@[i].default@
        }),
        after.typed == before.typed,
        (forall|j: int|
            0 <= j < plugin.config.components@.len() ==> qualified_name(
                plugin.name@,
                (#[trigger] plugin.config.components@[j]).name@,
            ) != name) ==> (after.dynamic.contains_key(name) <==> before.dynamic.contains_key(name))
            && (before.dynamic.contains_key(name) ==> after.dynamic[name] == before.dynamic[name]),
{
    let decls = declared_components(plugin);
    components_so_far(before, decls, ids, decls.len(), name);
    let full = decls[i].0;
    if forall|j: int|
        i < j < plugin.config.components@.len() ==> qualified_name(
            plugin.name@,
            (#[trigger] plugin.config.components@[j]).name@,
        ) != full {
        assert forall|j: int| i < j < decls.len() implies (#[trigger] decls[j]).0 != full by {
            assert(plugin.config.components@[j].name@ == plugin.config.components@[j].name@);
        }
    }
    if forall|j: int|
        0 <= j < plugin.config.components@.len() ==> qualified_name(
            plugin.name@,
            (#[trigger] plugin.config.components@[j]).name@,
        ) != name {
        assert forall|j: int| 0 <= j < decls.len() implies (#[trigger] decls[j]).0 != name by {
            assert(plugin.config.components@[j].name@ == plugin.config.components@[j].name@);
        }
    }
}

/// Registering the components of a plugin breaks off exactly at the first that has the name of a
/// typed component.
pub proof fn only_typed_names_are_refused(
    plugin: LoadedPlugin,
    before: Components,
    ids: Seq<usize>,
    after: Components,
    clash: int,
)
    requires
        with_components(
            before,
            declared_components(plugin),
            ids,
            declared_components(plugin).len(),
        ) == (after, Some(clash)),
    ensures
        0 <= clash < plugin.config.components@.len(),
        before.typed.contains_key(
            qualified_name(plugin.name@, plugin.config.components@[clash].name@),
        ),
        forall|j: int|
            0 <= j < clash ==> !before.typed.contains_key(
                qualified_name(plugin.name@, (#[trigger] plugin.config.components@[j]).name@),
            ),
{
    let decls = declared_components(plugin);
    components_so_far(before, decls, ids, decls.len(), Seq::empty());
    assert forall|j: int| 0 <= j < clash implies !before.typed.contains_key(
        qualified_name(plugin.name@, (#[trigger] plugin.config.components@[j]).name@),
    ) by {
        assert(decls[j].0 == qualified_name(plugin.name@, plugin.config.components@[j].name@));
    }
}

/// A field that is laid over a component stands there afterwards: put together with what was
/// there, or as it is where nothing was. What lies apart from it does not change.
pub proof fn a_laid_field_stands_there(
    root: Json,
    field: Seq<char>,
    v: Json,
    other: Seq<Seq<char>>,
)
    requires
        laid_over(root, field, v) is Ok,
    ensures
        ({
            let segments = path::path_segments(field);
            let after = laid_over(root, field, v)->Ok_0;
            &&& path::get_at(root, segments) is Err ==> path::get_at(after, segments) == Ok::<
                Json,
                PathFault,
            >(v)
            &&& path::get_at(root, segments) is Ok ==> path::get_at(after, segments) == Ok::<
                Json,
                PathFault,
            >(value::deep_merged(path::get_at(root, segments)->Ok_0, v))
            &&& path::get_at(root, other) is Ok && path::apart(root, segments, other)
                ==> path::get_at(after, other) == path::get_at(root, other)
        }),
{
    let segments = path::path_segments(field);
    let new = match path::get_at(root, segments) {
        Ok(there) => value::deep_merged(there, v),
        Err(_) => v,
    };
    path::set_then_get(root, segments, new);
    if path::get_at(root, other) is Ok && path::apart(root, segments, other) {
        path::set_leaves_other_paths(root, segments, new, other);
    }
}

proof fn fields_up_to(
    root: Json,
    fields: Map<Seq<char>, Json>,
    names: Seq<Seq<char>>,
    n: nat,
)
    ensures
        ({
            let (v, failed) = with_fields(root, fields, names, n);
            failed is Some ==> exists|i: int|
                {
                    &&& 0 <= i < n
                    &&& #[trigger] names[i] == failed->Some_0.0
                    &&& with_fields(root, fields, names, i as nat) == (
                        v,
                        None::<(Seq<char>, PathFault)>,
                    )
                    &&& laid_over(v, names[i], fields[names[i]]) == Err::<Json, PathFault>(
                        failed->Some_0.1,
                    )
                }
        }),
    decreases n,
{
    if n > 0 {
        fields_up_to(root, fields, names, (n - 1) as nat);
        let (before, failed) = with_fields(root, fields, names, (n - 1) as nat);
        let now = with_fields(root, fields, names, n).1;
        if failed is None && now is Some {
            assert(names[n - 1] == now->Some_0.0);
        }
    }
}

/// What an entity says of a component decides: unless both it and the default are objects it is
/// the value. Of two objects every field is laid over the default in the order of the names, and
/// a field that does not fit is one that the entity gives.
pub proof fn the_entity_decides_how_a_component_starts(default: Json, overrides: Json)
    requires
        overrides is Object ==> overrides->Object_0.dom().finite(),
    ensures
        !(default is Object && overrides is Object) ==> dynamic_init(default, overrides) == (
            overrides,
            None::<(Seq<char>, PathFault)>,
        ),
        default is Object && overrides is Object && overrides->Object_0.dom().len() == 0
            ==> dynamic_init(default, overrides) == (default, None::<(Seq<char>, PathFault)>),
        default is Object && overrides is Object && dynamic_init(default, overrides).1 is Some
            ==> overrides->Object_0.contains_key(dynamic_init(default, overrides).1->Some_0.0)
            && laid_over(
            dynamic_init(default, overrides).0,
            dynamic_init(default, overrides).1->Some_0.0,
            overrides->Object_0[dynamic_init(default, overrides).1->Some_0.0],
        ) == Err::<Json, PathFault>(dynamic_init(default, overrides).1->Some_0.1),
{
    if default is Object && overrides is Object {
        let fields = overrides->Object_0;
        let names = dict::ascending_keys(fields);
        dict::ascending_keys_list_the_domain(fields);
        fields_up_to(default, fields, names, names.len());
        if dynamic_init(default, overrides).1 is Some {
            let failed = dynamic_init(default, overrides).1->Some_0;
            let i = choose|i: int| 0 <= i < names.len() && #[trigger] names[i] == failed.0;
            assert(names.contains(names[i]));
        }
        if fields.dom().len() == 0 {
            assert(fields.dom() =~= Set::empty());
            if names.len() > 0 {
                assert(names.contains(names[0]));
                assert(fields.contains_key(names[0]));
            }
        }
    }
}

/// An entity gives one field of a component: the component starts with its default in which that
/// field, which may lie deep, is put together with what the entity gives.
pub proof fn one_field_of_a_component_is_given(
    default: Map<Seq<char>, Json>,
    field: Seq<char>,
    v: Json,
)
    ensures
        dynamic_init(Json::Object(default), Json::Object(map![field => v])) == (match laid_over(
            Json::Object(default),
            field,
            v,
        ) {
            Ok(after) => (after, None::<(Seq<char>, PathFault)>),
            Err(fault) => (Json::Object(default), Some((field, fault))),
        }),
{
    let fields = map![field => v];
    let names = seq![field];
    assert forall|key: Seq<char>| #[trigger] fields.contains_key(key) <==> names.contains(key) by {
        if key == field {
            assert(names[0] == key);
        }
    }
    assert(dict::strictly_ascending(names));
    dict::ascending_keys_are(fields, names);
    reveal_with_fuel(with_fields, 2);
    assert(fields[field] == v);
}

/// An entity without faults gets a component for every one it names, in the order of the names:
/// a typed one with what the entity says of it, a dynamic one under its id with its default and
/// what the entity says put together.
pub proof fn every_named_component_is_planned(
    components: Components,
    plugin: Seq<char>,
    parts: Map<Seq<char>, Json>,
    names: Seq<Seq<char>>,
    n: nat,
    i: int,
)
    requires
        entity_steps(components, plugin, parts, names, n).1 is None,
        n <= names.len(),
        0 <= i < n,
    ensures
        ({
            let steps = entity_steps(components, plugin, parts, names, n).0;
            let full = component_ref(components, plugin, names[i]);
            &&& steps.len() == n
            &&& full is Some
            &&& components.typed.contains_key(full->Some_0) ==> steps[i] == (InitInfo::Typed {
                name: full->Some_0,
                overrides: parts[names[i]],
            })
            &&& !components.typed.contains_key(full->Some_0) ==> components.dynamic.contains_key(
                full->Some_0,
            ) && steps[i] == (InitInfo::Dynamic {
                name: full->Some_0,
                id: components.dynamic[full->Some_0].id,
                value: dynamic_init(
                    components.dynamic[full->Some_0].default,
                    parts[names[i]],
                ).0,
            })
        }),
    decreases n,
{
    planned_count(components, plugin, parts, names, n);
    planned_count(components, plugin, parts, names, (n - 1) as nat);
    if i < n - 1 {
        every_named_component_is_planned(components, plugin, parts, names, (n - 1) as nat, i);
    }
}

proof fn planned_count(
    components: Components,
    plugin: Seq<char>,
    parts: Map<Seq<char>, Json>,
    names: Seq<Seq<char>>,
    n: nat,
)
    requires
        entity_steps(components, plugin, parts, names, n).1 is None,
    ensures
        entity_steps(components, plugin, parts, names, n).0.len() == n,
        n > 0 ==> entity_steps(components, plugin, parts, names, (n - 1) as nat).1 is None,
    decreases n,
{
    if n > 0 {
        planned_count(components, plugin, parts, names, (n - 1) as nat);
    }
}

/// An entity that names a component that nobody registered gets those it names before it, and
/// nothing from there on.
pub proof fn an_unknown_component_ends_the_plan(
    components: Components,
    plugin: Seq<char>,
    parts: Map<Seq<char>, Json>,
    names: Seq<Seq<char>>,
    i: int,
)
    requires
        0 <= i < names.len(),
        entity_steps(components, plugin, parts, names, i as nat).1 is None,
        component_ref(components, plugin, names[i]) is None,
    ensures
        entity_steps(components, plugin, parts, names, names.len()) == (
            entity_steps(components, plugin, parts, names, i as nat).0,
            Some(InitFault::Unknown(names[i])),
        ),
{
    first_fault_counts(components, plugin, parts, names, (i + 1) as nat, names.len());
}

/// The seed of a world is that of its top-level file, wherever that stands among the plugins;
/// those of other plugins do not count.
pub proof fn the_top_level_file_gives_the_seed(plugins: Seq<LoadedPlugin>, root: int)
    ensures
        0 <= root < plugins.len() && plugins[root].name@ == ROOT_PLUGIN@ && (forall|i: int|
            0 <= i < root ==> (#[trigger] plugins[i]).name@ != ROOT_PLUGIN@) ==> seed_of(plugins)
            == plugins[root].config.seed,
        (forall|i: int| 0 <= i < plugins.len() ==> (#[trigger] plugins[i]).name@ != ROOT_PLUGIN@)
            ==> seed_of(plugins) is None,
    decreases plugins.len(),
{
    if plugins.len() > 0 && plugins[0].name@ != ROOT_PLUGIN@ {
        let rest = plugins.drop_first();
        the_top_level_file_gives_the_seed(rest, root - 1);
        assert(forall|i: int| 0 <= i < rest.len() ==> #[trigger] rest[i] == plugins[i + 1]);
        if 0 <= root < plugins.len() && plugins[root].name@ == ROOT_PLUGIN@ {
            assert(rest[root - 1] == plugins[root]);
        }
    }
}

/// A world is loaded from the file `world.ron` in a directory, and from a file as it is given.
pub proof fn directories_hold_their_world(input: &str, inside: String, itself: String)
    requires
        call_ensures(resolve_root_path, (input, true), inside),
        call_ensures(resolve_root_path, (input, false), itself),
    ensures
        itself@ == input@,
        input@.len() > 0 && input@.last() != '/' ==> inside@ == input@.push('/') + "world.ron"@,
        input@.len() > 0 && input@.last() == '/' ==> inside@ == input@ + "world.ron"@,
{
    reveal_strlit("world.ron");
    paths::paths_are_made_part_by_part(input@, "world.ron"@);
}

/// A world that is not in a file is its only plugin, and its seed is that of the world, if it gives
/// one. It is refused exactly if it names modules.
pub proof fn inline_worlds_stand_alone(
    config: WorldConfig,
    base_dir: &str,
    plugins: Result<Vec<LoadedPlugin>, VmError>,
    seed: Option<u64>,
)
    requires
        call_ensures(inline_plugins, (config, base_dir), plugins),
        plugins is Ok ==> call_ensures(root_seed, (&plugins->Ok_0,), seed),
    ensures
        plugins is Ok <==> config.modules@.len() == 0,
        plugins is Ok ==> seed == config.seed && plugins->Ok_0@.len() == 1
            && plugins->Ok_0@[0].name@ == "<root>"@ && plugins->Ok_0@[0].config == config
            && plugins->Ok_0@[0].base_dir@ == base_dir@,
{
    if plugins is Ok {
        the_top_level_file_gives_the_seed(plugins->Ok_0@, 0);
    }
}

proof fn stages_keep_what_is_registered<W, F: Fn(&str, W) -> (W, usize)>(
    plugins: Seq<LoadedPlugin>,
    host: F,
    stages: Seq<(W, Components, Channels)>,
    from: int,
    to: int,
    name: Seq<char>,
)
    requires
        registered_in_turn(plugins, host, stages),
        0 <= from <= to < stages.len(),
    ensures
        stages[to].1.typed == stages[from].1.typed,
        stages[to].2.typed == stages[from].2.typed,
        stages[from].1.dynamic.contains_key(name) ==> stages[to].1.dynamic.contains_key(name),
        stages[from].2.dynamic.contains_key(name) ==> stages[to].2.dynamic.contains_key(name)
            && stages[to].2.dynamic[name] == stages[from].2.dynamic[name],
    decreases to - from,
{
    if from < to {
        stages_keep_what_is_registered(plugins, host, stages, from, to - 1, name);
        let k = to - 1;
        assert(taken_up_at(plugins, host, stages, k));
        let events = declared_events(plugins[k]);
        events_so_far(stages[k].2, events, events.len(), name);
        let components = declared_components(plugins[k]);
        let (worlds, ids, done) = choose|worlds: Seq<W>, ids: Seq<usize>, done: Result<(), VmError>|
            {
                &&& #[trigger] components_declared(
                    stages[k].1,
                    components,
                    host,
                    worlds,
                    ids,
                    stages[to].1,
                    done,
                )
                &&& done is Ok
                &&& worlds[0] == stages[k].0
                &&& worlds.last() == stages[to].0
            };
        components_so_far(stages[k].1, components, ids, components.len(), name);
    }
}

/// Registering all plugins registers all that they declare: every event of every plugin is a
/// channel under its full name, with the default that it declares, and every component is known
/// under its full name. What was registered before stays.
pub proof fn all_that_plugins_declare_is_registered<W, F: Fn(&str, W) -> (W, usize)>(
    components: &mut ComponentRegistry,
    events: &mut EventRegistry,
    plugins: &Vec<LoadedPlugin>,
    world: W,
    host: &F,
    registered: (W, Result<(), VmError>),
    p: int,
    i: int,
    name: Seq<char>,
)
    requires
        call_ensures(register_plugins::<W, F>, (components, events, plugins, world, host), registered),
        registered.1 is Ok,
        0 <= p < plugins@.len(),
    ensures
        0 <= i < plugins@[p].config.events@.len() ==> {
            let full = qualified_name(plugins@[p].name@, plugins@[p].config.events@[i].name@);
            &&& final(events)@.dynamic.contains_key(full)
            &&& final(events)@.dynamic[full] == plugins@[p].config.events@[i].default@
            &&& !old(events)@.typed.contains_key(full) && !old(events)@.dynamic.contains_key(full)
        },
        0 <= i < plugins@[p].config.components@.len() ==> final(components)@.dynamic.contains_key(
            qualified_name(plugins@[p].name@, plugins@[p].config.components@[i].name@),
        ),
        final(components)@.typed == old(components)@.typed,
        final(events)@.typed == old(events)@.typed,
        old(events)@.dynamic.contains_key(name) ==> final(events)@.dynamic.contains_key(name)
            && final(events)@.dynamic[name] == old(events)@.dynamic[name],
{
    let stages = choose|stages: Seq<(W, Components, Channels)>|
        {
            &&& #[trigger] registered_in_turn(plugins@, *host, stages)
            &&& stages[0] == (world, old(components)@, old(events)@)
            &&& stages.len() == plugins@.len() + 1
            &&& stages.last() == (registered.0, final(components)@, final(events)@)
        };
    let end = stages.len() - 1;
    stages_keep_what_is_registered(plugins@, *host, stages, 0, end, name);
    assert(taken_up_at(plugins@, *host, stages, p));
    if 0 <= i < plugins@[p].config.events@.len() {
        let full = qualified_name(plugins@[p].name@, plugins@[p].config.events@[i].name@);
        declared_events_become_channels(plugins@[p], stages[p].2, stages[p + 1].2, i, full);
        stages_keep_what_is_registered(plugins@, *host, stages, p + 1, end, full);
        stages_keep_what_is_registered(plugins@, *host, stages, 0, p, full);
    }
    if 0 <= i < plugins@[p].config.components@.len() {
        let full = qualified_name(plugins@[p].name@, plugins@[p].config.components@[i].name@);
        let decls = declared_components(plugins@[p]);
        let (worlds, ids, done) = choose|worlds: Seq<W>, ids: Seq<usize>, done: Result<(), VmError>|
            {
                &&& #[trigger] components_declared(
                    stages[p].1,
                    decls,
                    *host,
                    worlds,
                    ids,
                    stages[p + 1].1,
                    done,
                )
                &&& done is Ok
                &&& worlds[0] == stages[p].0
                &&& worlds.last() == stages[p + 1].0
            };
        declared_components_are_registered(
            plugins@[p],
            stages[p].1,
            ids,
            stages[p + 1].1,
            i,
            full,
        );
        stages_keep_what_is_registered(plugins@, *host, stages, p + 1, end, full);
    }
}

proof fn a_clash_cuts(channels: Channels, decls: Seq<(Seq<char>, Json)>, n: nat)
    requires
        n <= decls.len(),
        with_events(channels, decls, n).1 is Some,
    ensures
        ({
            let (after, clash) = with_events(channels, decls, n);
            &&& 0 <= clash->Some_0 < n
            &&& with_events(channels, decls, clash->Some_0 as nat) == (after, None::<int>)
        }),
    decreases n,
{
    if with_events(channels, decls, (n - 1) as nat).1 is Some {
        a_clash_cuts(channels, decls, (n - 1) as nat);
    }
}

/// Where the events of a plugin clash with what there is, those that it declares before the clash
/// are registered, each with its default, and nothing else is.
pub proof fn events_before_a_clash_are_registered(
    plugin: LoadedPlugin,
    before: Channels,
    after: Channels,
    clash: int,
    i: int,
    name: Seq<char>,
)
    requires
        with_events(before, declared_events(plugin), declared_events(plugin).len()) == (
            after,
            Some(clash),
        ),
    ensures
        0 <= i < clash ==> {
            let full = qualified_name(plugin.name@, plugin.config.events@[i].name@);
            after.dynamic.contains_key(full) && after.dynamic[full]
                == plugin.config.events@[i].default@
        },
        after.typed == before.typed,
        before.dynamic.contains_key(name) ==> after.dynamic.contains_key(name)
            && after.dynamic[name] == before.dynamic[name],
        (forall|j: int|
            0 <= j < clash ==> qualified_name(
                plugin.name@,
                (#[trigger] plugin.config.events@[j]).name@,
            ) != name) && !before.dynamic.contains_key(name) ==> !after.dynamic.contains_key(name),
{
    let decls = declared_events(plugin);
    a_clash_cuts(before, decls, decls.len());
    events_so_far(before, decls, clash as nat, name);
    if 0 <= i < clash {
        assert(decls[i].0 == qualified_name(plugin.name@, plugin.config.events@[i].name@));
    }
    if after.dynamic.contains_key(name) && !before.dynamic.contains_key(name) {
        let j = choose|j: int|
            0 <= j < clash && (#[trigger] decls[j]).0 == name && decls[j].1 == after.dynamic[name];
        assert(qualified_name(plugin.name@, plugin.config.events@[j].name@) == name);
    }
}

proof fn a_shadow_cuts(
    components: Components,
    decls: Seq<(Seq<char>, Json)>,
    ids: Seq<usize>,
    n: nat,
)
    requires
        n <= decls.len(),
        with_components(components, decls, ids, n).1 is Some,
    ensures
        ({
            let (after, clash) = with_components(components, decls, ids, n);
            &&& 0 <= clash->Some_0 < n
            &&& with_components(components, decls, ids, clash->Some_0 as nat) == (
                after,
                None::<int>,
            )
        }),
    decreases n,
{
    if with_components(components, decls, ids, (n - 1) as nat).1 is Some {
        a_shadow_cuts(components, decls, ids, (n - 1) as nat);
    }
}

/// Where a component of a plugin has the name of a typed one, those that the plugin declares before
/// it are registered, and nothing else is.
pub proof fn components_before_a_clash_are_registered(
    plugin: LoadedPlugin,
    before: Components,
    ids: Seq<usize>,
    after: Components,
    clash: int,
    i: int,
    name: Seq<char>,
)
    requires
        with_components(
            before,
            declared_components(plugin),
            ids,
            declared_components(plugin).len(),
        ) == (after, Some(clash)),
    ensures
        0 <= i < clash ==> after.dynamic.contains_key(
            qualified_name(plugin.name@, plugin.config.components@[i].name@),
        ),
        after.typed == before.typed,
        (forall|j: int|
            0 <= j < clash ==> qualified_name(
                plugin.name@,
                (#[trigger] plugin.config.components@[j]).name@,
            ) != name) ==> (after.dynamic.contains_key(name) <==> before.dynamic.contains_key(name))
            && (before.dynamic.contains_key(name) ==> after.dynamic[name] == before.dynamic[name]),
{
    let decls = declared_components(plugin);
    a_shadow_cuts(before, decls, ids, decls.len());
    components_so_far(before, decls, ids, clash as nat, name);
    if 0 <= i < clash {
        assert(decls[i].0 == qualified_name(plugin.name@, plugin.config.components@[i].name@));
    }
    if forall|j: int|
        0 <= j < clash ==> qualified_name(
            plugin.name@,
            (#[trigger] plugin.config.components@[j]).name@,
        ) != name {
        assert forall|j: int| 0 <= j < clash implies (#[trigger] decls[j]).0 != name by {
            assert(plugin.config.components@[j].name@ == plugin.config.components@[j].name@);
        }
    }
}

proof fn other_fields_do_not_matter(
    root: Json,
    a: Map<Seq<char>, Json>,
    b: Map<Seq<char>, Json>,
    names: Seq<Seq<char>>,
    longer: Seq<Seq<char>>,
    n: nat,
)
    requires
        n <= names.len() <= longer.len(),
        forall|i: int| 0 <= i < n ==> #[trigger] names[i] == longer[i] && a[names[i]] == b[names[i]],
    ensures
        with_fields(root, a, names, n) == with_fields(root, b, longer, n),
    decreases n,
{
    if n > 0 {
        other_fields_do_not_matter(root, a, b, names, longer, (n - 1) as nat);
        assert(names[n - 1] == longer[n - 1]);
    }
}

/// The fields that an entity gives are laid over a component one after the other, by name: one more
/// field behind all others is laid over what those have made of the component, and where one of
/// those did not fit, what was made up to there stays.
pub proof fn fields_are_laid_one_after_the_other(
    default: Map<Seq<char>, Json>,
    fields: Map<Seq<char>, Json>,
    name: Seq<char>,
    v: Json,
)
    requires
        fields.dom().finite(),
        forall|key: Seq<char>| #[trigger] fields.contains_key(key) ==> text::precedes(key, name),
    ensures
        ({
            let (made, failed) = dynamic_init(Json::Object(default), Json::Object(fields));
            let all = dynamic_init(
                Json::Object(default),
                Json::Object(fields.insert(name, v)),
            );
            &&& failed is Some ==> all == (made, failed)
            &&& failed is None && laid_over(made, name, v) is Ok ==> all == (
                laid_over(made, name, v)->Ok_0,
                None::<(Seq<char>, PathFault)>,
            )
            &&& failed is None && laid_over(made, name, v) is Err ==> all == (
                made,
                Some((name, laid_over(made, name, v)->Err_0)),
            )
        }),
{
    let names = dict::ascending_keys(fields);
    dict::ascending_keys_list_the_domain(fields);
    let more = fields.insert(name, v);
    let longer = names.push(name);
    assert forall|key: Seq<char>| #[trigger] more.contains_key(key) <==> longer.contains(key) by {
        if names.contains(key) {
            let i = choose|i: int| 0 <= i < names.len() && names[i] == key;
            assert(longer[i] == key);
        }
        if key == name {
            assert(longer[names.len() as int] == key);
        }
        if longer.contains(key) && key != name {
            let i = choose|i: int| 0 <= i < longer.len() && longer[i] == key;
            assert(names[i] == key);
        }
    }
    assert(dict::strictly_ascending(longer)) by {
        assert forall|i: int, j: int| 0 <= i < j < longer.len() implies text::precedes(
            longer[i],
            longer[j],
        ) by {
            if j == names.len() {
                assert(names.contains(names[i]));
                assert(fields.contains_key(names[i]));
            } else {
                assert(text::precedes(names[i], names[j]));
            }
        }
    }
    dict::ascending_keys_are(more, longer);
    text::precedes_irreflexive(name);
    assert forall|i: int| 0 <= i < names.len() implies #[trigger] names[i] == longer[i]
        && fields[names[i]] == more[names[i]] by {
        assert(names.contains(names[i]));
        assert(fields.contains_key(names[i]));
    }
    other_fields_do_not_matter(Json::Object(default), fields, more, names, longer, names.len());
    let so_far = with_fields(Json::Object(default), more, longer, names.len());
    assert(with_fields(Json::Object(default), more, longer, longer.len()) == (if so_far.1 is Some {
        so_far
    } else {
        match laid_over(so_far.0, name, v) {
            Ok(x) => (x, None),
            Err(fault) => (so_far.0, Some((name, fault))),
        }
    }));
}

/// A dynamic component with a field that does not fit ends the plan of an entity: the entity still
/// gets that component, with what fitted before, and those before it, and nothing from there on.
pub proof fn a_field_that_does_not_fit_ends_the_plan(
    components: Components,
    plugin: Seq<char>,
    parts: Map<Seq<char>, Json>,
    names: Seq<Seq<char>>,
    i: int,
    full: Seq<char>,
)
    requires
        0 <= i < names.len(),
        entity_steps(components, plugin, parts, names, i as nat).1 is None,
        component_ref(components, plugin, names[i]) == Some(full),
        !components.typed.contains_key(full),
        components.dynamic.contains_key(full),
        dynamic_init(components.dynamic[full].default, parts[names[i]]).1 is Some,
    ensures
        ({
            let (steps, fault) = entity_steps(components, plugin, parts, names, names.len());
            let (value, failed) = dynamic_init(components.dynamic[full].default, parts[names[i]]);
            &&& steps == entity_steps(components, plugin, parts, names, i as nat).0.push(
                InitInfo::Dynamic { name: full, id: components.dynamic[full].id, value },
            )
            &&& fault == Some(InitFault::Field(full, failed->Some_0))
        }),
{
    first_fault_counts(components, plugin, parts, names, (i + 1) as nat, names.len());
}

/// An entity whose plan has no fault gets exactly as many components as it names, in the order of
/// the names: each is the one that its name stands for, a typed one with what the entity says of
/// it, and a dynamic one under its id.
pub proof fn plans_follow_the_names(
    registry: &ComponentRegistry,
    plugin: &str,
    entity: &EntityConfig,
    plan: EntityPlan,
    i: int,
)
    requires
        call_ensures(plan_entity, (registry, plugin, entity), plan),
        plan.failure is None,
        0 <= i < dict::ascending_keys(value::dict_view(entity.components)).len(),
    ensures
        ({
            let parts = value::dict_view(entity.components);
            let names = dict::ascending_keys(parts);
            let full = component_ref(registry@, plugin@, names[i]);
            &&& plan.steps@.len() == names.len()
            &&& full is Some
            &&& registry@.typed.contains_key(full->Some_0) ==> plan.steps@[i]@ == (InitInfo::Typed {
                name: full->Some_0,
                overrides: parts[names[i]],
            })
            &&& !registry@.typed.contains_key(full->Some_0) ==> plan.steps@[i]@ is Dynamic
                && plan.steps@[i]@->Dynamic_name == full->Some_0 && plan.steps@[i]@->id
                == registry@.dynamic[full->Some_0].id && plan.steps@[i]@->value == dynamic_init(
                registry@.dynamic[full->Some_0].default,
                parts[names[i]],
            ).0
        }),
{
    let parts = value::dict_view(entity.components);
    let names = dict::ascending_keys(parts);
    every_named_component_is_planned(registry@, plugin@, parts, names, names.len(), i);
    let infos = step_infos(plan.steps@);
    assert(infos.len() == plan.steps@.len());
    assert(infos[i] == plan.steps@[i]@);
}

/// How a dynamic component of an entity starts is what its default and the entity make of it; if a
/// field does not fit, the error names the component and that field.
pub proof fn failures_name_the_field(
    component: &str,
    default: Value,
    overrides: &Value,
    start: (Value, Option<VmError>),
)
    requires
        call_ensures(init_dynamic_component, (component, default, overrides), start),
    ensures
        start.0@ == dynamic_init(default@, overrides@).0,
        start.1 is Some <==> dynamic_init(default@, overrides@).1 is Some,
        start.1 is Some ==> start.1->Some_0 is InitDynamicField
            && start.1->Some_0->InitDynamicField_component@ == component@
            && start.1->Some_0->InitDynamicField_field@ == dynamic_init(
            default@,
            overrides@,
        ).1->Some_0.0,
        !(default@ is Object && overrides@ is Object) ==> start.0@ == overrides@ && start.1 is None,
{
}

} // verus!
