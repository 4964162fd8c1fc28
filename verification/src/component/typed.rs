//! Typed components: values of engine types, seen as [`Value`] trees.
//!
//! The host turns a component into a tree and back. What is decided about those trees is decided
//! here: how a configured value is laid over the default, and how a write at a path changes the
//! tree that is then turned back into the component.
use vstd::prelude::*;
use vstd::string::*;

use crate::component::TypedComponent;
use crate::dict::Dict;
use crate::entity;
use crate::text;
use crate::value;
use crate::value::{Json, Value};
use crate::world_access::path;
use crate::world_access::path::{PathError, PathFault, ValuePathExt};

verus! {

/// Why the host could not read or write a typed component.
#[derive(Debug, Clone, PartialEq, Eq)]
pub enum TypedComponentError {
    /// The entity does not exist.
    EntityNotFound { entity: u64 },
    /// The entity does not carry the component.
    ComponentNotPresent { entity: u64 },
    /// The component has no tree form.
    Serialize(String),
    /// The tree does not fit the component.
    Deserialize(String),
    /// The type of the component is not known to the host.
    TypeNotRegistered { kind: String },
    /// The type of the component has no default.
    NoReflectDefault,
    /// The type is not that of a component.
    NoReflectComponent,
}

impl TypedComponentError {
    /// The message that describes the error.
    pub open spec fn text(self) -> Seq<char> {
        match self {
            TypedComponentError::EntityNotFound { entity } => "entity "@ + entity::entity_name(entity) + " does not exist"@,
            TypedComponentError::ComponentNotPresent { entity } => "entity "@ + entity::entity_name(entity) + " does not carry this typed component"@,
            TypedComponentError::Serialize(reason) => "failed to serialize component via reflect: "@ + reason@,
            TypedComponentError::Deserialize(reason) => "failed to deserialize value into target component via reflect: "@ + reason@,
            TypedComponentError::TypeNotRegistered { kind } => "component type id "@ + kind@ + " is not registered with TypeRegistry"@,
            TypedComponentError::NoReflectDefault => "component is missing ReflectDefault metadata"@,
            TypedComponentError::NoReflectComponent => "component is missing ReflectComponent metadata"@,
        }
    }

    /// The message that describes the error.
    #[must_use]
    pub fn message(&self) -> (written: String)
        ensures
            written@ == self.text(),
    {
        match self {
            TypedComponentError::EntityNotFound { entity } => text::in_between("entity ", entity::entity_text(*entity).as_str(), " does not exist"),
            TypedComponentError::ComponentNotPresent { entity } => text::in_between("entity ", entity::entity_text(*entity).as_str(), " does not carry this typed component"),
            TypedComponentError::Serialize(reason) => text::followed_by("failed to serialize component via reflect: ", reason.as_str()),
            TypedComponentError::Deserialize(reason) => text::followed_by("failed to deserialize value into target component via reflect: ", reason.as_str()),
            TypedComponentError::TypeNotRegistered { kind } => text::in_between("component type id ", kind.as_str(), " is not registered with TypeRegistry"),
            TypedComponentError::NoReflectDefault => "component is missing ReflectDefault metadata".to_owned(),
            TypedComponentError::NoReflectComponent => "component is missing ReflectComponent metadata".to_owned(),
        }
    }
}

impl TypedComponent {
    /// The tree to build a component from, given the fields that a configuration overrides: they
    /// are laid over the default of the component. Anything but an object stands as it is, and
    /// the default does not matter then.
    pub fn merge_with_default(
        overrides: Value,
        default: Result<Value, TypedComponentError>,
    ) -> (merged: Result<Value, TypedComponentError>)
        ensures
            match merged {
                Ok(v) => if overrides@ is Object {
                    default is Ok && v@ == value::merged(default->Ok_0@, overrides@)
                } else {
                    v@ == overrides@
                },
                Err(e) => overrides@ is Object && default == Err::<Value, TypedComponentError>(e),
            },
    {
        match overrides {
            Value::Object(fields) => match default {
                Ok(default) => Ok(value::merge(default, Value::Object(fields))),
                Err(e) => Err(e),
            },
            other => Ok(other),
        }
    }
}

/// Whether an object has the shape in which an enum is written: one key that starts with an ASCII
/// capital.
pub open spec fn is_variant(map: Map<Seq<char>, Json>) -> bool {
    exists|key: Seq<char>| #[trigger]
        map.contains_key(key) && (forall|other: Seq<char>| #[trigger]
            map.contains_key(other) ==> other == key) && key.len() > 0 && 'A' <= key[0] <= 'Z'
}

/// Whether an object has the shape in which an enum is written.
pub fn looks_like_reflect_enum(map: &Dict<Value>) -> (yes: bool)
    ensures
        yes == is_variant(value::dict_view(*map)),
{
    let ghost all = value::dict_view(*map);
    proof {
        crate::dict::keys_are_the_domain(*map);
    }
    if map.len() != 1 {
        proof {
            if is_variant(all) {
                let key = choose|key: Seq<char>| #[trigger]
                    all.contains_key(key) && (forall|other: Seq<char>| #[trigger]
                        all.contains_key(other) ==> other == key) && key.len() > 0 && 'A' <= key[0]
                        <= 'Z';
                assert(map@.contains_key(key));
                map.more_keys_differ(key);
                let other = choose|other: Seq<char>| #[trigger]
                    map@.contains_key(other) && other != key;
                assert(all.contains_key(other));
            }
        }
        return false;
    }
    let (key, _) = map.entry_at(0);
    let ghost only = key@;
    proof {
        assert forall|other: Seq<char>| #[trigger] all.contains_key(other) implies other == only by {
            assert(map@.contains_key(other));
            let i = choose|i: int| 0 <= i < map.spec_keys().len() && map.spec_keys()[i] == other;
        }
        assert(all.contains_key(only));
    }
    let chars = text::chars_of(key.as_str());
    chars.len() > 0 && 'A' <= chars[0] && chars[0] <= 'Z'
}

/// The tree to write back when `new` is set at `path` of a component that reads as `snapshot`.
///
/// The empty path with an object lays its fields over those of the component, unless either has
/// the shape of an enum, whose variants exclude each other: then it replaces the whole.
pub open spec fn typed_set(snapshot: Json, path: Seq<char>, new: Json) -> Result<Json, PathFault> {
    match (snapshot, new) {
        (Json::Object(a), Json::Object(b)) if path.len() == 0 => Ok(
            if is_variant(a) || is_variant(b) {
                new
            } else {
                value::merged(snapshot, new)
            },
        ),
        _ => path::set_at(snapshot, path::path_segments(path), new),
    }
}

/// The tree to write back when `new` is set at `path` of a component that reads as `snapshot`.
pub fn typed_path_set(snapshot: Value, path: &str, new: Value) -> (written: Result<
    Value,
    PathError,
>)
    ensures
        match written {
            Ok(v) => typed_set(snapshot@, path@, new@) == Ok::<Json, PathFault>(v@),
            Err(e) => typed_set(snapshot@, path@, new@) == Err::<Json, PathFault>(e@),
        },
{
    if path.is_empty() {
        match (snapshot, new) {
            (Value::Object(fields), Value::Object(overrides)) => {
                if looks_like_reflect_enum(&fields) || looks_like_reflect_enum(&overrides) {
                    Ok(Value::Object(overrides))
                } else {
                    Ok(Value::Object(value::merge_fields(fields, overrides)))
                }
            },
            (snapshot, new) => set_in(snapshot, path, new),
        }
    } else {
        set_in(snapshot, path, new)
    }
}

fn set_in(snapshot: Value, path: &str, new: Value) -> (written: Result<Value, PathError>)
    ensures
        match written {
            Ok(v) => path::set_at(snapshot@, path::path_segments(path@), new@) == Ok::<
                Json,
                PathFault,
            >(v@),
            Err(e) => path::set_at(snapshot@, path::path_segments(path@), new@) == Err::<
                Json,
                PathFault,
            >(e@),
        },
{
    let mut snapshot = snapshot;
    match snapshot.path_set(path, new) {
        Ok(()) => Ok(snapshot),
        Err(e) => Err(e),
    }
}

/// Setting the fields of a component at once keeps the fields that are not named and replaces
/// those that are, as long as neither side is an object whose one key starts with a capital.
pub proof fn named_fields_are_replaced_and_others_kept(
    snapshot: Map<Seq<char>, Json>,
    new: Map<Seq<char>, Json>,
    key: Seq<char>,
)
    requires
        forall|v: Seq<char>|
            v.len() > 0 && 'A' <= v[0] <= 'Z' ==> snapshot.dom() != #[trigger] set![v] && new.dom()
                != set![v],
    ensures
        ({
            let written = typed_set(Json::Object(snapshot), Seq::empty(), Json::Object(new));
            &&& written is Ok && written->Ok_0 is Object
            &&& written->Ok_0->Object_0.contains_key(key) <==> snapshot.contains_key(key)
                || new.contains_key(key)
            &&& new.contains_key(key) ==> written->Ok_0->Object_0[key] == new[key]
            &&& snapshot.contains_key(key) && !new.contains_key(key)
                ==> written->Ok_0->Object_0[key] == snapshot[key]
        }),
{
    not_a_variant(snapshot);
    not_a_variant(new);
    value::fields_are_laid_over(snapshot, new, key);
}

proof fn not_a_variant(map: Map<Seq<char>, Json>)
    requires
        forall|v: Seq<char>|
            v.len() > 0 && 'A' <= v[0] <= 'Z' ==> map.dom() != #[trigger] set![v],
    ensures
        !is_variant(map),
{
    if is_variant(map) {
        let k = choose|k: Seq<char>| #[trigger]
            map.contains_key(k) && (forall|other: Seq<char>| #[trigger]
                map.contains_key(other) ==> other == k) && k.len() > 0 && 'A' <= k[0] <= 'Z';
        assert forall|other: Seq<char>| map.dom().contains(other) <==> set![k].contains(other) by {
            assert(map.contains_key(other) == map.dom().contains(other));
        }
        assert(map.dom() =~= set![k]);
    }
}

/// An enum is replaced as a whole: where the component or the new value is an object whose one
/// key starts with a capital, the new value is what is written.
pub proof fn enums_are_replaced_as_a_whole(
    snapshot: Map<Seq<char>, Json>,
    new: Map<Seq<char>, Json>,
    variant: Seq<char>,
)
    requires
        variant.len() > 0,
        'A' <= variant[0] <= 'Z',
        snapshot.dom() == set![variant] || new.dom() == set![variant],
    ensures
        typed_set(Json::Object(snapshot), Seq::empty(), Json::Object(new)) == Ok::<Json, PathFault>(
            Json::Object(new),
        ),
{
    if snapshot.dom() == set![variant] {
        assert(snapshot.contains_key(variant));
        assert forall|other: Seq<char>| #[trigger] snapshot.contains_key(other) implies other
            == variant by {
            assert(snapshot.dom().contains(other));
        }
        assert(is_variant(snapshot));
    } else {
        assert(new.contains_key(variant));
        assert forall|other: Seq<char>| #[trigger] new.contains_key(other) implies other
            == variant by {
            assert(new.dom().contains(other));
        }
        assert(is_variant(new));
    }
}

/// A value that is no object, or one for a component that reads as none, replaces the whole; a
/// value set at a path is what the component then reads as at that path.
pub proof fn a_set_value_is_read_back(snapshot: Json, path: Seq<char>, new: Json)
    ensures
        path.len() == 0 && !(snapshot is Object && new is Object) ==> typed_set(snapshot, path, new)
            == Ok::<Json, PathFault>(new),
        path.len() > 0 && typed_set(snapshot, path, new) is Ok ==> path::get_at(
            typed_set(snapshot, path, new)->Ok_0,
            path::path_segments(path),
        ) == Ok::<Json, PathFault>(new),
{
    if path.len() == 0 {
        assert(path =~= Seq::<char>::empty());
        path::segments_lie_between_dots(path, path, path);
        assert(path::path_segments(path) =~= Seq::<Seq<char>>::empty());
        path::the_empty_path_is_the_root(snapshot, new);
    } else if typed_set(snapshot, path, new) is Ok {
        path::set_then_get(snapshot, path::path_segments(path), new);
    }
}

/// The fields that a configuration gives are laid over the default of a component: they all stand
/// in the result, and so does every field of the default that is not given. Anything but an object
/// stands for itself, whatever became of the default.
pub proof fn given_fields_win_over_the_default(
    overrides: Value,
    default: Result<Value, TypedComponentError>,
    merged: Result<Value, TypedComponentError>,
    key: Seq<char>,
)
    requires
        call_ensures(TypedComponent::merge_with_default, (overrides, default), merged),
    ensures
        !(overrides@ is Object) ==> merged is Ok && merged->Ok_0@ == overrides@,
        overrides@ is Object && default is Err ==> merged is Err && merged->Err_0
            == default->Err_0,
        overrides@ is Object && default is Ok ==> merged is Ok,
        overrides@ is Object && default is Ok && default->Ok_0@ is Object ==> {
            let all = merged->Ok_0@->Object_0;
            let given = overrides@->Object_0;
            let before = default->Ok_0@->Object_0;
            &&& merged->Ok_0@ is Object
            &&& all.contains_key(key) <==> given.contains_key(key) || before.contains_key(key)
            &&& given.contains_key(key) ==> all[key] == given[key]
            &&& before.contains_key(key) && !given.contains_key(key) ==> all[key] == before[key]
        },
        overrides@ is Object && default is Ok && !(default->Ok_0@ is Object) ==> merged->Ok_0@
            == overrides@,
{
    if overrides@ is Object && default is Ok {
        if default->Ok_0@ is Object {
            value::fields_are_laid_over(default->Ok_0@->Object_0, overrides@->Object_0, key);
        } else {
            value::other_values_are_replaced(default->Ok_0@, overrides@);
        }
    }
}

/// An object has the shape of an enum exactly if it has one key and that starts with a capital
/// letter from A to Z.
pub proof fn enums_have_one_capital_key(map: &Dict<Value>, yes: bool, key: Seq<char>, other: Seq<char>)
    requires
        call_ensures(looks_like_reflect_enum, (map,), yes),
        value::dict_view(*map).contains_key(key),
    ensures
        yes ==> key.len() > 0 && 'A' <= key[0] <= 'Z',
        value::dict_view(*map).contains_key(other) && other != key ==> !yes,
        key.len() == 0 ==> !yes,
        (forall|k: Seq<char>| #[trigger] value::dict_view(*map).contains_key(k) ==> k == key)
            && key.len() > 0 && 'A' <= key[0] <= 'Z' ==> yes,
{
}

} // verus!
