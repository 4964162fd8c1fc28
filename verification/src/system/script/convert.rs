//! Conversion between [`Value`] trees and script-side values, both ways.
//!
//! Scripts see plain numbers, strings, arrays and maps. A number becomes an integer where it fits
//! one and a float otherwise.
use vstd::prelude::*;
use vstd::string::*;

use crate::dict::Dict;
use crate::system::script::dynamic;
use crate::system::script::dynamic::{Dynamic, Script};
use crate::text;
use crate::value;
use crate::value::{Json, Number, Value};

verus! {

/// Why a script-side value could not become a [`Value`].
#[derive(Debug, Clone, PartialEq, Eq)]
pub enum ConvertError {
    /// A value reported as a string could not be read as one.
    String { kind: String },
    /// A value reported as an array could not be read as one.
    Array { kind: String },
    /// The type has no [`Value`] form, such as a host type that scripts only pass around.
    Unsupported { kind: String },
}

impl ConvertError {
    /// The message that describes the error.
    pub open spec fn text(self) -> Seq<char> {
        match self {
            ConvertError::String { kind } => "failed to read string value: "@ + kind@,
            ConvertError::Array { kind } => "failed to read array value: "@ + kind@,
            ConvertError::Unsupported { kind } => "script value of type `"@ + kind@ + "` cannot be converted to a JSON value"@,
        }
    }

    /// The message that describes the error.
    #[must_use]
    pub fn message(&self) -> (written: String)
        ensures
            written@ == self.text(),
    {
        match self {
            ConvertError::String { kind } => text::followed_by("failed to read string value: ", kind.as_str()),
            ConvertError::Array { kind } => text::followed_by("failed to read array value: ", kind.as_str()),
            ConvertError::Unsupported { kind } => text::in_between("script value of type `", kind.as_str(), "` cannot be converted to a JSON value"),
        }
    }
}

/// The bit pattern of the double nearest to `n`, ties to even, for `n` of at least `2^63`: the top
/// 53 bits of `n`, rounded by the 11 bits below them, under the exponent of `2^63`.
pub open spec fn nearest_double_bits(n: u64) -> int {
    let kept = n as int / 0x800;
    let dropped = n as int % 0x800;
    let up = dropped > 0x400 || (dropped == 0x400 && kept % 2 == 1);
    0x43e0_0000_0000_0000 + (kept - 0x10_0000_0000_0000) + (if up {
        1int
    } else {
        0int
    })
}

/// The script-side form of a number: an integer where it fits an `i64`, else a float.
pub open spec fn number_script(number: Number) -> Script {
    match number {
        Number::NegInt(n) => Script::Int(n),
        Number::PosInt(n) => if n <= i64::MAX {
            Script::Int(n as i64)
        } else {
            Script::Float(nearest_double_bits(n) as u64)
        },
        Number::Float(bits) => Script::Float(bits),
    }
}

/// The script-side form of a value tree.
pub open spec fn script_of(v: Json) -> Script
    decreases v,
{
    match v {
        Json::Null => Script::Unit,
        Json::Bool(b) => Script::Bool(b),
        Json::Number(n) => number_script(n),
        Json::String(s) => Script::Str(s),
        Json::Array(items) => Script::Array(
            Seq::new(
                items.len(),
                |i: int|
                    if 0 <= i < items.len() {
                        script_of(items[i])
                    } else {
                        Script::Unit
                    },
            ),
        ),
        Json::Object(map) => Script::Object(
            Map::new(
                |k: Seq<char>| map.contains_key(k),
                |k: Seq<char>|
                    if map.contains_key(k) {
                        script_of(map[k])
                    } else {
                        Script::Unit
                    },
            ),
        ),
    }
}

/// The value tree of a script-side value, or the type name of the first part of it, in order, that
/// has no such form. A float that is not finite becomes null and a character becomes a string.
pub open spec fn json_of(s: Script) -> Result<Json, Seq<char>>
    decreases s, 1nat, 0nat,
{
    match s {
        Script::Unit => Ok(Json::Null),
        Script::Bool(b) => Ok(Json::Bool(b)),
        Script::Int(n) => Ok(Json::Number(Number::spec_from_i64(n as int))),
        Script::Float(bits) => Ok(
            if value::finite_bits(bits) {
                Json::Number(Number::Float(bits))
            } else {
                Json::Null
            },
        ),
        Script::Char(c) => Ok(Json::String(seq![c])),
        Script::Str(t) => Ok(Json::String(t)),
        Script::Array(items) => match items_json(items, items.len()) {
            Ok(list) => Ok(Json::Array(list)),
            Err(kind) => Err(kind),
        },
        Script::Object(map) => {
            let keys = crate::dict::ascending_keys(map);
            match entries_json(s, keys, keys.len()) {
                Ok(object) => Ok(Json::Object(object)),
                Err(kind) => Err(kind),
            }
        },
        Script::Other(kind) => Err(kind),
    }
}

/// The value trees of the first `n` items.
pub open spec fn items_json(items: Seq<Script>, n: nat) -> Result<Seq<Json>, Seq<char>>
    decreases items, 0nat, n,
{
    if n == 0 || n > items.len() {
        Ok(Seq::empty())
    } else {
        match items_json(items, (n - 1) as nat) {
            Err(kind) => Err(kind),
            Ok(done) => match json_of(items[n - 1]) {
                Ok(v) => Ok(done.push(v)),
                Err(kind) => Err(kind),
            },
        }
    }
}

/// The value trees that the map `s` holds under the first `n` of `keys`.
pub open spec fn entries_json(s: Script, keys: Seq<Seq<char>>, n: nat) -> Result<
    Map<Seq<char>, Json>,
    Seq<char>,
>
    decreases s, 0nat, n,
{
    if n == 0 || n > keys.len() {
        Ok(Map::empty())
    } else {
        match entries_json(s, keys, (n - 1) as nat) {
            Err(kind) => Err(kind),
            Ok(done) => match s {
                Script::Object(map) => if map.contains_key(keys[n - 1]) {
                    match json_of(map[keys[n - 1]]) {
                        Ok(v) => Ok(done.insert(keys[n - 1], v)),
                        Err(kind) => Err(kind),
                    }
                } else {
                    Ok(done)
                },
                _ => Ok(done),
            },
        }
    }
}

/// Converts a number to its script-side form.
fn number_to_dynamic(number: &Number) -> (d: Dynamic)
    ensures
        d@ == number_script(*number),
{
    match number {
        Number::NegInt(n) => Dynamic::Int(*n),
        Number::PosInt(n) => {
            let n = *n;
            if n <= 0x7fff_ffff_ffff_ffff {
                Dynamic::Int(n as i64)
            } else {
                let kept: u64 = n / 0x800;
                let dropped: u64 = n % 0x800;
                let base: u64 = 0x43e0_0000_0000_0000 + (kept - 0x10_0000_0000_0000);
                if dropped > 0x400 || (dropped == 0x400 && kept % 2 == 1) {
                    Dynamic::Float(base + 1)
                } else {
                    Dynamic::Float(base)
                }
            }
        },
        Number::Float(bits) => Dynamic::Float(*bits),
    }
}

/// Converts a value tree to its script-side form.
pub fn to_dynamic(value: &Value) -> (d: Dynamic)
    ensures
        d@ == script_of(value@),
    decreases value,
{
    match value {
        Value::Null => Dynamic::Unit,
        Value::Bool(b) => Dynamic::Bool(*b),
        Value::String(s) => Dynamic::Str(s.clone()),
        Value::Number(number) => number_to_dynamic(number),
        Value::Array(items) => {
            let mut list: Vec<Dynamic> = Vec::new();
            let mut i: usize = 0;
            while i < items.len()
                invariant
                    i <= items.len(),
                    value == Value::Array(*items),
                    list.len() == i,
                    forall|j: int| 0 <= j < i ==> (#[trigger] list[j])@ == script_of(items[j]@),
                decreases items.len() - i,
            {
                proof {
                    assert(decreases_to!(*value => value->Array_0));
                    assert(decreases_to!(value->Array_0 => value->Array_0@));
                    assert(decreases_to!(value->Array_0@ => value->Array_0@[i as int]));
                }
                list.push(to_dynamic(&items[i]));
                i += 1;
            }
            proof {
                assert(value@ == Json::Array(value::items_view(items@)));
                assert(dynamic::items_view(list@) =~= script_of(value@)->Array_0);
            }
            Dynamic::Array(list)
        },
        Value::Object(dict) => {
            let mut entries: Dict<Dynamic> = Dict::new();
            let mut i: usize = 0;
            while i < dict.len()
                invariant
                    i <= dict.spec_keys().len(),
                    value == Value::Object(*dict),
                    forall|k: Seq<char>| #[trigger]
                        entries@.contains_key(k) ==> dict@.contains_key(k) && entries@[k]@
                            == script_of(dict@[k]@),
                    forall|j: int|
                        0 <= j < i ==> entries@.contains_key(#[trigger] dict.spec_keys()[j]),
                decreases dict.spec_keys().len() - i,
            {
                let (key, item) = dict.entry_at(i);
                proof {
                    crate::dict::dict_value_is_smaller(*dict, key@);
                    assert(decreases_to!(*value => value->Object_0));
                }
                entries.insert(key.clone(), to_dynamic(item));
                i += 1;
            }
            proof {
                crate::dict::keys_are_the_domain(*dict);
                assert(value@ == Json::Object(value::dict_view(*dict)));
                assert(dynamic::dict_view(entries) =~= script_of(value@)->Object_0);
            }
            Dynamic::Object(entries)
        },
    }
}

/// Converts a script-side value to a value tree. Fails on the first part of it that has no such
/// form.
pub fn from_dynamic(value: Dynamic) -> (converted: Result<Value, ConvertError>)
    ensures
        match converted {
            Ok(v) => json_of(value@) == Ok::<Json, Seq<char>>(v@),
            Err(e) => e is Unsupported && json_of(value@) == Err::<Json, Seq<char>>(
                e->Unsupported_kind@,
            ),
        },
{
    convert(&value)
}

fn convert(value: &Dynamic) -> (converted: Result<Value, ConvertError>)
    ensures
        match converted {
            Ok(v) => json_of(value@) == Ok::<Json, Seq<char>>(v@),
            Err(e) => e is Unsupported && json_of(value@) == Err::<Json, Seq<char>>(
                e->Unsupported_kind@,
            ),
        },
    decreases value,
{
    match value {
        Dynamic::Unit => Ok(Value::Null),
        Dynamic::Bool(b) => Ok(Value::Bool(*b)),
        Dynamic::Int(n) => Ok(Value::Number(Number::from_i64(*n))),
        Dynamic::Float(bits) => match Number::from_bits(*bits) {
            Some(number) => Ok(Value::Number(number)),
            None => Ok(Value::Null),
        },
        Dynamic::Char(c) => Ok(Value::String(text::char_text(*c))),
        Dynamic::Str(s) => Ok(Value::String(s.clone())),
        Dynamic::Array(items) => {
            let ghost all = dynamic::items_view(items@);
            assert(value@ == Script::Array(all));
            let mut list: Vec<Value> = Vec::new();
            let mut i: usize = 0;
            assert(value::items_view(list@) =~= Seq::<Json>::empty());
            while i < items.len()
                invariant
                    i <= items.len(),
                    value == Dynamic::Array(*items),
                    value@ == Script::Array(all),
                    all == dynamic::items_view(items@),
                    items_json(all, i as nat) == Ok::<Seq<Json>, Seq<char>>(
                        value::items_view(list@),
                    ),
                decreases items.len() - i,
            {
                proof {
                    assert(decreases_to!(*value => value->Array_0));
                    assert(decreases_to!(value->Array_0 => value->Array_0@));
                    assert(decreases_to!(value->Array_0@ => value->Array_0@[i as int]));
                    assert(all[i as int] == items@[i as int]@);
                }
                let ghost before = list@;
                match convert(&items[i]) {
                    Ok(v) => {
                        list.push(v);
                        assert(value::items_view(list@) =~= value::items_view(before).push(v@));
                    },
                    Err(e) => {
                        proof {
                            error_reaches_the_end(all, (i + 1) as nat, all.len());
                        }
                        return Err(e);
                    },
                }
                i += 1;
            }
            Ok(Value::Array(list))
        },
        Dynamic::Object(dict) => map_from_dynamic(value, dict),
        Dynamic::Other(name) => Err(ConvertError::Unsupported { kind: name.clone() }),
    }
}

proof fn error_reaches_the_end(items: Seq<Script>, n: nat, m: nat)
    requires
        n <= m <= items.len(),
        items_json(items, n) is Err,
    ensures
        items_json(items, m) == items_json(items, n),
    decreases m,
{
    if n < m {
        error_reaches_the_end(items, n, (m - 1) as nat);
    }
}

proof fn entry_error_reaches_the_end(s: Script, keys: Seq<Seq<char>>, n: nat, m: nat)
    requires
        n <= m <= keys.len(),
        entries_json(s, keys, n) is Err,
    ensures
        entries_json(s, keys, m) == entries_json(s, keys, n),
    decreases m,
{
    if n < m {
        entry_error_reaches_the_end(s, keys, n, (m - 1) as nat);
    }
}

/// Converts the entries of a script-side map, in key order.
fn map_from_dynamic(value: &Dynamic, dict: &Dict<Dynamic>) -> (converted: Result<
    Value,
    ConvertError,
>)
    requires
        value == Dynamic::Object(*dict),
    ensures
        match converted {
            Ok(v) => json_of(value@) == Ok::<Json, Seq<char>>(v@),
            Err(e) => e is Unsupported && json_of(value@) == Err::<Json, Seq<char>>(
                e->Unsupported_kind@,
            ),
        },
    decreases *dict,
{
    let ghost map = dynamic::dict_view(*dict);
    assert(value@ == Script::Object(map));
    let keys = dict.keys();
    let ghost order = crate::dict::ascending_keys(map);
    proof {
        assert forall|k: Seq<char>| #[trigger] map.contains_key(k) <==> dict.spec_keys().contains(
            k,
        ) by {
            assert(map.contains_key(k) == dict@.contains_key(k));
        }
        crate::dict::ascending_keys_are(map, dict.spec_keys());
    }
    let mut object: Dict<Value> = Dict::new();
    let mut i: usize = 0;
    assert(value::dict_view(object) =~= Map::empty());
    while i < keys.len()
        invariant
            i <= keys.len(),
            value@ == Script::Object(map),
            map == dynamic::dict_view(*dict),
            order == crate::dict::ascending_keys(map),
            order == text::texts(keys@),
            order == dict.spec_keys(),
            forall|k: Seq<char>| #[trigger] map.contains_key(k) <==> order.contains(k),
            entries_json(value@, order, i as nat) == Ok::<Map<Seq<char>, Json>, Seq<char>>(
                value::dict_view(object),
            ),
        decreases keys.len() - i,
    {
        let (key, item) = dict.entry_at(i);
        proof {
            crate::dict::dict_value_is_smaller(*dict, key@);
            assert(order[i as int] == key@);
            assert(map[key@] == item@);
        }
        let ghost before = value::dict_view(object);
        match convert(item) {
            Ok(v) => {
                object.insert(key.clone(), v);
                assert(value::dict_view(object) =~= before.insert(key@, v@));
            },
            Err(e) => {
                proof {
                    entry_error_reaches_the_end(value@, order, (i + 1) as nat, order.len());
                }
                return Err(e);
            },
        }
        i += 1;
    }
    Ok(Value::Object(object))
}

/// Whether a value tree is finite and its numbers keep their form on the script side: floats are
/// finite, and integers fit an `i64`.
pub open spec fn keeps_its_form(v: Json) -> bool
    decreases v,
{
    match v {
        Json::Number(Number::PosInt(n)) => n <= i64::MAX,
        Json::Number(n) => n.wf(),
        Json::Array(items) => forall|i: int|
            0 <= i < items.len() ==> keeps_its_form(#[trigger] items[i]),
        Json::Object(map) => map.dom().finite() && forall|k: Seq<char>|
            map.contains_key(k) ==> keeps_its_form(#[trigger] map[k]),
        _ => true,
    }
}

/// A value tree that goes to the script side and back is unchanged. Only integers above the `i64`
/// range change form: they come back as floats.
pub proof fn value_round_trip(v: Json)
    requires
        keeps_its_form(v),
    ensures
        json_of(script_of(v)) == Ok::<Json, Seq<char>>(v),
    decreases v,
{
    let s = script_of(v);
    match v {
        Json::Array(items) => {
            let list = s->Array_0;
            assert forall|i: int| 0 <= i < items.len() implies json_of(#[trigger] list[i]) == Ok::<
                Json,
                Seq<char>,
            >(items[i]) by {
                value_round_trip(items[i]);
            }
            items_json_are(list, items, items.len());
            assert(items.take(items.len() as int) =~= items);
        },
        Json::Object(map) => {
            let entries = s->Object_0;
            assert(entries.dom() =~= map.dom());
            assert forall|k: Seq<char>| map.contains_key(k) implies json_of(
                #[trigger] entries[k],
            ) == Ok::<Json, Seq<char>>(map[k]) by {
                value_round_trip(map[k]);
            }
            let keys = crate::dict::ascending_keys(entries);
            crate::dict::ascending_keys_list_the_domain(entries);
            entries_json_are(s, keys, map, keys.len());
            let got = entries_json(s, keys, keys.len())->Ok_0;
            assert forall|k: Seq<char>| #[trigger] map.contains_key(k) implies got.contains_key(
                k,
            ) by {
                assert(entries.contains_key(k));
                let x = choose|x: int| 0 <= x < keys.len() && keys[x] == k;
                assert(keys.take(keys.len() as int)[x] == k);
            }
            assert forall|k: Seq<char>| #[trigger] got.contains_key(k) implies map.contains_key(
                k,
            ) by {
                let taken = keys.take(keys.len() as int);
                assert(taken =~= keys);
                assert(entries.contains_key(k));
            }
            assert(got.dom() =~= map.dom());
            assert(got =~= map);
        },
        _ => {},
    }
}

proof fn items_json_are(list: Seq<Script>, items: Seq<Json>, n: nat)
    requires
        list.len() == items.len(),
        n <= items.len(),
        forall|i: int|
            0 <= i < items.len() ==> json_of(#[trigger] list[i]) == Ok::<Json, Seq<char>>(items[i]),
    ensures
        items_json(list, n) == Ok::<Seq<Json>, Seq<char>>(items.take(n as int)),
    decreases n,
{
    if n == 0 {
        assert(items.take(0) =~= Seq::<Json>::empty());
    } else {
        items_json_are(list, items, (n - 1) as nat);
        assert(json_of(list[n - 1]) == Ok::<Json, Seq<char>>(items[n - 1]));
        assert(items.take(n - 1).push(items[n - 1]) =~= items.take(n as int));
    }
}

proof fn entries_json_are(s: Script, keys: Seq<Seq<char>>, map: Map<Seq<char>, Json>, n: nat)
    requires
        s is Object,
        n <= keys.len(),
        forall|k: Seq<char>| #[trigger]
            s->Object_0.contains_key(k) <==> keys.contains(k),
        forall|k: Seq<char>|
            s->Object_0.contains_key(k) ==> json_of(#[trigger] s->Object_0[k]) == Ok::<
                Json,
                Seq<char>,
            >(map[k]),
    ensures
        entries_json(s, keys, n) is Ok,
        forall|k: Seq<char>| #[trigger]
            entries_json(s, keys, n)->Ok_0.contains_key(k) <==> keys.take(n as int).contains(k),
        forall|k: Seq<char>|
            keys.take(n as int).contains(k) ==> #[trigger] entries_json(s, keys, n)->Ok_0[k]
                == map[k],
    decreases n,
{
    if n == 0 {
        assert(keys.take(0) =~= Seq::<Seq<char>>::empty());
    } else {
        entries_json_are(s, keys, map, (n - 1) as nat);
        let key = keys[n - 1];
        assert(keys.contains(key));
        assert(s->Object_0.contains_key(key));
        assert(json_of(s->Object_0[key]) == Ok::<Json, Seq<char>>(map[key]));
        let before = keys.take(n - 1);
        let after = keys.take(n as int);
        assert(after =~= before.push(key));
        assert forall|k: Seq<char>| after.contains(k) <==> (before.contains(k) || k == key) by {
            if after.contains(k) {
                let x = choose|x: int| 0 <= x < after.len() && after[x] == k;
                if x < n - 1 {
                    assert(before[x] == k);
                }
            }
            if before.contains(k) {
                let x = choose|x: int| 0 <= x < before.len() && before[x] == k;
                assert(after[x] == k);
            }
            if k == key {
                assert(after[n - 1] == k);
            }
        }
    }
}

/// An array goes to the script side item by item: as many items, each in its place.
pub proof fn arrays_reach_scripts_in_order(items: Seq<Json>, i: int)
    requires
        0 <= i < items.len(),
    ensures
        script_of(Json::Array(items)) is Array,
        script_of(Json::Array(items))->Array_0.len() == items.len(),
        script_of(Json::Array(items))->Array_0[i] == script_of(items[i]),
{
}

/// An object goes to the script side key by key.
pub proof fn objects_reach_scripts_by_key(map: Map<Seq<char>, Json>, key: Seq<char>)
    ensures
        script_of(Json::Object(map)) is Object,
        script_of(Json::Object(map))->Object_0.contains_key(key) <==> map.contains_key(key),
        map.contains_key(key) ==> script_of(Json::Object(map))->Object_0[key] == script_of(map[key]),
{
}

/// Scripts see null as unit, and truth values, texts, whole numbers of an `i64` and floats with
/// the content they have; coming back, each keeps its content, and a character is a text of one.
pub proof fn plain_values_keep_their_content(b: bool, n: i64, bits: u64, t: Seq<char>, c: char)
    ensures
        script_of(Json::Null) == Script::Unit,
        script_of(Json::Bool(b)) == Script::Bool(b),
        script_of(Json::String(t)) == Script::Str(t),
        n >= 0 ==> script_of(Json::Number(Number::PosInt(n as u64))) == Script::Int(n),
        n < 0 ==> script_of(Json::Number(Number::NegInt(n))) == Script::Int(n),
        script_of(Json::Number(Number::Float(bits))) == Script::Float(bits),
        json_of(Script::Unit) == Ok::<Json, Seq<char>>(Json::Null),
        json_of(Script::Bool(b)) == Ok::<Json, Seq<char>>(Json::Bool(b)),
        json_of(Script::Str(t)) == Ok::<Json, Seq<char>>(Json::String(t)),
        json_of(Script::Char(c)) == Ok::<Json, Seq<char>>(Json::String(seq![c])),
        n >= 0 ==> json_of(Script::Int(n)) == Ok::<Json, Seq<char>>(
            Json::Number(Number::PosInt(n as u64)),
        ),
        n < 0 ==> json_of(Script::Int(n)) == Ok::<Json, Seq<char>>(Json::Number(Number::NegInt(n))),
        bits % 0x8000_0000_0000_0000 < 0x7ff0_0000_0000_0000 ==> json_of(Script::Float(bits))
            == Ok::<Json, Seq<char>>(Json::Number(Number::Float(bits))),
        bits % 0x8000_0000_0000_0000 >= 0x7ff0_0000_0000_0000 ==> json_of(Script::Float(bits))
            == Ok::<Json, Seq<char>>(Json::Null),
        json_of(Script::Other(t)) == Err::<Json, Seq<char>>(t),
{
    value::finite_doubles_lie_below_infinity(bits);
}

/// A whole number above the `i64` range becomes the float nearest to it: in steps of 2048, which
/// is how far apart doubles of that size are, it is off by half a step at most, and a tie goes to
/// the even step.
pub proof fn large_numbers_are_rounded_to_nearest(n: u64)
    requires
        n > i64::MAX,
    ensures
        script_of(Json::Number(Number::PosInt(n))) is Float,
        ({
            let bits = script_of(Json::Number(Number::PosInt(n)))->Float_0;
            let steps = bits - 0x43e0_0000_0000_0000 + 0x10_0000_0000_0000;
            &&& -0x400 <= n - steps * 0x800 <= 0x400
            &&& (n - steps * 0x800 == 0x400 || n - steps * 0x800 == -0x400) ==> steps % 2 == 0
        }),
{
}

proof fn first_items_json(items: Seq<Script>, n: nat)
    requires
        n <= items.len(),
    ensures
        items_json(items, n) is Ok ==> items_json(items, n)->Ok_0.len() == n && forall|i: int|
            0 <= i < n ==> json_of(items[i]) == Ok::<Json, Seq<char>>(
                #[trigger] items_json(items, n)->Ok_0[i],
            ),
        items_json(items, n) is Err ==> exists|i: int|
            {
                &&& 0 <= i < n
                &&& json_of(#[trigger] items[i]) == Err::<Json, Seq<char>>(
                    items_json(items, n)->Err_0,
                )
                &&& forall|j: int| 0 <= j < i ==> json_of(#[trigger] items[j]) is Ok
            },
    decreases n,
{
    if n > 0 {
        first_items_json(items, (n - 1) as nat);
        let shorter = items_json(items, (n - 1) as nat);
        if shorter is Ok {
            let last = items[n - 1];
            assert forall|j: int| 0 <= j < n - 1 implies json_of(#[trigger] items[j]) is Ok by {
                assert(json_of(items[j]) == Ok::<Json, Seq<char>>(shorter->Ok_0[j]));
            }
            if json_of(last) is Ok {
                let longer = items_json(items, n)->Ok_0;
                assert(longer == shorter->Ok_0.push(json_of(last)->Ok_0));
                assert forall|i: int| 0 <= i < n implies json_of(items[i]) == Ok::<Json, Seq<char>>(
                    #[trigger] longer[i],
                ) by {
                    if i < n - 1 {
                        assert(longer[i] == shorter->Ok_0[i]);
                    }
                }
            } else {
                assert(json_of(items[n - 1]) == Err::<Json, Seq<char>>(items_json(items, n)->Err_0));
            }
        }
    }
}

/// An array comes back from the script side item by item, each in its place. It fails exactly if
/// an item does, with what the first such item fails with.
pub proof fn arrays_come_back_in_order(items: Seq<Script>)
    ensures
        match json_of(Script::Array(items)) {
            Ok(v) => v is Array && v->Array_0.len() == items.len() && forall|i: int|
                0 <= i < items.len() ==> json_of(items[i]) == Ok::<Json, Seq<char>>(
                    #[trigger] v->Array_0[i],
                ),
            Err(kind) => exists|i: int|
                {
                    &&& 0 <= i < items.len()
                    &&& json_of(#[trigger] items[i]) == Err::<Json, Seq<char>>(kind)
                    &&& forall|j: int| 0 <= j < i ==> json_of(#[trigger] items[j]) is Ok
                },
        },
{
    first_items_json(items, items.len());
}

proof fn first_entries_json(map: Map<Seq<char>, Script>, keys: Seq<Seq<char>>, n: nat)
    requires
        n <= keys.len(),
        forall|i: int| 0 <= i < keys.len() ==> map.contains_key(#[trigger] keys[i]),
    ensures
        ({
            let got = entries_json(Script::Object(map), keys, n);
            &&& got is Ok ==> forall|k: Seq<char>|
                {
                    &&& #[trigger] got->Ok_0.contains_key(k) <==> keys.take(n as int).contains(k)
                    &&& got->Ok_0.contains_key(k) ==> json_of(map[k]) == Ok::<Json, Seq<char>>(
                        got->Ok_0[k],
                    )
                }
            &&& got is Err ==> exists|i: int|
                {
                    &&& 0 <= i < n
                    &&& json_of(map[#[trigger] keys[i]]) == Err::<Json, Seq<char>>(got->Err_0)
                    &&& forall|j: int| 0 <= j < i ==> json_of(map[#[trigger] keys[j]]) is Ok
                }
        }),
    decreases n,
{
    let s = Script::Object(map);
    if n == 0 {
        assert(keys.take(0) =~= Seq::<Seq<char>>::empty());
    } else {
        first_entries_json(map, keys, (n - 1) as nat);
        let shorter = entries_json(s, keys, (n - 1) as nat);
        let key = keys[n - 1];
        text::take_one_more(keys, n - 1);
        if shorter is Ok {
            assert forall|j: int| 0 <= j < n - 1 implies json_of(map[#[trigger] keys[j]]) is Ok by {
                assert(keys.take(n - 1)[j] == keys[j]);
                assert(shorter->Ok_0.contains_key(keys[j]));
            }
            if json_of(map[key]) is Ok {
                let got = entries_json(s, keys, n)->Ok_0;
                assert(got == shorter->Ok_0.insert(key, json_of(map[key])->Ok_0));
                assert forall|k: Seq<char>|
                    (#[trigger] got.contains_key(k) <==> keys.take(n as int).contains(k)) && (
                    got.contains_key(k) ==> json_of(map[k]) == Ok::<Json, Seq<char>>(got[k])) by {
                    assert(shorter->Ok_0.contains_key(k) <==> keys.take(n - 1).contains(k));
                    assert(keys.take(n as int) == keys.take(n - 1 + 1));
                    assert(keys.take(n - 1 + 1).contains(k) <==> keys.take(n - 1).contains(k) || k
                        == key);
                    assert(got.contains_key(k) <==> shorter->Ok_0.contains_key(k) || k == key);
                    if k != key && got.contains_key(k) {
                        assert(got[k] == shorter->Ok_0[k]);
                    }
                }
            } else {
                assert(json_of(map[keys[n - 1]]) == Err::<Json, Seq<char>>(
                    entries_json(s, keys, n)->Err_0,
                ));
            }
        }
    }
}

/// A map comes back from the script side key by key. It fails exactly if an entry does, with what
/// the entry with the first such key fails with.
pub proof fn maps_come_back_by_key(map: Map<Seq<char>, Script>)
    requires
        map.dom().finite(),
    ensures
        match json_of(Script::Object(map)) {
            Ok(v) => v is Object && v->Object_0.dom() == map.dom() && forall|k: Seq<char>|
                map.contains_key(k) ==> json_of(map[k]) == Ok::<Json, Seq<char>>(
                    #[trigger] v->Object_0[k],
                ),
            Err(kind) => exists|key: Seq<char>|
                {
                    &&& map.contains_key(key)
                    &&& json_of(#[trigger] map[key]) == Err::<Json, Seq<char>>(kind)
                    &&& forall|other: Seq<char>|
                        map.contains_key(other) && text::precedes(other, key) ==> json_of(
                            #[trigger] map[other],
                        ) is Ok
                },
        },
{
    let keys = crate::dict::ascending_keys(map);
    crate::dict::ascending_keys_list_the_domain(map);
    assert forall|i: int| 0 <= i < keys.len() implies map.contains_key(#[trigger] keys[i]) by {
        assert(keys.contains(keys[i]));
    }
    first_entries_json(map, keys, keys.len());
    assert(keys.take(keys.len() as int) =~= keys);
    let got = entries_json(Script::Object(map), keys, keys.len());
    match json_of(Script::Object(map)) {
        Ok(v) => {
            assert forall|k: Seq<char>| #[trigger] map.contains_key(k) <==> got->Ok_0.contains_key(k) by {
                assert(got->Ok_0.contains_key(k) <==> keys.contains(k));
            }
            assert(v->Object_0.dom() =~= map.dom());
            assert forall|k: Seq<char>| map.contains_key(k) implies json_of(map[k]) == Ok::<
                Json,
                Seq<char>,
            >(#[trigger] v->Object_0[k]) by {
                assert(got->Ok_0.contains_key(k));
            }
        },
        Err(kind) => {
            let i = choose|i: int|
                {
                    &&& 0 <= i < keys.len()
                    &&& json_of(map[#[trigger] keys[i]]) == Err::<Json, Seq<char>>(got->Err_0)
                    &&& forall|j: int| 0 <= j < i ==> json_of(map[#[trigger] keys[j]]) is Ok
                };
            let key = keys[i];
            assert forall|other: Seq<char>|
                map.contains_key(other) && text::precedes(other, key) implies json_of(
                #[trigger] map[other],
            ) is Ok by {
                assert(keys.contains(other));
                let j = choose|j: int| 0 <= j < keys.len() && keys[j] == other;
                if j > i {
                    text::precedes_transitive(key, other, key);
                }
                text::precedes_irreflexive(key);
                assert(j < i);
            }
        },
    }
}

/// Converting an array to the script side and converting its items give the same values, place by
/// place.
pub proof fn converting_an_array_converts_its_items(
    items: Vec<Value>,
    whole: Dynamic,
    i: int,
    item: Dynamic,
)
    requires
        call_ensures(to_dynamic, (&Value::Array(items),), whole),
        0 <= i < items@.len(),
        call_ensures(to_dynamic, (&items@[i],), item),
    ensures
        whole@ is Array,
        whole@->Array_0.len() == items@.len(),
        whole@->Array_0[i] == item@,
{
    let value = Value::Array(items);
    assert(value@ == Json::Array(value::items_view(items@)));
    arrays_reach_scripts_in_order(value::items_view(items@), i);
}

/// Converting an array from the script side and converting its items give the same values, place
/// by place, and the array can be converted only if each item can.
pub proof fn converting_an_array_back_converts_its_items(
    items: Vec<Dynamic>,
    whole: Result<Value, ConvertError>,
    i: int,
    item: Result<Value, ConvertError>,
)
    requires
        call_ensures(from_dynamic, (Dynamic::Array(items),), whole),
        0 <= i < items@.len(),
        call_ensures(from_dynamic, (items@[i],), item),
    ensures
        item is Err ==> whole is Err,
        whole is Ok ==> item is Ok && whole->Ok_0@ is Array && whole->Ok_0@->Array_0.len()
            == items@.len() && whole->Ok_0@->Array_0[i] == item->Ok_0@,
{
    let value = Dynamic::Array(items);
    let list = dynamic::items_view(items@);
    assert(value@ == Script::Array(list));
    assert(list[i] == items@[i]@);
    arrays_come_back_in_order(list);
    if whole is Ok {
        assert(json_of(list[i]) == Ok::<Json, Seq<char>>(whole->Ok_0@->Array_0[i]));
    }
}

/// Converting a map to the script side and converting its entries give the same values, key by key.
pub proof fn converting_an_object_converts_its_fields(
    dict: Dict<Value>,
    whole: Dynamic,
    key: Seq<char>,
    field: Dynamic,
)
    requires
        call_ensures(to_dynamic, (&Value::Object(dict),), whole),
        dict@.contains_key(key),
        call_ensures(to_dynamic, (&dict@[key],), field),
    ensures
        whole@ is Object,
        whole@->Object_0.dom() == dict@.dom(),
        whole@->Object_0[key] == field@,
{
    let value = Value::Object(dict);
    let map = value::dict_view(dict);
    assert(value@ == Json::Object(map));
    objects_reach_scripts_by_key(map, key);
    assert(map[key] == dict@[key]@);
    assert(whole@->Object_0.dom() =~= dict@.dom());
}

/// A value that is converted to the script side and back is what it was, as long as its numbers
/// keep their form.
pub proof fn converting_there_and_back_changes_nothing(
    value: Value,
    there: Dynamic,
    back: Result<Value, ConvertError>,
)
    requires
        keeps_its_form(value@),
        call_ensures(to_dynamic, (&value,), there),
        call_ensures(from_dynamic, (there,), back),
    ensures
        back is Ok,
        back->Ok_0@ == value@,
{
    value_round_trip(value@);
}

} // verus!
