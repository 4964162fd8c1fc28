//! The value tree that components, events and configuration carry.
use vstd::prelude::*;

use crate::dict::Dict;

verus! {

/// A number as it is written in a document: a non-negative integer, a negative integer, or a
/// double-precision float held by its IEEE 754 bit pattern.
#[derive(Clone, Copy, Debug, PartialEq, Eq, Structural)]
pub enum Number {
    PosInt(u64),
    NegInt(i64),
    Float(u64),
}

/// Whether the bit pattern is that of a finite double: its exponent field is not all ones.
pub open spec fn finite_bits(bits: u64) -> bool {
    (bits / 0x10_0000_0000_0000) % 0x800 != 0x7ff
}

/// Whether the bit pattern is that of a finite double.
pub fn is_finite(bits: u64) -> (finite: bool)
    ensures
        finite == finite_bits(bits),
{
    (bits / 0x10_0000_0000_0000) % 0x800 != 0x7ff
}

impl Number {
    /// The forms a document can hold: a negative integer is below zero and a float is finite.
    pub open spec fn wf(self) -> bool {
        match self {
            Number::PosInt(_) => true,
            Number::NegInt(n) => n < 0,
            Number::Float(bits) => finite_bits(bits),
        }
    }

    /// The number for a signed integer.
    pub fn from_i64(n: i64) -> (number: Number)
        ensures
            number == Number::spec_from_i64(n as int),
            number.wf(),
    {
        if n < 0 {
            Number::NegInt(n)
        } else {
            Number::PosInt(n as u64)
        }
    }

    pub open spec fn spec_from_i64(n: int) -> Number {
        if n < 0 {
            Number::NegInt(n as i64)
        } else {
            Number::PosInt(n as u64)
        }
    }

    /// The number for a float, unless it is infinite or not a number.
    pub fn from_bits(bits: u64) -> (number: Option<Number>)
        ensures
            number == (if finite_bits(bits) {
                Some(Number::Float(bits))
            } else {
                None
            }),
    {
        if is_finite(bits) {
            Some(Number::Float(bits))
        } else {
            None
        }
    }
}

/// A value tree: what a JSON document can hold.
#[derive(Debug, PartialEq, Eq)]
pub enum Value {
    Null,
    Bool(bool),
    Number(Number),
    String(String),
    Array(Vec<Value>),
    Object(Dict<Value>),
}

/// The mathematical content of a value tree.
#[verifier::ext_equal]
pub enum Json {
    Null,
    Bool(bool),
    Number(Number),
    String(Seq<char>),
    Array(Seq<Json>),
    Object(Map<Seq<char>, Json>),
}

impl View for Value {
    type V = Json;

    open spec fn view(&self) -> Json
        decreases self,
    {
        match self {
            Value::Null => Json::Null,
            Value::Bool(b) => Json::Bool(*b),
            Value::Number(n) => Json::Number(*n),
            Value::String(s) => Json::String(s@),
            Value::Array(items) => Json::Array(items_view(items@)),
            Value::Object(dict) => Json::Object(dict_view(*dict)),
        }
    }
}

pub open spec fn items_view(items: Seq<Value>) -> Seq<Json>
    decreases items,
{
    Seq::new(
        items.len(),
        |i: int|
            if 0 <= i < items.len() {
                items[i]@
            } else {
                Json::Null
            },
    )
}

pub open spec fn dict_view(dict: Dict<Value>) -> Map<Seq<char>, Json>
    decreases dict,
{
    proof {
        broadcast use crate::dict::dict_value_is_smaller;
    }
    Map::new(
        |key: Seq<char>| dict@.contains_key(key),
        |key: Seq<char>|
            if dict@.contains_key(key) {
                dict@[key]@
            } else {
                Json::Null
            },
    )
}

impl Value {
    /// An object with no entries.
    pub fn empty_object() -> (value: Value)
        ensures
            value@ == Json::Object(Map::empty()),
    {
        let value = Value::Object(Dict::new());
        assert(dict_view(value->Object_0) =~= Map::empty());
        value
    }
}

impl Clone for Value {
    fn clone(&self) -> (copy: Value)
        ensures
            copy@ == self@,
        decreases self,
    {
        match self {
            Value::Null => Value::Null,
            Value::Bool(b) => Value::Bool(*b),
            Value::Number(n) => Value::Number(*n),
            Value::String(s) => Value::String(s.clone()),
            Value::Array(items) => {
                let mut copies: Vec<Value> = Vec::new();
                let mut i: usize = 0;
                while i < items.len()
                    invariant
                        i <= items.len(),
                        self == Value::Array(*items),
                        copies.len() == i,
                        forall|j: int| 0 <= j < i ==> (#[trigger] copies[j])@ == items[j]@,
                    decreases items.len() - i,
                {
                    proof {
                        assert(decreases_to!(*self => self->Array_0));
                        assert(decreases_to!(self->Array_0 => self->Array_0@));
                        assert(decreases_to!(self->Array_0@ => self->Array_0@[i as int]));
                    }
                    copies.push(items[i].clone());
                    i += 1;
                }
                assert(items_view(copies@) =~= items_view(items@));
                Value::Array(copies)
            },
            Value::Object(dict) => {
                let mut copies: Dict<Value> = Dict::new();
                let mut i: usize = 0;
                while i < dict.len()
                    invariant
                        i <= dict.spec_keys().len(),
                        self == Value::Object(*dict),
                        forall|k: Seq<char>| #[trigger]
                            copies@.contains_key(k) ==> dict@.contains_key(k) && copies@[k]@
                                == dict@[k]@,
                        forall|j: int|
                            0 <= j < i ==> copies@.contains_key(#[trigger] dict.spec_keys()[j]),
                    decreases dict.spec_keys().len() - i,
                {
                    let (key, item) = dict.entry_at(i);
                    proof {
                        crate::dict::dict_value_is_smaller(*dict, key@);
                        assert(decreases_to!(*self => self->Object_0));
                    }
                    copies.insert(key.clone(), item.clone());
                    i += 1;
                }
                proof {
                    crate::dict::keys_are_the_domain(*dict);
                    assert(dict_view(copies) =~= dict_view(*dict));
                }
                Value::Object(copies)
            },
        }
    }
}

/// `over` laid over `base`: the fields of two objects are put together, those of `over` winning;
/// anything else replaces `base`.
pub open spec fn merged(base: Json, over: Json) -> Json {
    match (base, over) {
        (Json::Object(a), Json::Object(b)) => Json::Object(a.union_prefer_right(b)),
        _ => over,
    }
}

/// Lays the fields of `over` over those of `base`.
pub fn merge_fields(base: Dict<Value>, over: Dict<Value>) -> (both: Dict<Value>)
    ensures
        dict_view(both) == dict_view(base).union_prefer_right(dict_view(over)),
{
    let ghost result = dict_view(base).union_prefer_right(dict_view(over));
    let mut both = base;
    let mut rest = over;
    loop
        invariant
            result == dict_view(both).union_prefer_right(dict_view(rest)),
        ensures
            dict_view(both) == result,
        decreases rest.spec_keys().len(),
    {
        let ghost both_before = both;
        let ghost rest_before = rest;
        match rest.pop() {
            Some((key, value)) => {
                both.insert(key, value);
                proof {
                    assert(dict_view(both).union_prefer_right(dict_view(rest)) =~= dict_view(
                        both_before,
                    ).union_prefer_right(dict_view(rest_before)));
                }
            },
            None => {
                assert(dict_view(both) =~= result);
                break;
            },
        }
    }
    both
}

/// Lays `over` over `base`.
pub fn merge(base: Value, over: Value) -> (value: Value)
    ensures
        value@ == merged(base@, over@),
{
    match over {
        Value::Object(over) => match base {
            Value::Object(base) => Value::Object(merge_fields(base, over)),
            _ => Value::Object(over),
        },
        over => over,
    }
}

/// `over` laid over `base` at every depth: objects are put together field by field, and anything
/// else of `over` replaces what `base` has.
pub open spec fn deep_merged(base: Json, over: Json) -> Json
    decreases over,
{
    match over {
        Json::Object(b) => match base {
            Json::Object(a) => Json::Object(
                Map::new(
                    |k: Seq<char>| a.contains_key(k) || b.contains_key(k),
                    |k: Seq<char>|
                        if b.contains_key(k) {
                            if a.contains_key(k) {
                                deep_merged(a[k], b[k])
                            } else {
                                b[k]
                            }
                        } else {
                            a[k]
                        },
                ),
            ),
            _ => over,
        },
        _ => over,
    }
}

/// Lays `over` over `base` at every depth.
pub fn deep_merge(base: Value, over: Value) -> (value: Value)
    ensures
        value@ == deep_merged(base@, over@),
    decreases over,
{
    match over {
        Value::Object(dict) => match base {
            Value::Object(base_dict) => {
                let ghost a = dict_view(base_dict);
                let ghost b = dict_view(dict);
                let ghost whole = dict;
                let ghost result = deep_merged(base@, over@)->Object_0;
                let mut both = base_dict;
                let mut rest = dict;
                proof {
                    assert(base@ == Json::Object(a));
                    assert(over@ == Json::Object(b));
                }
                loop
                    invariant
                        over == Value::Object(whole),
                        a == dict_view(base_dict),
                        b == dict_view(whole),
                        result == deep_merged(Json::Object(a), Json::Object(b))->Object_0,
                        forall|k: Seq<char>| #[trigger]
                            rest@.contains_key(k) ==> whole@.contains_key(k) && rest@[k]
                                == whole@[k],
                        forall|k: Seq<char>| #[trigger]
                            dict_view(both).contains_key(k) <==> a.contains_key(k) || (
                            b.contains_key(k) && !rest@.contains_key(k)),
                        forall|k: Seq<char>| #[trigger]
                            dict_view(both).contains_key(k) ==> dict_view(both)[k] == (
                            if rest@.contains_key(k) {
                                a[k]
                            } else {
                                result[k]
                            }),
                    ensures
                        dict_view(both) == result,
                    decreases rest.spec_keys().len(),
                {
                    let ghost both_before = both;
                    let ghost rest_before = rest;
                    match rest.pop() {
                        Some((key, value)) => {
                            proof {
                                assert(rest_before@.contains_key(key@));
                                assert(whole@[key@] == value);
                                crate::dict::dict_value_is_smaller(whole, key@);
                                assert(decreases_to!(over => over->Object_0));
                                assert(b[key@] == value@);
                            }
                            match both.remove(key.as_str()) {
                                Some(present) => {
                                    assert(present@ == dict_view(both_before)[key@]);
                                    let new = deep_merge(present, value);
                                    both.insert(key, new);
                                },
                                None => {
                                    both.insert(key, value);
                                },
                            }
                            proof {
                                assert forall|k: Seq<char>| #[trigger]
                                    rest@.contains_key(k) implies whole@.contains_key(k)
                                    && rest@[k] == whole@[k] by {
                                    assert(rest_before@.contains_key(k));
                                }
                                assert forall|k: Seq<char>| #[trigger]
                                    dict_view(both).contains_key(k) <==> a.contains_key(k) || (
                                b.contains_key(k) && !rest@.contains_key(k)) by {
                                    assert(dict_view(both).contains_key(k) <==> dict_view(
                                        both_before,
                                    ).contains_key(k) || k == key@);
                                    assert(rest_before@.contains_key(k) <==> rest@.contains_key(k)
                                        || k == key@);
                                }
                                assert forall|k: Seq<char>| #[trigger]
                                    dict_view(both).contains_key(k) implies dict_view(both)[k] == (
                                if rest@.contains_key(k) {
                                    a[k]
                                } else {
                                    result[k]
                                }) by {
                                    assert(dict_view(both_before).contains_key(k) || k == key@);
                                    if k != key@ {
                                        assert(dict_view(both)[k] == dict_view(both_before)[k]);
                                        assert(rest@.contains_key(k)
                                            == rest_before@.contains_key(k));
                                    }
                                }
                            }
                        },
                        None => {
                            assert(dict_view(both) =~= result);
                            break;
                        },
                    }
                }
                Value::Object(both)
            },
            _ => Value::Object(dict),
        },
        over => over,
    }
}

/// Laying an object over a value keeps every field of the object, and every other field of the
/// value.
pub proof fn merge_fills_in(base: Map<Seq<char>, Json>, over: Map<Seq<char>, Json>, k: Seq<char>)
    ensures
        ({
            let both = merged(Json::Object(base), Json::Object(over))->Object_0;
            &&& over.contains_key(k) ==> both.contains_key(k) && both[k] == over[k]
            &&& !over.contains_key(k) && base.contains_key(k) ==> both.contains_key(k) && both[k]
                == base[k]
            &&& both.contains_key(k) ==> over.contains_key(k) || base.contains_key(k)
        }),
{
}

/// A copy of a list of values.
pub fn copy_values(list: &Vec<Value>) -> (copy: Vec<Value>)
    ensures
        items_view(copy@) == items_view(list@),
{
    let mut copy: Vec<Value> = Vec::new();
    let mut i: usize = 0;
    while i < list.len()
        invariant
            i <= list.len(),
            copy.len() == i,
            forall|j: int| 0 <= j < i ==> (#[trigger] copy@[j])@ == list@[j]@,
        decreases list.len() - i,
    {
        copy.push(list[i].clone());
        i += 1;
    }
    assert(items_view(copy@) =~= items_view(list@));
    copy
}

/// The entries of a dictionary, seen as value trees, come in the order of its keys.
pub proof fn keys_of_view(dict: Dict<Value>)
    requires
        crate::dict::strictly_ascending(dict.spec_keys()),
    ensures
        crate::dict::ascending_keys(dict_view(dict)) == dict.spec_keys(),
{
    let map = dict_view(dict);
    crate::dict::keys_are_the_domain(dict);
    assert forall|k: Seq<char>| #[trigger] map.contains_key(k) <==> dict.spec_keys().contains(k) by {
        assert(map.contains_key(k) == dict@.contains_key(k));
    }
    crate::dict::ascending_keys_are(map, dict.spec_keys());
}

/// A double is finite exactly if its bit pattern, without the sign, lies below that of infinity.
pub proof fn finite_doubles_lie_below_infinity(bits: u64)
    ensures
        finite_bits(bits) <==> bits % 0x8000_0000_0000_0000 < 0x7ff0_0000_0000_0000,
{
    assert(((bits / 0x10_0000_0000_0000) % 0x800 != 0x7ff) == (bits % 0x8000_0000_0000_0000
        < 0x7ff0_0000_0000_0000)) by (bit_vector);
}

/// The content of a value: an array's items in their order, an object's fields by key.
pub proof fn values_hold_what_they_are_made_of(
    items: Vec<Value>,
    i: int,
    dict: Dict<Value>,
    key: Seq<char>,
)
    requires
        0 <= i < items@.len(),
        dict@.contains_key(key),
    ensures
        Value::Array(items)@ is Array,
        Value::Array(items)@->Array_0.len() == items@.len(),
        Value::Array(items)@->Array_0[i] == items@[i]@,
        Value::Object(dict)@ is Object,
        Value::Object(dict)@->Object_0.dom() == dict@.dom(),
        Value::Object(dict)@->Object_0[key] == dict@[key]@,
{
    assert(Value::Array(items)@ == Json::Array(items_view(items@)));
    assert(Value::Object(dict)@ == Json::Object(dict_view(dict)));
    assert(dict_view(dict).dom() =~= dict@.dom());
}

/// Fields laid over an object: what `over` names has the value that `over` gives it, everything
/// else stays, and nothing is added.
pub proof fn fields_are_laid_over(
    base: Map<Seq<char>, Json>,
    over: Map<Seq<char>, Json>,
    key: Seq<char>,
)
    ensures
        ({
            let both = merged(Json::Object(base), Json::Object(over));
            &&& both is Object
            &&& both->Object_0.contains_key(key) <==> base.contains_key(key) || over.contains_key(
                key,
            )
            &&& over.contains_key(key) ==> both->Object_0[key] == over[key]
            &&& base.contains_key(key) && !over.contains_key(key) ==> both->Object_0[key]
                == base[key]
        }),
{
}

/// Anything but two objects is not put together: what is laid over replaces what was there.
pub proof fn other_values_are_replaced(base: Json, over: Json)
    requires
        !(base is Object && over is Object),
    ensures
        merged(base, over) == over,
        deep_merged(base, over) == over,
{
}

/// Laying over goes down into objects on both sides: a field of both is merged in turn, and any
/// other field of either side is kept as it is.
pub proof fn fields_are_laid_over_at_every_depth(
    base: Map<Seq<char>, Json>,
    over: Map<Seq<char>, Json>,
    key: Seq<char>,
)
    ensures
        ({
            let both = deep_merged(Json::Object(base), Json::Object(over));
            &&& both is Object
            &&& both->Object_0.contains_key(key) <==> base.contains_key(key) || over.contains_key(
                key,
            )
            &&& base.contains_key(key) && !over.contains_key(key) ==> both->Object_0[key]
                == base[key]
            &&& over.contains_key(key) && !base.contains_key(key) ==> both->Object_0[key]
                == over[key]
            &&& base.contains_key(key) && over.contains_key(key) ==> both->Object_0[key]
                == deep_merged(base[key], over[key])
        }),
{
}

/// Laying the same value over twice is the same as laying it over once.
pub proof fn laying_over_twice_changes_nothing(base: Json, over: Json)
    ensures
        merged(merged(base, over), over) == merged(base, over),
        deep_merged(deep_merged(base, over), over) == deep_merged(base, over),
    decreases over,
{
    match (base, over) {
        (Json::Object(a), Json::Object(b)) => {
            assert(a.union_prefer_right(b).union_prefer_right(b) =~= a.union_prefer_right(b));
            let once = deep_merged(base, over)->Object_0;
            let twice = deep_merged(deep_merged(base, over), over)->Object_0;
            assert forall|k: Seq<char>| once.contains_key(k) implies #[trigger] twice[k] == once[k] by {
                if b.contains_key(k) {
                    if a.contains_key(k) {
                        laying_over_twice_changes_nothing(a[k], b[k]);
                    } else {
                        same_over_itself(b[k]);
                    }
                }
            }
            assert(twice =~= once);
        },
        (_, Json::Object(b)) => {
            assert(b.union_prefer_right(b) =~= b);
            same_over_itself(over);
        },
        _ => {},
    }
}

proof fn same_over_itself(over: Json)
    ensures
        deep_merged(over, over) == over,
    decreases over,
{
    if let Json::Object(b) = over {
        let both = deep_merged(over, over)->Object_0;
        assert forall|k: Seq<char>| b.contains_key(k) implies #[trigger] both[k] == b[k] by {
            same_over_itself(b[k]);
        }
        assert(both =~= b);
    }
}

/// Merging two objects keeps every field: those of the upper one as they are, those of the lower
/// one where the upper has none; merging at every depth merges the fields that both have.
pub proof fn merging_keeps_every_field(
    base: Value,
    over: Value,
    flat: Value,
    deep: Value,
    key: Seq<char>,
)
    requires
        call_ensures(merge, (base, over), flat),
        call_ensures(deep_merge, (base, over), deep),
        base@ is Object,
        over@ is Object,
    ensures
        flat@ is Object && deep@ is Object,
        over@->Object_0.contains_key(key) ==> flat@->Object_0.contains_key(key)
            && flat@->Object_0[key] == over@->Object_0[key],
        base@->Object_0.contains_key(key) && !over@->Object_0.contains_key(key)
            ==> flat@->Object_0.contains_key(key) && flat@->Object_0[key] == base@->Object_0[key]
            && deep@->Object_0.contains_key(key) && deep@->Object_0[key] == base@->Object_0[key],
        over@->Object_0.contains_key(key) ==> deep@->Object_0.contains_key(key),
        over@->Object_0.contains_key(key) && !(over@->Object_0[key] is Object)
            ==> deep@->Object_0[key] == over@->Object_0[key],
        flat@->Object_0.contains_key(key) || deep@->Object_0.contains_key(key)
            ==> base@->Object_0.contains_key(key) || over@->Object_0.contains_key(key),
{
    fields_are_laid_over(base@->Object_0, over@->Object_0, key);
    fields_are_laid_over_at_every_depth(base@->Object_0, over@->Object_0, key);
    if over@->Object_0.contains_key(key) && base@->Object_0.contains_key(key)
        && !(over@->Object_0[key] is Object) {
        other_values_are_replaced(base@->Object_0[key], over@->Object_0[key]);
    }
}

/// An integer is kept with its value, and in the form for its sign.
pub proof fn integers_keep_their_value(n: i64, number: Number)
    requires
        call_ensures(Number::from_i64, (n,), number),
    ensures
        n >= 0 ==> number is PosInt && number->PosInt_0 == n,
        n < 0 ==> number is NegInt && number->NegInt_0 == n,
{
}

} // verus!
