//! Script-side values.
use vstd::prelude::*;

use crate::dict;
use crate::dict::Dict;
use crate::text;

verus! {

/// A value as scripts see it. Floats are held by their IEEE 754 bit pattern; a host type that
/// scripts only pass around is held by its type name.
#[derive(Debug, PartialEq, Eq)]
pub enum Dynamic {
    Unit,
    Bool(bool),
    Int(i64),
    Float(u64),
    Char(char),
    Str(String),
    Array(Vec<Dynamic>),
    Object(Dict<Dynamic>),
    Other(String),
}

/// The mathematical content of a script-side value.
#[verifier::ext_equal]
pub enum Script {
    Unit,
    Bool(bool),
    Int(i64),
    Float(u64),
    Char(char),
    Str(Seq<char>),
    Array(Seq<Script>),
    Object(Map<Seq<char>, Script>),
    Other(Seq<char>),
}

impl View for Dynamic {
    type V = Script;

    open spec fn view(&self) -> Script
        decreases self,
    {
        match self {
            Dynamic::Unit => Script::Unit,
            Dynamic::Bool(b) => Script::Bool(*b),
            Dynamic::Int(n) => Script::Int(*n),
            Dynamic::Float(bits) => Script::Float(*bits),
            Dynamic::Char(c) => Script::Char(*c),
            Dynamic::Str(s) => Script::Str(s@),
            Dynamic::Array(items) => Script::Array(items_view(items@)),
            Dynamic::Object(dict) => Script::Object(dict_view(*dict)),
            Dynamic::Other(name) => Script::Other(name@),
        }
    }
}

pub open spec fn items_view(items: Seq<Dynamic>) -> Seq<Script>
    decreases items,
{
    Seq::new(
        items.len(),
        |i: int|
            if 0 <= i < items.len() {
                items[i]@
            } else {
                Script::Unit
            },
    )
}

pub open spec fn dict_view(dict: Dict<Dynamic>) -> Map<Seq<char>, Script>
    decreases dict,
{
    proof {
        broadcast use crate::dict::dict_value_is_smaller;
    }
    Map::new(
        |key: Seq<char>| dict@.contains_key(key),
        |key: Seq<char>|
            if dict@.contains_key(key) {
                dict@[key]@
            } else {
                Script::Unit
            },
    )
}

impl Dynamic {
    /// The integer held, if the value is one.
    pub fn as_int(&self) -> (n: Option<i64>)
        ensures
            n == (match self@ {
                Script::Int(i) => Some(i),
                _ => None,
            }),
    {
        match self {
            Dynamic::Int(i) => Some(*i),
            _ => None,
        }
    }
}

/// The entries of a dictionary, seen as script values, come in the order of its keys.
pub proof fn keys_of_view(dict: Dict<Dynamic>)
    requires
        crate::dict::strictly_ascending(dict.spec_keys()),
    ensures
        crate::dict::ascending_keys(dict_view(dict)) == dict.spec_keys(),
{
    let map = dict_view(dict);
    crate::dict::keys_are_the_domain(dict);
    assert forall|k: Seq<char>| #[trigger] map.contains_key(k) <==> dict.spec_keys().contains(k) by {
        assert(map.contains_key(k) == dict@.contains_key(k));
    }
    crate::dict::ascending_keys_are(map, dict.spec_keys());
}

/// Whether the bit pattern is that of a double that is not a number.
pub open spec fn nan_bits(bits: u64) -> bool {
    (bits / 0x10_0000_0000_0000) % 0x800 == 0x7ff && bits % 0x10_0000_0000_0000 != 0
}

/// Whether two values are written alike: they are equal, but for floats that are no numbers, which
/// are all written alike.
pub open spec fn alike(a: Script, b: Script) -> bool
    decreases a,
{
    match (a, b) {
        (Script::Float(x), Script::Float(y)) => x == y || nan_bits(x) && nan_bits(y),
        (Script::Array(x), Script::Array(y)) => x.len() == y.len() && forall|i: int|
            0 <= i < x.len() ==> alike(#[trigger] x[i], y[i]),
        (Script::Object(x), Script::Object(y)) => x.dom() == y.dom() && forall|k: Seq<char>|
            x.contains_key(k) ==> alike(#[trigger] x[k], y[k]),
        _ => a == b,
    }
}

/// A value is written like itself.
pub proof fn alike_itself(a: Script)
    ensures
        alike(a, a),
    decreases a,
{
    match a {
        Script::Array(x) => {
            assert forall|i: int| 0 <= i < x.len() implies alike(#[trigger] x[i], x[i]) by {
                alike_itself(x[i]);
            }
        },
        Script::Object(x) => {
            assert forall|k: Seq<char>| x.contains_key(k) implies alike(#[trigger] x[k], x[k]) by {
                alike_itself(x[k]);
            }
        },
        _ => {},
    }
}

/// Whether two values are written alike.
pub fn is_alike(a: &Dynamic, b: &Dynamic) -> (same: bool)
    ensures
        same == alike(a@, b@),
    decreases a,
{
    match (a, b) {
        (Dynamic::Unit, Dynamic::Unit) => true,
        (Dynamic::Bool(x), Dynamic::Bool(y)) => *x == *y,
        (Dynamic::Int(x), Dynamic::Int(y)) => *x == *y,
        (Dynamic::Float(x), Dynamic::Float(y)) => *x == *y || is_nan(*x) && is_nan(*y),
        (Dynamic::Char(x), Dynamic::Char(y)) => *x == *y,
        (Dynamic::Str(x), Dynamic::Str(y)) => text::same_text(x.as_str(), y.as_str()),
        (Dynamic::Other(x), Dynamic::Other(y)) => text::same_text(x.as_str(), y.as_str()),
        (Dynamic::Array(x), Dynamic::Array(y)) => {
            assert(a@ == Script::Array(items_view(x@)));
            assert(b@ == Script::Array(items_view(y@)));
            if x.len() != y.len() {
                return false;
            }
            let mut i: usize = 0;
            while i < x.len()
                invariant
                    i <= x.len() == y.len(),
                    *a == Dynamic::Array(*x),
                    *b == Dynamic::Array(*y),
                    a@ == Script::Array(items_view(x@)),
                    b@ == Script::Array(items_view(y@)),
                    forall|j: int| 0 <= j < i ==> alike((#[trigger] x@[j])@, y@[j]@),
                decreases x.len() - i,
            {
                proof {
                    assert(decreases_to!(*a => a->Array_0));
                    assert(decreases_to!(a->Array_0 => a->Array_0@));
                    assert(decreases_to!(a->Array_0@ => a->Array_0@[i as int]));
                    assert(items_view(x@)[i as int] == x@[i as int]@);
                    assert(items_view(y@)[i as int] == y@[i as int]@);
                }
                if !is_alike(&x[i], &y[i]) {
                    assert(!alike(items_view(x@)[i as int], items_view(y@)[i as int]));
                    return false;
                }
                i += 1;
            }
            assert forall|j: int| 0 <= j < items_view(x@).len() implies alike(
                #[trigger] items_view(x@)[j],
                items_view(y@)[j],
            ) by {
                assert(alike(x@[j]@, y@[j]@));
            }
            true
        },
        (Dynamic::Object(x), Dynamic::Object(y)) => {
            assert(a@ == Script::Object(dict_view(*x)));
            assert(b@ == Script::Object(dict_view(*y)));
            is_alike_dict(x, y)
        },
        _ => false,
    }
}

fn is_nan(bits: u64) -> (yes: bool)
    ensures
        yes == nan_bits(bits),
{
    (bits / 0x10_0000_0000_0000) % 0x800 == 0x7ff && bits % 0x10_0000_0000_0000 != 0
}

fn is_alike_dict(x: &Dict<Dynamic>, y: &Dict<Dynamic>) -> (same: bool)
    ensures
        same == alike(Script::Object(dict_view(*x)), Script::Object(dict_view(*y))),
    decreases x,
{
    let ghost (p, q) = (dict_view(*x), dict_view(*y));
    let n: usize = x.len();
    let m: usize = y.len();
    proof {
        dict::keys_are_the_domain(*x);
        dict::keys_are_the_domain(*y);
        assert forall|k: Seq<char>| p.contains_key(k) <==> x.spec_keys().contains(k) by {
            assert(p.contains_key(k) == x@.contains_key(k));
        }
        assert forall|k: Seq<char>| q.contains_key(k) <==> y.spec_keys().contains(k) by {
            assert(q.contains_key(k) == y@.contains_key(k));
        }
        if p.dom() == q.dom() {
            assert forall|k: Seq<char>| x.spec_keys().contains(k) <==> y.spec_keys().contains(k) by {
                assert(p.contains_key(k) == q.contains_key(k));
            }
            dict::ascending_lists_agree(x.spec_keys(), y.spec_keys());
        }
    }
    if n != m {
        return false;
    }
    let mut i: usize = 0;
    while i < n
        invariant
            i <= n == x.spec_keys().len() == y.spec_keys().len(),
            p == dict_view(*x),
            q == dict_view(*y),
            p.dom() == q.dom() ==> x.spec_keys() == y.spec_keys(),
            forall|j: int|
                0 <= j < i ==> {
                    let k = #[trigger] x.spec_keys()[j];
                    k == y.spec_keys()[j] && alike(p[k], q[k])
                },
        decreases n - i,
    {
        let (key, item) = x.entry_at(i);
        let (other, counterpart) = y.entry_at(i);
        if !text::same_text(key.as_str(), other.as_str()) {
            return false;
        }
        proof {
            dict::dict_value_is_smaller(*x, key@);
            assert(p[key@] == item@);
            assert(q[key@] == counterpart@);
        }
        if !is_alike(item, counterpart) {
            assert(p.contains_key(key@) && !alike(p[key@], q[key@]));
            return false;
        }
        i += 1;
    }
    proof {
        dict::keys_are_the_domain(*x);
        dict::keys_are_the_domain(*y);
        assert(x.spec_keys() =~= y.spec_keys());
        assert forall|k: Seq<char>| p.dom().contains(k) <==> q.dom().contains(k) by {
            assert(p.contains_key(k) == x@.contains_key(k));
            assert(q.contains_key(k) == y@.contains_key(k));
        }
        assert(p.dom() =~= q.dom());
        assert forall|k: Seq<char>| p.contains_key(k) implies alike(#[trigger] p[k], q[k]) by {
            assert(x@.contains_key(k));
            let j = choose|j: int| 0 <= j < x.spec_keys().len() && x.spec_keys()[j] == k;
            assert(x.spec_keys()[j] == k);
        }
    }
    true
}

/// The content of a script-side value: an array's items in their order, a map's entries by key.
pub proof fn script_values_hold_what_they_are_made_of(
    items: Vec<Dynamic>,
    i: int,
    dict: Dict<Dynamic>,
    key: Seq<char>,
)
    requires
        0 <= i < items@.len(),
        dict@.contains_key(key),
    ensures
        Dynamic::Array(items)@ is Array,
        Dynamic::Array(items)@->Array_0.len() == items@.len(),
        Dynamic::Array(items)@->Array_0[i] == items@[i]@,
        Dynamic::Object(dict)@ is Object,
        Dynamic::Object(dict)@->Object_0.dom() == dict@.dom(),
        Dynamic::Object(dict)@->Object_0[key] == dict@[key]@,
{
    assert(Dynamic::Array(items)@ == Script::Array(items_view(items@)));
    assert(Dynamic::Object(dict)@ == Script::Object(dict_view(dict)));
    assert(dict_view(dict).dom() =~= dict@.dom());
}

/// Being written alike holds both ways round and carries over.
pub proof fn alike_values_are_interchangeable(a: Script, b: Script, c: Script)
    requires
        alike(a, b),
    ensures
        alike(b, a),
        alike(b, c) ==> alike(a, c),
    decreases a,
{
    match (a, b) {
        (Script::Array(x), Script::Array(y)) => {
            assert forall|i: int| 0 <= i < y.len() implies alike(#[trigger] y[i], x[i]) by {
                assert(alike(x[i], y[i]));
                alike_values_are_interchangeable(x[i], y[i], c);
            }
            if let Script::Array(z) = c {
                if alike(b, c) {
                    assert forall|i: int| 0 <= i < x.len() implies alike(#[trigger] x[i], z[i]) by {
                        assert(alike(y[i], z[i]));
                        alike_values_are_interchangeable(x[i], y[i], z[i]);
                    }
                }
            }
        },
        (Script::Object(x), Script::Object(y)) => {
            assert forall|k: Seq<char>| y.contains_key(k) implies alike(#[trigger] y[k], x[k]) by {
                assert(x.contains_key(k));
                assert(alike(x[k], y[k]));
                alike_values_are_interchangeable(x[k], y[k], c);
            }
            if let Script::Object(z) = c {
                if alike(b, c) {
                    assert forall|k: Seq<char>| x.contains_key(k) implies alike(
                        #[trigger] x[k],
                        z[k],
                    ) by {
                        assert(y.contains_key(k));
                        assert(alike(y[k], z[k]));
                        alike_values_are_interchangeable(x[k], y[k], z[k]);
                    }
                }
            }
        },
        _ => {},
    }
}

/// Values of numbers, texts and truth are written alike only if they are equal; two floats also
/// if neither is a number.
pub proof fn plain_values_are_told_apart(x: u64, y: u64, a: Script, b: Script)
    ensures
        alike(Script::Float(x), Script::Float(y)) <==> x == y || (x % 0x8000_0000_0000_0000
            > 0x7ff0_0000_0000_0000 && y % 0x8000_0000_0000_0000 > 0x7ff0_0000_0000_0000),
        !(a is Float) && !(a is Array) && !(a is Object) ==> (alike(a, b) <==> a == b),
        a is Float && !(b is Float) ==> !alike(a, b),
        a is Array && !(b is Array) ==> !alike(a, b),
        a is Object && !(b is Object) ==> !alike(a, b),
{
    assert(((x / 0x10_0000_0000_0000) % 0x800 == 0x7ff && x % 0x10_0000_0000_0000 != 0) == (x
        % 0x8000_0000_0000_0000 > 0x7ff0_0000_0000_0000)) by (bit_vector);
    assert(((y / 0x10_0000_0000_0000) % 0x800 == 0x7ff && y % 0x10_0000_0000_0000 != 0) == (y
        % 0x8000_0000_0000_0000 > 0x7ff0_0000_0000_0000)) by (bit_vector);
}

} // verus!
