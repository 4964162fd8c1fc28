//! Entities, named by the bits of their ids.
use vstd::prelude::*;
use vstd::string::*;

use crate::text;

verus! {

/// The index of an entity: the complement of the lower half of its bits.
pub open spec fn index_of(entity: u64) -> nat {
    (0xffff_ffff - entity % 0x1_0000_0000) as nat
}

/// The generation of an entity: the upper half of its bits.
pub open spec fn generation_of(entity: u64) -> nat {
    (entity / 0x1_0000_0000) as nat
}

/// How the host writes an entity: its index and its generation. The one entity that only holds a
/// place is written as such.
pub open spec fn entity_name(entity: u64) -> Seq<char> {
    if entity == 1 {
        "PLACEHOLDER"@
    } else {
        text::digits(index_of(entity)) + "v"@ + text::digits(generation_of(entity))
    }
}

/// The entity as the host writes it, for messages.
pub fn entity_text(entity: u64) -> (written: String)
    ensures
        written@ == entity_name(entity),
{
    if entity == 1 {
        return "PLACEHOLDER".to_owned();
    }
    let index: u64 = 0xffff_ffff - entity % 0x1_0000_0000;
    let generation: u64 = entity / 0x1_0000_0000;
    text::in_between(
        text::number_text(index).as_str(),
        "v",
        text::number_text(generation).as_str(),
    )
}

/// An entity of a given index and generation is written by the two numbers, and two entities are
/// never written alike.
pub proof fn entities_are_written_by_index_and_generation(
    index: u64,
    generation: u64,
    entity: u64,
    other: u64,
)
    requires
        index < 0x1_0000_0000,
        generation < 0x1_0000_0000,
        entity == generation * 0x1_0000_0000 + (0xffff_ffff - index),
        entity != 1,
    ensures
        entity_name(entity) == text::digits(index as nat) + "v"@ + text::digits(generation as nat),
        entity_name(other) == entity_name(entity) ==> other == entity,
{
    reveal_strlit("v");
    reveal_strlit("PLACEHOLDER");
    assert(entity % 0x1_0000_0000 == 0xffff_ffff - index) by (nonlinear_arith)
        requires
            index < 0x1_0000_0000,
            entity == generation * 0x1_0000_0000 + (0xffff_ffff - index),
    ;
    assert(entity / 0x1_0000_0000 == generation) by (nonlinear_arith)
        requires
            index < 0x1_0000_0000,
            entity == generation * 0x1_0000_0000 + (0xffff_ffff - index),
    ;
    let a = text::digits(index as nat);
    let b = text::digits(generation as nat);
    text::digits_read_back(index as nat);
    text::digits_read_back(generation as nat);
    if entity_name(other) == entity_name(entity) {
        assert(text::is_digit(a[0]));
        assert(entity_name(entity)[0] == a[0]);
        assert("PLACEHOLDER"@[0] == 'P');
        assert(other != 1);
        let c = text::digits(index_of(other));
        let d = text::digits(generation_of(other));
        text::digits_read_back(index_of(other));
        text::digits_read_back(generation_of(other));
        let left = a + "v"@ + b;
        let right = c + "v"@ + d;
        assert(left == right);
        if a.len() < c.len() {
            assert(left[a.len() as int] == 'v');
            assert(text::is_digit(c[a.len() as int]));
        }
        if c.len() < a.len() {
            assert(right[c.len() as int] == 'v');
            assert(text::is_digit(a[c.len() as int]));
        }
        assert(a =~= left.take(a.len() as int));
        assert(c =~= right.take(c.len() as int));
        assert(b =~= left.skip(a.len() as int + 1));
        assert(d =~= right.skip(c.len() as int + 1));
        assert(index_of(other) == index);
        assert(generation_of(other) == generation);
    }
}

} // verus!
