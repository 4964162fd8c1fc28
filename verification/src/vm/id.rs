//! Identity of virtual machines, and of the entities that belong to them.
use vstd::prelude::*;

verus! {

/// The identity of a virtual machine in the process.
#[derive(Clone, Copy, PartialEq, Eq, Hash, Debug, Structural)]
pub struct VmId(pub u64);

impl VmId {
    /// Takes the id that `counter` stands at, which has not been taken before, and moves the
    /// counter on. A process starts its counter at 1.
    #[must_use]
    pub fn next(counter: &mut u64) -> (id: Self)
        ensures
            id.0 == *old(counter),
            *final(counter) == counter_after(*old(counter)),
    {
        let id = VmId(*counter);
        *counter = counter.wrapping_add(1);
        id
    }
}

/// The counter after one more id.
pub open spec fn counter_after(counter: u64) -> u64 {
    if counter < u64::MAX {
        (counter + 1) as u64
    } else {
        0
    }
}

/// The counter after `n` more ids.
pub open spec fn counter_after_many(counter: u64, n: nat) -> u64
    decreases n,
{
    if n == 0 {
        counter
    } else {
        counter_after(counter_after_many(counter, (n - 1) as nat))
    }
}

proof fn counter_counts(counter: u64, n: nat)
    requires
        counter + n <= u64::MAX,
    ensures
        counter_after_many(counter, n) == counter + n,
    decreases n,
{
    if n > 0 {
        counter_counts(counter, (n - 1) as nat);
    }
}

/// Ids are never given out twice, and later ids are greater, until the counter has gone through
/// all of them.
pub proof fn ids_are_fresh(counter: u64, first: nat, second: nat)
    requires
        first < second,
        counter + second <= u64::MAX,
    ensures
        counter_after_many(counter, first) < counter_after_many(counter, second),
{
    counter_counts(counter, first);
    counter_counts(counter, second);
}

/// The mark on every entity that a virtual machine spawns.
#[derive(Clone, Copy, Debug, PartialEq, Eq, Structural)]
pub struct VmTag {
    /// The virtual machine that owns the entity.
    pub vm: VmId,
}

impl Default for VmTag {
    fn default() -> (tag: Self)
        ensures
            tag.vm.0 == 0,
    {
        VmTag { vm: VmId(0) }
    }
}

impl VmTag {
    /// The mark of `vm`.
    #[must_use]
    pub fn new(vm: VmId) -> (tag: Self)
        ensures
            tag.vm == vm,
    {
        VmTag { vm }
    }
}

/// The entities among `tagged` that belong to `vm`, in order.
pub open spec fn owned_by(tagged: Seq<(u64, VmTag)>, vm: VmId) -> Seq<u64>
    decreases tagged.len(),
{
    if tagged.len() == 0 {
        Seq::empty()
    } else {
        let rest = owned_by(tagged.drop_last(), vm);
        if tagged.last().1.vm == vm {
            rest.push(tagged.last().0)
        } else {
            rest
        }
    }
}

/// The entities among `tagged` that belong to `vm`: those that go when it is unloaded.
pub fn owned_entities(tagged: &Vec<(u64, VmTag)>, vm: VmId) -> (entities: Vec<u64>)
    ensures
        entities@ == owned_by(tagged@, vm),
{
    let mut entities: Vec<u64> = Vec::new();
    let mut i: usize = 0;
    assert(tagged@.take(0) =~= Seq::<(u64, VmTag)>::empty());
    while i < tagged.len()
        invariant
            i <= tagged.len(),
            entities@ == owned_by(tagged@.take(i as int), vm),
        decreases tagged.len() - i,
    {
        assert(tagged@.take(i + 1).drop_last() =~= tagged@.take(i as int));
        if tagged[i].1.vm == vm {
            entities.push(tagged[i].0);
        }
        i += 1;
    }
    assert(tagged@.take(tagged@.len() as int) =~= tagged@);
    entities
}

/// An entity is among those of a virtual machine exactly if it bears its mark.
pub proof fn owned_entities_bear_the_mark(tagged: Seq<(u64, VmTag)>, vm: VmId, entity: u64)
    ensures
        owned_by(tagged, vm).contains(entity) <==> tagged.contains((entity, VmTag { vm })),
    decreases tagged.len(),
{
    if tagged.len() > 0 {
        let shorter = tagged.drop_last();
        let rest = owned_by(shorter, vm);
        let all = owned_by(tagged, vm);
        owned_entities_bear_the_mark(shorter, vm, entity);
        if all.contains(entity) {
            let i = choose|i: int| 0 <= i < all.len() && all[i] == entity;
            if i < rest.len() {
                assert(rest[i] == entity);
                let j = choose|j: int| 0 <= j < shorter.len() && shorter[j] == (entity, VmTag { vm });
                assert(tagged[j] == (entity, VmTag { vm }));
            } else {
                assert(tagged[tagged.len() - 1] == (entity, VmTag { vm }));
            }
        }
        if tagged.contains((entity, VmTag { vm })) {
            let j = choose|j: int| 0 <= j < tagged.len() && tagged[j] == (entity, VmTag { vm });
            if j < shorter.len() {
                assert(shorter[j] == (entity, VmTag { vm }));
                let i = choose|i: int| 0 <= i < rest.len() && rest[i] == entity;
                assert(all[i] == entity);
            } else {
                assert(all[rest.len() as int] == entity);
            }
        }
    }
}

/// Those of `found` that are among `owned`, in order.
pub open spec fn owned_among(found: Seq<u64>, owned: Seq<u64>) -> Seq<u64> {
    found.filter(|e: u64| owned.contains(e))
}

fn is_among(entities: &Vec<u64>, entity: u64) -> (yes: bool)
    ensures
        yes == entities@.contains(entity),
{
    let mut i: usize = 0;
    while i < entities.len()
        invariant
            i <= entities.len(),
            forall|j: int| 0 <= j < i ==> entities@[j] != entity,
        decreases entities.len() - i,
    {
        if entities[i] == entity {
            return true;
        }
        i += 1;
    }
    false
}

/// Those of `found` that are among `owned`, in order.
pub fn keep_owned(found: &Vec<u64>, owned: &Vec<u64>) -> (kept: Vec<u64>)
    ensures
        kept@ == owned_among(found@, owned@),
{
    let mut kept: Vec<u64> = Vec::new();
    let mut i: usize = 0;
    assert(owned_among(found@.take(0), owned@) =~= Seq::<u64>::empty()) by {
        reveal(Seq::filter);
    }
    while i < found.len()
        invariant
            i <= found.len(),
            kept@ == owned_among(found@.take(i as int), owned@),
        decreases found.len() - i,
    {
        proof {
            reveal(Seq::filter);
            assert(found@.take(i + 1).drop_last() =~= found@.take(i as int));
        }
        if is_among(owned, found[i]) {
            kept.push(found[i]);
        }
        i += 1;
    }
    assert(found@.take(found@.len() as int) =~= found@);
    kept
}

/// Ids are counted one by one: the next id is greater by one, and after the last the counter
/// starts over at zero.
pub proof fn ids_are_counted(counter: u64, n: nat)
    ensures
        counter + n <= u64::MAX ==> counter_after_many(counter, n) == counter + n,
        counter_after(u64::MAX) == 0,
        counter < u64::MAX ==> counter_after(counter) == counter + 1,
{
    if counter + n <= u64::MAX {
        counter_counts(counter, n);
    }
}

/// The entities of a virtual machine come in the order in which the marked entities stand, each
/// as often as it stands there; those of other machines are left out.
pub proof fn owned_entities_keep_their_order(
    a: Seq<(u64, VmTag)>,
    b: Seq<(u64, VmTag)>,
    entity: u64,
    tag: VmTag,
    vm: VmId,
)
    ensures
        owned_by(a + b, vm) == owned_by(a, vm) + owned_by(b, vm),
        tag.vm == vm ==> owned_by(seq![(entity, tag)], vm) == seq![entity],
        tag.vm != vm ==> owned_by(seq![(entity, tag)], vm).len() == 0,
    decreases b.len(),
{
    if b.len() == 0 {
        assert(a + b =~= a);
        assert(owned_by(a, vm) + owned_by(b, vm) =~= owned_by(a, vm));
    } else {
        owned_entities_keep_their_order(a, b.drop_last(), entity, tag, vm);
        assert((a + b).drop_last() =~= a + b.drop_last());
        assert((a + b).last() == b.last());
        assert(owned_by(a + b, vm) =~= owned_by(a, vm) + owned_by(b, vm));
    }
    assert(seq![(entity, tag)].drop_last() =~= Seq::<(u64, VmTag)>::empty());
    assert(seq![(entity, tag)].last() == (entity, tag));
    assert(owned_by(seq![(entity, tag)].drop_last(), vm) =~= Seq::<u64>::empty());
    assert(tag.vm == vm ==> owned_by(seq![(entity, tag)], vm) =~= seq![entity]);
}

/// Keeping what is owned keeps the order of what was found and drops everything else.
pub proof fn kept_entities_keep_their_order(
    a: Seq<u64>,
    b: Seq<u64>,
    entity: u64,
    owned: Seq<u64>,
)
    ensures
        owned_among(a + b, owned) == owned_among(a, owned) + owned_among(b, owned),
        owned.contains(entity) ==> owned_among(seq![entity], owned) == seq![entity],
        !owned.contains(entity) ==> owned_among(seq![entity], owned).len() == 0,
    decreases b.len(),
{
    reveal(Seq::filter);
    if b.len() == 0 {
        assert(a + b =~= a);
        assert(owned_among(a, owned) + owned_among(b, owned) =~= owned_among(a, owned));
    } else {
        kept_entities_keep_their_order(a, b.drop_last(), entity, owned);
        assert((a + b).drop_last() =~= a + b.drop_last());
        assert((a + b).last() == b.last());
        assert(owned_among(a + b, owned) =~= owned_among(a, owned) + owned_among(b, owned));
    }
    let one = seq![entity];
    assert(one.drop_last() =~= Seq::<u64>::empty());
    assert(one.last() == entity);
    assert(owned_among(one.drop_last(), owned) =~= Seq::<u64>::empty());
    assert(owned.contains(entity) ==> owned_among(one, owned) =~= one);
}

} // verus!
