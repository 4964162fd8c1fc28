//! Showing the entities of virtual machines: which mirror entities the renderer needs, and how
//! they hang together.
//!
//! Every kind of thing that can be shown has its own table from entities to their mirrors. In each
//! frame the entities of that kind are gone through: one that has a mirror is updated, one that
//! has none gets one, and mirrors whose entity is gone are taken away.
use bevy_ecs::world::World;
use vstd::prelude::*;

use crate::world_access;

verus! {

/// A table from entities to their mirrors.
pub struct EntityMap {
    entries: Vec<(u64, u64)>,
}

/// The mirrors in a list of entities and mirrors.
pub open spec fn mirrors_of(entries: Seq<(u64, u64)>) -> Map<u64, u64>
    decreases entries.len(),
{
    if entries.len() == 0 {
        Map::empty()
    } else {
        mirrors_of(entries.drop_last()).insert(entries.last().0, entries.last().1)
    }
}

/// The entities in a list of entities and mirrors.
pub open spec fn entities_of(entries: Seq<(u64, u64)>) -> Seq<u64> {
    entries.map_values(|e: (u64, u64)| e.0)
}

/// The list after an entity was given a mirror: in its place, or at the end.
pub open spec fn with_mirror(entries: Seq<(u64, u64)>, entity: u64, mirror: u64) -> Seq<(u64, u64)> {
    if entities_of(entries).contains(entity) {
        entries.update(entities_of(entries).index_of(entity), (entity, mirror))
    } else {
        entries.push((entity, mirror))
    }
}

impl View for EntityMap {
    type V = Seq<(u64, u64)>;

    closed spec fn view(&self) -> Seq<(u64, u64)> {
        self.entries@
    }
}

proof fn mirror_at(entries: Seq<(u64, u64)>, i: int)
    requires
        entities_of(entries).no_duplicates(),
        0 <= i < entries.len(),
    ensures
        mirrors_of(entries).contains_key(entries[i].0),
        mirrors_of(entries)[entries[i].0] == entries[i].1,
    decreases entries.len(),
{
    let shorter = entries.drop_last();
    if i < shorter.len() {
        assert forall|a: int, b: int|
            0 <= a < shorter.len() && 0 <= b < shorter.len() && a != b implies entities_of(
            shorter,
        )[a] != entities_of(shorter)[b] by {
            assert(entities_of(entries)[a] != entities_of(entries)[b]);
        }
        mirror_at(shorter, i);
        assert(entities_of(entries)[i] != entities_of(entries)[entries.len() - 1]);
    }
}

/// A table has mirrors for exactly the entities that it lists.
pub proof fn mirrored_are_listed(entries: Seq<(u64, u64)>, entity: u64)
    ensures
        mirrors_of(entries).contains_key(entity) <==> entities_of(entries).contains(entity),
    decreases entries.len(),
{
    if entries.len() > 0 {
        let shorter = entries.drop_last();
        let all = entities_of(entries);
        mirrored_are_listed(shorter, entity);
        if all.contains(entity) {
            let i = choose|i: int| 0 <= i < all.len() && all[i] == entity;
            if i < shorter.len() {
                assert(entities_of(shorter)[i] == entity);
            }
        }
        if entities_of(shorter).contains(entity) {
            let i = choose|i: int|
                0 <= i < entities_of(shorter).len() && entities_of(shorter)[i] == entity;
            assert(all[i] == entity);
        }
        assert(all[entries.len() - 1] == entries.last().0);
    }
}

/// An entity that is to be shown, and its mirror.
#[derive(Debug, Clone, Copy, PartialEq, Eq, Structural)]
pub struct Mirrored {
    pub entity: u64,
    pub mirror: u64,
    /// Whether the mirror was made just now. An older one is to be updated.
    pub fresh: bool,
}

/// What a frame does to the mirrors of one kind.
pub struct Frame {
    /// The entities that are shown, in order.
    pub shown: Vec<Mirrored>,
    /// The mirrors to be taken away.
    pub gone: Vec<u64>,
}

/// Whether `shown` is what entity `i` of `live` needs: the mirror it has, or one that `spawn` made
/// in the world of the host, which is left alone if there is one.
pub open spec fn is_shown<W, F: Fn(usize, W) -> (W, u64)>(
    mirrors: Map<u64, u64>,
    live: Seq<u64>,
    spawn: F,
    worlds: Seq<W>,
    shown: Seq<Mirrored>,
    i: int,
) -> bool {
    &&& shown[i].entity == live[i]
    &&& shown[i].fresh == !mirrors.contains_key(live[i])
    &&& if shown[i].fresh {
        spawn.ensures((i as usize, worlds[i]), (worlds[i + 1], shown[i].mirror))
    } else {
        shown[i].mirror == mirrors[live[i]] && worlds[i + 1] == worlds[i]
    }
}

/// Whether the first entities of `live`, as many as are shown, were gone through in order: one
/// mirror is made for each that has none, and nothing else is done to the world of the host.
pub open spec fn shown_in_turn<W, F: Fn(usize, W) -> (W, u64)>(
    mirrors: Map<u64, u64>,
    live: Seq<u64>,
    spawn: F,
    worlds: Seq<W>,
    shown: Seq<Mirrored>,
) -> bool {
    &&& worlds.len() == shown.len() + 1
    &&& forall|i: int|
        0 <= i < shown.len() ==> #[trigger] is_shown(mirrors, live, spawn, worlds, shown, i)
}

/// The mirrors of the entities that are not live any more.
pub open spec fn gone_from(entries: Seq<(u64, u64)>, live: Seq<u64>) -> Seq<u64>
    decreases entries.len(),
{
    if entries.len() == 0 {
        Seq::empty()
    } else {
        let rest = gone_from(entries.drop_last(), live);
        if live.contains(entries.last().0) {
            rest
        } else {
            rest.push(entries.last().1)
        }
    }
}

/// The entries of the entities that are live.
pub open spec fn kept_of(entries: Seq<(u64, u64)>, live: Seq<u64>) -> Seq<(u64, u64)>
    decreases entries.len(),
{
    if entries.len() == 0 {
        Seq::empty()
    } else {
        let rest = kept_of(entries.drop_last(), live);
        if live.contains(entries.last().0) {
            rest.push(entries.last())
        } else {
            rest
        }
    }
}

fn is_among(list: &Vec<u64>, entity: u64) -> (yes: bool)
    ensures
        yes == list@.contains(entity),
{
    let mut i: usize = 0;
    while i < list.len()
        invariant
            i <= list.len(),
            forall|j: int| 0 <= j < i ==> list@[j] != entity,
        decreases list.len() - i,
    {
        if list[i] == entity {
            return true;
        }
        i += 1;
    }
    false
}

proof fn kept_entries(entries: Seq<(u64, u64)>, live: Seq<u64>)
    requires
        entities_of(entries).no_duplicates(),
    ensures
        entities_of(kept_of(entries, live)).no_duplicates(),
        forall|e: u64| #[trigger]
            mirrors_of(kept_of(entries, live)).contains_key(e) <==> mirrors_of(
                entries,
            ).contains_key(e) && live.contains(e),
        forall|e: u64| #[trigger]
            mirrors_of(kept_of(entries, live)).contains_key(e) ==> mirrors_of(
                kept_of(entries, live),
            )[e] == mirrors_of(entries)[e],
    decreases entries.len(),
{
    if entries.len() > 0 {
        let shorter = entries.drop_last();
        let all = entities_of(entries);
        assert forall|a: int, b: int|
            0 <= a < shorter.len() && 0 <= b < shorter.len() && a != b implies entities_of(
            shorter,
        )[a] != entities_of(shorter)[b] by {
            assert(all[a] != all[b]);
        }
        kept_entries(shorter, live);
        let last = entries.last();
        let rest = kept_of(shorter, live);
        let kept = kept_of(entries, live);
        mirrored_are_listed(shorter, last.0);
        if entities_of(shorter).contains(last.0) {
            let i = choose|i: int|
                0 <= i < entities_of(shorter).len() && entities_of(shorter)[i] == last.0;
            assert(all[i] == all[entries.len() - 1]);
        }
        assert(!mirrors_of(shorter).contains_key(last.0));
        mirrored_are_listed(rest, last.0);
        assert(!mirrors_of(rest).contains_key(last.0));
        if live.contains(last.0) {
            assert(kept.drop_last() =~= rest);
            assert(entities_of(kept) =~= entities_of(rest).push(last.0));
        }
    }
}

impl EntityMap {
    #[verifier::type_invariant]
    spec fn entities_differ(self) -> bool {
        entities_of(self.entries@).no_duplicates()
    }

    /// A table without mirrors.
    pub fn new() -> (map: Self)
        ensures
            map@.len() == 0,
    {
        EntityMap { entries: Vec::new() }
    }

    /// The mirror of an entity.
    pub fn get(&self, entity: u64) -> (mirror: Option<u64>)
        ensures
            mirror == (if mirrors_of(self@).contains_key(entity) {
                Some(mirrors_of(self@)[entity])
            } else {
                None
            }),
    {
        proof {
            use_type_invariant(self);
            mirrored_are_listed(self@, entity);
        }
        let mut i: usize = 0;
        while i < self.entries.len()
            invariant
                i <= self.entries@.len(),
                entities_of(self.entries@).no_duplicates(),
                forall|j: int| 0 <= j < i ==> entities_of(self.entries@)[j] != entity,
            decreases self.entries@.len() - i,
        {
            if self.entries[i].0 == entity {
                proof {
                    mirror_at(self@, i as int);
                }
                return Some(self.entries[i].1);
            }
            i += 1;
        }
        None
    }

    /// Gives an entity a mirror, in place of the one it had.
    pub fn insert(&mut self, entity: u64, mirror: u64)
        ensures
            mirrors_of(final(self)@) == mirrors_of(old(self)@).insert(entity, mirror),
            final(self)@ == with_mirror(old(self)@, entity, mirror),
    {
        proof {
            use_type_invariant(&*self);
        }
        let ghost before = self.entries@;
        let mut entries: Vec<(u64, u64)> = Vec::new();
        std::mem::swap(&mut entries, &mut self.entries);
        let mut i: usize = 0;
        while i < entries.len()
            invariant
                i <= entries@.len(),
                entries@ == before,
                before == old(self)@,
                entities_of(before).no_duplicates(),
                forall|j: int| 0 <= j < i ==> entities_of(before)[j] != entity,
            decreases entries@.len() - i,
        {
            if entries[i].0 == entity {
                entries.set(i, (entity, mirror));
                proof {
                    assert(entities_of(before)[i as int] == entity);
                    assert(entities_of(before).index_of(entity) == i);
                    assert(entities_of(entries@) =~= entities_of(before));
                    assert(mirrors_of(entries@) =~= mirrors_of(before).insert(entity, mirror)) by {
                        same_but_one(before, i as int, mirror);
                    }
                }
                self.entries = entries;
                return ;
            }
            i += 1;
        }
        entries.push((entity, mirror));
        proof {
            assert(entities_of(entries@) =~= entities_of(before).push(entity));
            assert(entries@.drop_last() =~= before);
        }
        self.entries = entries;
    }

    /// Drops the entries of entities that are not live any more, and gives back their mirrors,
    /// which are to be taken away.
    pub fn despawn_missing(&mut self, live: &Vec<u64>) -> (gone: Vec<u64>)
        ensures
            final(self)@ == kept_of(old(self)@, live@),
            gone@ == gone_from(old(self)@, live@),
    {
        proof {
            use_type_invariant(&*self);
            kept_entries(self@, live@);
        }
        let ghost before = self.entries@;
        let mut entries: Vec<(u64, u64)> = Vec::new();
        std::mem::swap(&mut entries, &mut self.entries);
        let mut kept: Vec<(u64, u64)> = Vec::new();
        let mut gone: Vec<u64> = Vec::new();
        let mut i: usize = 0;
        assert(before.take(0) =~= Seq::<(u64, u64)>::empty());
        while i < entries.len()
            invariant
                i <= entries@.len(),
                entries@ == before,
                kept@ == kept_of(before.take(i as int), live@),
                gone@ == gone_from(before.take(i as int), live@),
            decreases entries@.len() - i,
        {
            assert(before.take(i + 1).drop_last() =~= before.take(i as int));
            let (entity, mirror) = entries[i];
            if is_among(live, entity) {
                kept.push((entity, mirror));
            } else {
                gone.push(mirror);
            }
            i += 1;
        }
        assert(before.take(before.len() as int) =~= before);
        self.entries = kept;
        gone
    }

    /// Goes through the entities of one kind that are live: each gets the mirror it has, or a new
    /// one, which `spawn` makes for the entity at a position. Mirrors of other entities are to be
    /// taken away.
    pub fn sync<W, F: Fn(usize, W) -> (W, u64)>(
        &mut self,
        live: &Vec<u64>,
        world: W,
        spawn: &F,
    ) -> (synced: (W, Frame))
        requires
            live@.no_duplicates(),
            forall|i: usize, w: W| 0 <= i < live@.len() ==> #[trigger] spawn.requires((i, w)),
        ensures
            synced.1.shown@.len() == live@.len(),
            exists|worlds: Seq<W>|
                {
                    &&& #[trigger] shown_in_turn(
                        mirrors_of(old(self)@),
                        live@,
                        *spawn,
                        worlds,
                        synced.1.shown@,
                    )
                    &&& worlds[0] == world
                    &&& worlds.last() == synced.0
                },
            synced.1.gone@ == gone_from(old(self)@, live@),
            forall|e: u64| #[trigger]
                mirrors_of(final(self)@).contains_key(e) <==> live@.contains(e),
            forall|i: int|
                0 <= i < live@.len() ==> mirrors_of(final(self)@)[#[trigger] live@[i]]
                    == synced.1.shown@[i].mirror,
    {
        let ghost start = self@;
        let ghost mirrors = mirrors_of(self@);
        let ghost first = world;
        let mut world = world;
        let ghost mut worlds: Seq<W> = seq![world];
        let mut shown: Vec<Mirrored> = Vec::new();
        let mut i: usize = 0;
        while i < live.len()
            invariant
                i <= live@.len(),
                shown@.len() == i,
                start == old(self)@,
                mirrors == mirrors_of(start),
                live@.no_duplicates(),
                forall|k: usize, w: W| 0 <= k < live@.len() ==> #[trigger] spawn.requires((k, w)),
                worlds[0] == first,
                worlds.last() == world,
                shown_in_turn(mirrors, live@, *spawn, worlds, shown@),
                gone_from(self@, live@) == gone_from(start, live@),
                forall|e: u64| #[trigger]
                    mirrors_of(self@).contains_key(e) <==> mirrors.contains_key(e) || live@.take(
                        i as int,
                    ).contains(e),
                forall|k: int| i <= k < live@.len() ==> (mirrors_of(self@).contains_key(
                    #[trigger] live@[k],
                ) ==> mirrors_of(self@)[live@[k]] == mirrors[live@[k]]),
                forall|k: int|
                    0 <= k < i ==> mirrors_of(self@)[#[trigger] live@[k]] == shown@[k].mirror,
            decreases live@.len() - i,
        {
            let entity = live[i];
            let ghost before = self@;
            let ghost shown_before = shown@;
            let ghost worlds_before = worlds;
            proof {
                crate::text::take_one_more(live@, i as int);
                assert(!live@.take(i as int).contains(entity)) by {
                    if live@.take(i as int).contains(entity) {
                        let k = choose|k: int|
                            0 <= k < live@.take(i as int).len() && live@.take(i as int)[k]
                                == entity;
                        assert(live@[k] == live@[i as int]);
                    }
                }
            }
            match self.get(entity) {
                Some(mirror) => {
                    shown.push(Mirrored { entity, mirror, fresh: false });
                },
                None => {
                    let (after, mirror) = spawn(i, world);
                    world = after;
                    self.insert(entity, mirror);
                    shown.push(Mirrored { entity, mirror, fresh: true });
                    proof {
                        mirrored_are_listed(before, entity);
                        assert(self@.drop_last() =~= before);
                        gone_is_kept(before, self@, live@, entity);
                    }
                },
            }
            proof {
                worlds = worlds.push(world);
                assert forall|k: int| 0 <= k < i + 1 implies #[trigger] is_shown(
                    mirrors,
                    live@,
                    *spawn,
                    worlds,
                    shown@,
                    k,
                ) by {
                    if k < i {
                        assert(is_shown(mirrors, live@, *spawn, worlds_before, shown_before, k));
                    }
                }
            }
            i += 1;
        }
        let ghost full = self@;
        assert(live@.take(live@.len() as int) =~= live@);
        proof {
            use_type_invariant(&*self);
            kept_entries(full, live@);
        }
        let gone = self.despawn_missing(live);
        assert forall|k: int| 0 <= k < live@.len() implies mirrors_of(self@)[#[trigger] live@[k]]
            == shown@[k].mirror by {
            assert(mirrors_of(full).contains_key(live@[k]));
            assert(live@.contains(live@[k]));
            assert(mirrors_of(self@).contains_key(live@[k]));
        }
        let synced = (world, Frame { shown, gone });
        assert(worlds.last() == synced.0);
        assert(shown_in_turn(mirrors, live@, *spawn, worlds, synced.1.shown@));
        synced
    }
}

proof fn same_but_one(entries: Seq<(u64, u64)>, i: int, mirror: u64)
    requires
        entities_of(entries).no_duplicates(),
        0 <= i < entries.len(),
    ensures
        mirrors_of(entries.update(i, (entries[i].0, mirror))) == mirrors_of(entries).insert(
            entries[i].0,
            mirror,
        ),
    decreases entries.len(),
{
    let after = entries.update(i, (entries[i].0, mirror));
    let shorter = entries.drop_last();
    if i == entries.len() - 1 {
        assert(after.drop_last() =~= shorter);
        assert(mirrors_of(after) =~= mirrors_of(entries).insert(entries[i].0, mirror));
    } else {
        assert forall|a: int, b: int|
            0 <= a < shorter.len() && 0 <= b < shorter.len() && a != b implies entities_of(
            shorter,
        )[a] != entities_of(shorter)[b] by {
            assert(entities_of(entries)[a] != entities_of(entries)[b]);
        }
        same_but_one(shorter, i, mirror);
        assert(after.drop_last() =~= shorter.update(i, (entries[i].0, mirror)));
        assert(entities_of(entries)[i] != entities_of(entries)[entries.len() - 1]);
        assert(mirrors_of(after) =~= mirrors_of(entries).insert(entries[i].0, mirror));
    }
}

proof fn gone_is_kept(
    before: Seq<(u64, u64)>,
    after: Seq<(u64, u64)>,
    live: Seq<u64>,
    entity: u64,
)
    requires
        after.len() > 0,
        after.drop_last() =~= before,
        after.last().0 == entity,
        live.contains(entity),
    ensures
        gone_from(after, live) == gone_from(before, live),
{
}

/// The list after the entries of another were added to it, one by one.
pub open spec fn with_all(entries: Seq<(u64, u64)>, more: Seq<(u64, u64)>) -> Seq<(u64, u64)>
    decreases more.len(),
{
    if more.len() == 0 {
        entries
    } else {
        with_mirror(with_all(entries, more.drop_last()), more.last().0, more.last().1)
    }
}

impl EntityMap {
    /// Adds all entries of another table. Where both have a mirror for an entity, that of the
    /// other one counts.
    pub fn add_all(&mut self, other: &EntityMap)
        ensures
            final(self)@ == with_all(old(self)@, other@),
            mirrors_of(final(self)@) == mirrors_of(old(self)@).union_prefer_right(
                mirrors_of(other@),
            ),
    {
        let mut i: usize = 0;
        assert(other@.take(0) =~= Seq::<(u64, u64)>::empty());
        assert(mirrors_of(self@) =~= mirrors_of(self@).union_prefer_right(
            mirrors_of(other@.take(0)),
        ));
        while i < other.entries.len()
            invariant
                i <= other.entries@.len(),
                self@ == with_all(old(self)@, other@.take(i as int)),
                mirrors_of(self@) == mirrors_of(old(self)@).union_prefer_right(
                    mirrors_of(other@.take(i as int)),
                ),
            decreases other.entries@.len() - i,
        {
            let (entity, mirror) = other.entries[i];
            assert(other@.take(i + 1).drop_last() =~= other@.take(i as int));
            self.insert(entity, mirror);
            assert(mirrors_of(self@) =~= mirrors_of(old(self)@).union_prefer_right(
                mirrors_of(other@.take(i + 1)),
            ));
            i += 1;
        }
        assert(other@.take(other@.len() as int) =~= other@);
    }
}

/// A mirror, and the mirror that is to be its parent, if one is.
#[derive(Debug, Clone, Copy, PartialEq, Eq)]
pub struct Placed {
    pub mirror: u64,
    pub parent: Option<u64>,
}

/// The mirror of the parent of an entity, if it has a parent that is mirrored.
pub open spec fn mirrored_parent(parents: Map<u64, u64>, mirrors: Map<u64, u64>, entity: u64) -> Option<
    u64,
> {
    if parents.contains_key(entity) && mirrors.contains_key(parents[entity]) {
        Some(mirrors[parents[entity]])
    } else {
        None
    }
}

/// The mirrors that are to have no parent, in the order of the table.
pub open spec fn tops(
    parents: Map<u64, u64>,
    mirrors: Map<u64, u64>,
    entries: Seq<(u64, u64)>,
) -> Seq<Placed>
    decreases entries.len(),
{
    if entries.len() == 0 {
        Seq::empty()
    } else {
        let rest = tops(parents, mirrors, entries.drop_last());
        if mirrored_parent(parents, mirrors, entries.last().0) is None {
            rest.push(Placed { mirror: entries.last().1, parent: None })
        } else {
            rest
        }
    }
}

/// The mirrors of the children that are mirrored, to be put under a mirror, in order.
pub open spec fn put_under(mirrors: Map<u64, u64>, children: Seq<u64>, parent: u64) -> Seq<Placed>
    decreases children.len(),
{
    if children.len() == 0 {
        Seq::empty()
    } else {
        let rest = put_under(mirrors, children.drop_last(), parent);
        if mirrors.contains_key(children.last()) {
            rest.push(Placed { mirror: mirrors[children.last()], parent: Some(parent) })
        } else {
            rest
        }
    }
}

/// The children of an entity.
pub open spec fn children_in(children: Map<u64, Seq<u64>>, entity: u64) -> Seq<u64> {
    if children.contains_key(entity) {
        children[entity]
    } else {
        Seq::empty()
    }
}

/// The mirrors that are to have a parent: those of one parent next to each other, in the order of
/// its children.
pub open spec fn nested(
    children: Map<u64, Seq<u64>>,
    mirrors: Map<u64, u64>,
    entries: Seq<(u64, u64)>,
) -> Seq<Placed>
    decreases entries.len(),
{
    if entries.len() == 0 {
        Seq::empty()
    } else {
        nested(children, mirrors, entries.drop_last()) + put_under(
            mirrors,
            children_in(children, entries.last().0),
            entries.last().1,
        )
    }
}

/// Where all mirrors of a table are to be.
pub open spec fn placement(
    parents: Map<u64, u64>,
    children: Map<u64, Seq<u64>>,
    entries: Seq<(u64, u64)>,
) -> Seq<Placed> {
    tops(parents, mirrors_of(entries), entries) + nested(
        children,
        mirrors_of(entries),
        entries,
    )
}

fn place_under(table: &EntityMap, children: &Vec<u64>, parent: u64, places: &mut Vec<Placed>)
    ensures
        final(places)@ == old(places)@ + put_under(mirrors_of(table@), children@, parent),
{
    let ghost before = places@;
    let ghost mirrors = mirrors_of(table@);
    let mut i: usize = 0;
    assert(children@.take(0) =~= Seq::<u64>::empty());
    assert(places@ =~= before + put_under(mirrors, children@.take(0), parent));
    while i < children.len()
        invariant
            i <= children@.len(),
            mirrors == mirrors_of(table@),
            places@ == before + put_under(mirrors, children@.take(i as int), parent),
        decreases children@.len() - i,
    {
        let ghost so_far = places@;
        assert(children@.take(i + 1).drop_last() =~= children@.take(i as int));
        if let Some(mirror) = table.get(children[i]) {
            places.push(Placed { mirror, parent: Some(parent) });
        }
        i += 1;
        assert(places@ =~= before + put_under(mirrors, children@.take(i as int), parent));
    }
    assert(children@.take(children@.len() as int) =~= children@);
}

fn is_top(world: &World, table: &EntityMap, entity: u64) -> (top: bool)
    ensures
        top == (mirrored_parent(
            world_access::world_parents(*world),
            mirrors_of(table@),
            entity,
        ) is None),
{
    match world_access::parent_of(world, entity) {
        Some(parent) => table.get(parent).is_none(),
        None => true,
    }
}

/// Where all mirrors of a table are to be: those without a mirrored parent first, then those of
/// each parent in the order of its children.
pub fn place_mirrors(world: &World, table: &EntityMap) -> (places: Vec<Placed>)
    ensures
        places@ == placement(
            world_access::world_parents(*world),
            world_access::world_children(*world),
            table@,
        ),
{
    let ghost parents = world_access::world_parents(*world);
    let ghost children = world_access::world_children(*world);
    let ghost mirrors = mirrors_of(table@);
    let mut places: Vec<Placed> = Vec::new();
    let mut i: usize = 0;
    assert(table@.take(0) =~= Seq::<(u64, u64)>::empty());
    while i < table.entries.len()
        invariant
            i <= table.entries@.len(),
            parents == world_access::world_parents(*world),
            mirrors == mirrors_of(table@),
            places@ == tops(parents, mirrors, table@.take(i as int)),
        decreases table.entries@.len() - i,
    {
        assert(table@.take(i + 1).drop_last() =~= table@.take(i as int));
        let (entity, mirror) = table.entries[i];
        if is_top(world, table, entity) {
            places.push(Placed { mirror, parent: None });
        }
        i += 1;
    }
    assert(table@.take(table@.len() as int) =~= table@);
    let ghost first = places@;
    assert(first + nested(children, mirrors, table@.take(0)) =~= first);
    let mut k: usize = 0;
    while k < table.entries.len()
        invariant
            k <= table.entries@.len(),
            children == world_access::world_children(*world),
            mirrors == mirrors_of(table@),
            places@ == first + nested(children, mirrors, table@.take(k as int)),
        decreases table.entries@.len() - k,
    {
        assert(table@.take(k + 1).drop_last() =~= table@.take(k as int));
        let (entity, mirror) = table.entries[k];
        let below = world_access::children_of(world, entity);
        let ghost so_far = places@;
        place_under(table, &below, mirror, &mut places);
        k += 1;
        assert(places@ =~= first + nested(children, mirrors, table@.take(k as int)));
    }
    assert(table@.take(table@.len() as int) =~= table@);
    places
}

/// Those of the places that are not as they are to be, given the parents that the mirrors have.
pub open spec fn moves(places: Seq<Placed>, current: Seq<Option<u64>>) -> Seq<Placed>
    decreases places.len(),
{
    if places.len() == 0 {
        Seq::empty()
    } else {
        let rest = moves(places.drop_last(), current);
        if places.last().parent == current[places.len() - 1] {
            rest
        } else {
            rest.push(places.last())
        }
    }
}

proof fn moves_look_at_the_first(places: Seq<Placed>, current: Seq<Option<u64>>, more: Option<u64>)
    requires
        places.len() <= current.len(),
    ensures
        moves(places, current.push(more)) == moves(places, current),
    decreases places.len(),
{
    if places.len() > 0 {
        moves_look_at_the_first(places.drop_last(), current, more);
    }
}

/// Whether `changes` are the places that are not as they are to be, where the mirrors have these
/// parents.
pub open spec fn are_moves<F: Fn(u64) -> Option<u64>>(
    places: Seq<Placed>,
    current: F,
    parents: Seq<Option<u64>>,
    changes: Seq<Placed>,
) -> bool {
    &&& parents.len() == places.len()
    &&& forall|i: int|
        0 <= i < places.len() ==> current.ensures((places[i].mirror,), #[trigger] parents[i])
    &&& changes == moves(places, parents)
}

fn same_parent(a: Option<u64>, b: Option<u64>) -> (same: bool)
    ensures
        same == (a == b),
{
    match (a, b) {
        (Some(x), Some(y)) => x == y,
        (None, None) => true,
        _ => false,
    }
}

/// The mirrors whose parent has to change so that they hang together as their entities do, in the
/// order in which the changes are to be made. `current` gives the parent that a mirror has.
pub fn sync_hierarchy<F: Fn(u64) -> Option<u64>>(
    world: &World,
    table: &EntityMap,
    current: &F,
) -> (changes: Vec<Placed>)
    requires
        forall|mirror: u64| #[trigger] current.requires((mirror,)),
    ensures
        exists|parents: Seq<Option<u64>>| #[trigger]
            are_moves(
                placement(
                    world_access::world_parents(*world),
                    world_access::world_children(*world),
                    table@,
                ),
                *current,
                parents,
                changes@,
            ),
{
    let places = place_mirrors(world, table);
    let mut changes: Vec<Placed> = Vec::new();
    let ghost mut parents: Seq<Option<u64>> = Seq::empty();
    let mut i: usize = 0;
    assert(places@.take(0) =~= Seq::<Placed>::empty());
    while i < places.len()
        invariant
            i <= places@.len(),
            parents.len() == i,
            forall|mirror: u64| #[trigger] current.requires((mirror,)),
            forall|k: int|
                0 <= k < i ==> current.ensures((places@[k].mirror,), #[trigger] parents[k]),
            changes@ == moves(places@.take(i as int), parents),
        decreases places@.len() - i,
    {
        let place = places[i];
        let parent = current(place.mirror);
        proof {
            assert(places@.take(i + 1).drop_last() =~= places@.take(i as int));
            moves_look_at_the_first(places@.take(i as int), parents, parent);
            parents = parents.push(parent);
        }
        if !same_parent(place.parent, parent) {
            changes.push(place);
        }
        i += 1;
    }
    assert(places@.take(places@.len() as int) =~= places@);
    assert(are_moves(places@, *current, parents, changes@));
    changes
}

/// Whether every entity is listed among the children of its parent, and nowhere else.
pub open spec fn is_consistent(parents: Map<u64, u64>, children: Map<u64, Seq<u64>>) -> bool {
    forall|child: u64, parent: u64|
        (parents.contains_key(child) && parents[child] == parent) <==> #[trigger] children_in(
            children,
            parent,
        ).contains(child)
}

proof fn tops_hold(
    parents: Map<u64, u64>,
    mirrors: Map<u64, u64>,
    entries: Seq<(u64, u64)>,
    place: Placed,
)
    ensures
        tops(parents, mirrors, entries).contains(place) <==> place.parent is None && exists|i: int|
            0 <= i < entries.len() && (#[trigger] entries[i]).1 == place.mirror
                && mirrored_parent(parents, mirrors, entries[i].0) is None,
    decreases entries.len(),
{
    if entries.len() > 0 {
        let shorter = entries.drop_last();
        let rest = tops(parents, mirrors, shorter);
        let all = tops(parents, mirrors, entries);
        tops_hold(parents, mirrors, shorter, place);
        if all.contains(place) {
            let k = choose|k: int| 0 <= k < all.len() && all[k] == place;
            if k < rest.len() {
                assert(rest[k] == place);
                let i = choose|i: int|
                    0 <= i < shorter.len() && (#[trigger] shorter[i]).1 == place.mirror
                        && mirrored_parent(parents, mirrors, shorter[i].0) is None;
                assert(entries[i] == shorter[i]);
            } else {
                assert(entries[entries.len() - 1].1 == place.mirror);
            }
        }
        if place.parent is None && exists|i: int|
            0 <= i < entries.len() && (#[trigger] entries[i]).1 == place.mirror && mirrored_parent(
                parents,
                mirrors,
                entries[i].0,
            ) is None {
            let i = choose|i: int|
                0 <= i < entries.len() && (#[trigger] entries[i]).1 == place.mirror
                    && mirrored_parent(parents, mirrors, entries[i].0) is None;
            if i < shorter.len() {
                assert(shorter[i] == entries[i]);
                let k = choose|k: int| 0 <= k < rest.len() && rest[k] == place;
                assert(all[k] == place);
            } else {
                assert(all[rest.len() as int] == place);
            }
        }
    }
}

proof fn put_under_holds(mirrors: Map<u64, u64>, children: Seq<u64>, parent: u64, place: Placed)
    ensures
        put_under(mirrors, children, parent).contains(place) <==> place.parent == Some(parent)
            && exists|i: int|
            0 <= i < children.len() && mirrors.contains_key(#[trigger] children[i])
                && mirrors[children[i]] == place.mirror,
    decreases children.len(),
{
    if children.len() > 0 {
        let shorter = children.drop_last();
        let rest = put_under(mirrors, shorter, parent);
        let all = put_under(mirrors, children, parent);
        put_under_holds(mirrors, shorter, parent, place);
        if all.contains(place) {
            let k = choose|k: int| 0 <= k < all.len() && all[k] == place;
            if k < rest.len() {
                assert(rest[k] == place);
                let i = choose|i: int|
                    0 <= i < shorter.len() && mirrors.contains_key(#[trigger] shorter[i])
                        && mirrors[shorter[i]] == place.mirror;
                assert(children[i] == shorter[i]);
            } else {
                assert(mirrors[children[children.len() - 1]] == place.mirror);
            }
        }
        if place.parent == Some(parent) && exists|i: int|
            0 <= i < children.len() && mirrors.contains_key(#[trigger] children[i])
                && mirrors[children[i]] == place.mirror {
            let i = choose|i: int|
                0 <= i < children.len() && mirrors.contains_key(#[trigger] children[i])
                    && mirrors[children[i]] == place.mirror;
            if i < shorter.len() {
                assert(shorter[i] == children[i]);
                let k = choose|k: int| 0 <= k < rest.len() && rest[k] == place;
                assert(all[k] == place);
            } else {
                assert(all[rest.len() as int] == place);
            }
        }
    }
}

proof fn nested_hold(
    children: Map<u64, Seq<u64>>,
    mirrors: Map<u64, u64>,
    entries: Seq<(u64, u64)>,
    place: Placed,
)
    ensures
        nested(children, mirrors, entries).contains(place) <==> exists|p: int|
            0 <= p < entries.len() && put_under(
                mirrors,
                children_in(children, (#[trigger] entries[p]).0),
                entries[p].1,
            ).contains(place),
    decreases entries.len(),
{
    if entries.len() > 0 {
        let shorter = entries.drop_last();
        let rest = nested(children, mirrors, shorter);
        let last = put_under(
            mirrors,
            children_in(children, entries.last().0),
            entries.last().1,
        );
        let all = nested(children, mirrors, entries);
        nested_hold(children, mirrors, shorter, place);
        if all.contains(place) {
            let k = choose|k: int| 0 <= k < all.len() && all[k] == place;
            if k < rest.len() {
                assert(rest[k] == place);
                let p = choose|p: int|
                    0 <= p < shorter.len() && put_under(
                        mirrors,
                        children_in(children, (#[trigger] shorter[p]).0),
                        shorter[p].1,
                    ).contains(place);
                assert(entries[p] == shorter[p]);
            } else {
                assert(last[k - rest.len()] == place);
                assert(entries[entries.len() - 1] == entries.last());
            }
        }
        if exists|p: int|
            0 <= p < entries.len() && put_under(
                mirrors,
                children_in(children, (#[trigger] entries[p]).0),
                entries[p].1,
            ).contains(place) {
            let p = choose|p: int|
                0 <= p < entries.len() && put_under(
                    mirrors,
                    children_in(children, (#[trigger] entries[p]).0),
                    entries[p].1,
                ).contains(place);
            if p < shorter.len() {
                assert(shorter[p] == entries[p]);
                let k = choose|k: int| 0 <= k < rest.len() && rest[k] == place;
                assert(all[k] == place);
            } else {
                let k = choose|k: int| 0 <= k < last.len() && last[k] == place;
                assert(all[rest.len() + k] == place);
            }
        }
    }
}

/// Mirrors hang together as their entities do: the mirror of an entity is to be under the mirror
/// of the parent of the entity, and under nothing if there is no such mirror. No other place is
/// asked for.
pub proof fn mirrors_hang_together_as_entities_do(
    parents: Map<u64, u64>,
    children: Map<u64, Seq<u64>>,
    entries: Seq<(u64, u64)>,
    place: Placed,
)
    requires
        entities_of(entries).no_duplicates(),
        is_consistent(parents, children),
    ensures
        placement(parents, children, entries).contains(place) <==> exists|i: int|
            0 <= i < entries.len() && (#[trigger] entries[i]).1 == place.mirror
                && mirrored_parent(parents, mirrors_of(entries), entries[i].0) == place.parent,
{
    let mirrors = mirrors_of(entries);
    let first = tops(parents, mirrors, entries);
    let second = nested(children, mirrors, entries);
    let all = placement(parents, children, entries);
    tops_hold(parents, mirrors, entries, place);
    nested_hold(children, mirrors, entries, place);
    if all.contains(place) {
        let k = choose|k: int| 0 <= k < all.len() && all[k] == place;
        if k < first.len() {
            assert(first[k] == place);
        } else {
            assert(second[k - first.len()] == place);
            let p = choose|p: int|
                0 <= p < entries.len() && put_under(
                    mirrors,
                    children_in(children, (#[trigger] entries[p]).0),
                    entries[p].1,
                ).contains(place);
            let below = children_in(children, entries[p].0);
            put_under_holds(mirrors, below, entries[p].1, place);
            let c = choose|c: int|
                0 <= c < below.len() && mirrors.contains_key(#[trigger] below[c])
                    && mirrors[below[c]] == place.mirror;
            let child = below[c];
            assert(below.contains(child));
            assert(parents[child] == entries[p].0);
            mirror_at(entries, p);
            mirrored_are_listed(entries, child);
            let i = choose|i: int|
                0 <= i < entities_of(entries).len() && entities_of(entries)[i] == child;
            mirror_at(entries, i);
            assert(entries[i].1 == place.mirror);
            assert(mirrored_parent(parents, mirrors, entries[i].0) == place.parent);
        }
    }
    if exists|i: int|
        0 <= i < entries.len() && (#[trigger] entries[i]).1 == place.mirror && mirrored_parent(
            parents,
            mirrors,
            entries[i].0,
        ) == place.parent {
        let i = choose|i: int|
            0 <= i < entries.len() && (#[trigger] entries[i]).1 == place.mirror && mirrored_parent(
                parents,
                mirrors,
                entries[i].0,
            ) == place.parent;
        if place.parent is None {
            let k = choose|k: int| 0 <= k < first.len() && first[k] == place;
            assert(all[k] == place);
        } else {
            let child = entries[i].0;
            let parent = parents[child];
            let below = children_in(children, parent);
            assert(below.contains(child));
            let c = choose|c: int| 0 <= c < below.len() && below[c] == child;
            mirror_at(entries, i);
            mirrored_are_listed(entries, parent);
            let p = choose|p: int|
                0 <= p < entities_of(entries).len() && entities_of(entries)[p] == parent;
            mirror_at(entries, p);
            assert(entries[p].0 == parent);
            put_under_holds(mirrors, below, entries[p].1, place);
            assert(mirrors.contains_key(below[c]) && mirrors[below[c]] == place.mirror);
            assert(second.contains(place));
            let k = choose|k: int| 0 <= k < second.len() && second[k] == place;
            assert(all[first.len() + k] == place);
        }
    }
}

/// How a mirror takes part in picking.
#[derive(Debug, Clone, Copy, PartialEq, Eq, Structural)]
pub struct PickFlags {
    /// Whether what lies behind it is hidden from the pointer.
    pub should_block_lower: bool,
    /// Whether it takes picking events itself.
    pub is_hoverable: bool,
}

/// How the mirror of an element of the user interface takes part in picking: not at all, and
/// without hiding anything, unless its entity was made pickable.
pub fn ui_pick_flags(pickable: bool) -> (flags: PickFlags)
    ensures
        flags == (PickFlags { should_block_lower: pickable, is_hoverable: pickable }),
{
    if pickable {
        PickFlags { should_block_lower: true, is_hoverable: true }
    } else {
        PickFlags { should_block_lower: false, is_hoverable: false }
    }
}

/// The place of a camera in the order of cameras: as given if it fits, else 0.
pub fn camera_order(order: i32) -> (place: i16)
    ensures
        place == (if i16::MIN <= order <= i16::MAX {
            order as i16
        } else {
            0
        }),
{
    if -0x8000 <= order && order <= 0x7fff {
        order as i16
    } else {
        0
    }
}

/// An entity that a table lists has the mirror that stands beside it there, and only listed
/// entities have one.
pub proof fn a_listed_entity_has_its_mirror(entries: Seq<(u64, u64)>, i: int, entity: u64)
    requires
        entities_of(entries).no_duplicates(),
    ensures
        0 <= i < entries.len() ==> mirrors_of(entries).contains_key(entries[i].0) && mirrors_of(
            entries,
        )[entries[i].0] == entries[i].1,
        (forall|j: int| 0 <= j < entries.len() ==> (#[trigger] entries[j]).0 != entity)
            ==> !mirrors_of(entries).contains_key(entity),
{
    if 0 <= i < entries.len() {
        mirror_at(entries, i);
    }
    mirrored_are_listed(entries, entity);
    if entities_of(entries).contains(entity) {
        let j = choose|j: int|
            0 <= j < entities_of(entries).len() && entities_of(entries)[j] == entity;
        assert(entries[j].0 == entity);
    }
}

/// A mirror that is given to an entity replaces the one it had, in its place, or stands behind all
/// others; the other entries stay where they are.
pub proof fn a_new_mirror_comes_last(
    entries: Seq<(u64, u64)>,
    entity: u64,
    mirror: u64,
    i: int,
)
    requires
        entities_of(entries).no_duplicates(),
        0 <= i < entries.len(),
    ensures
        entries[i].0 == entity ==> with_mirror(entries, entity, mirror) == entries.update(
            i,
            (entity, mirror),
        ),
        (forall|j: int| 0 <= j < entries.len() ==> (#[trigger] entries[j]).0 != entity)
            ==> with_mirror(entries, entity, mirror) == entries.push((entity, mirror)),
        entries[i].0 != entity ==> with_mirror(entries, entity, mirror)[i] == entries[i],
{
    let all = entities_of(entries);
    if all.contains(entity) {
        let at = all.index_of(entity);
        assert(0 <= at < all.len() && all[at] == entity);
        assert(entries[at].0 == entity);
        if entries[i].0 == entity {
            assert(all[i] == all[at]);
        }
    } else if entries[i].0 == entity {
        assert(all[i] == entity);
    }
}

/// Adding tables goes entry by entry, in the order of the other table.
pub proof fn tables_are_added_entry_by_entry(
    entries: Seq<(u64, u64)>,
    a: Seq<(u64, u64)>,
    b: Seq<(u64, u64)>,
    entry: (u64, u64),
)
    ensures
        with_all(entries, a + b) == with_all(with_all(entries, a), b),
        with_all(entries, seq![entry]) == with_mirror(entries, entry.0, entry.1),
        with_all(entries, Seq::<(u64, u64)>::empty()) == entries,
    decreases b.len(),
{
    if b.len() == 0 {
        assert(a + b =~= a);
    } else {
        tables_are_added_entry_by_entry(entries, a, b.drop_last(), entry);
        assert((a + b).drop_last() =~= a + b.drop_last());
        assert((a + b).last() == b.last());
    }
    assert(seq![entry].drop_last() =~= Seq::<(u64, u64)>::empty());
    assert(seq![entry].last() == entry);
    assert(with_all(entries, seq![entry].drop_last()) == entries);
}

/// Every entry of a table is either kept, if its entity is live, or its mirror is taken away; both
/// lists keep the order of the table.
pub proof fn entries_are_kept_or_their_mirrors_go(
    a: Seq<(u64, u64)>,
    b: Seq<(u64, u64)>,
    entry: (u64, u64),
    live: Seq<u64>,
)
    ensures
        kept_of(a + b, live) == kept_of(a, live) + kept_of(b, live),
        gone_from(a + b, live) == gone_from(a, live) + gone_from(b, live),
        live.contains(entry.0) ==> kept_of(seq![entry], live) == seq![entry] && gone_from(
            seq![entry],
            live,
        ).len() == 0,
        !live.contains(entry.0) ==> kept_of(seq![entry], live).len() == 0 && gone_from(
            seq![entry],
            live,
        ) == seq![entry.1],
    decreases b.len(),
{
    if b.len() == 0 {
        assert(a + b =~= a);
        assert(kept_of(a, live) + kept_of(b, live) =~= kept_of(a, live));
        assert(gone_from(a, live) + gone_from(b, live) =~= gone_from(a, live));
    } else {
        entries_are_kept_or_their_mirrors_go(a, b.drop_last(), entry, live);
        assert((a + b).drop_last() =~= a + b.drop_last());
        assert((a + b).last() == b.last());
        assert(kept_of(a + b, live) =~= kept_of(a, live) + kept_of(b, live));
        assert(gone_from(a + b, live) =~= gone_from(a, live) + gone_from(b, live));
    }
    let one = seq![entry];
    assert(one.drop_last() =~= Seq::<(u64, u64)>::empty());
    assert(one.last() == entry);
    assert(kept_of(one.drop_last(), live) =~= Seq::<(u64, u64)>::empty());
    assert(gone_from(one.drop_last(), live) =~= Seq::<u64>::empty());
    assert(live.contains(entry.0) ==> kept_of(one, live) =~= one);
    assert(!live.contains(entry.0) ==> gone_from(one, live) =~= seq![entry.1]);
}

/// Each live entity is shown in its turn: by the mirror it has, which leaves the world of the host
/// as it is, or by one that is made for it at that point.
pub proof fn live_entities_are_shown_in_turn<W, F: Fn(usize, W) -> (W, u64)>(
    mirrors: Map<u64, u64>,
    live: Seq<u64>,
    spawn: F,
    worlds: Seq<W>,
    shown: Seq<Mirrored>,
    i: int,
)
    requires
        shown_in_turn(mirrors, live, spawn, worlds, shown),
        shown.len() == live.len(),
        0 <= i < live.len(),
    ensures
        worlds.len() == live.len() + 1,
        shown[i].entity == live[i],
        mirrors.contains_key(live[i]) ==> !shown[i].fresh && shown[i].mirror == mirrors[live[i]]
            && worlds[i + 1] == worlds[i],
        !mirrors.contains_key(live[i]) ==> shown[i].fresh && spawn.ensures(
            (i as usize, worlds[i]),
            (worlds[i + 1], shown[i].mirror),
        ),
{
    assert(is_shown(mirrors, live, spawn, worlds, shown, i));
}

/// The mirror of an entity hangs under that of its parent: if the entity has a parent, and the
/// parent has a mirror, that mirror is the one.
pub proof fn a_mirror_hangs_under_that_of_the_parent(
    parents: Map<u64, u64>,
    mirrors: Map<u64, u64>,
    entity: u64,
    parent: u64,
    mirror: u64,
)
    ensures
        parents.contains_key(entity) && parents[entity] == parent && mirrors.contains_key(parent)
            && mirrors[parent] == mirror ==> mirrored_parent(parents, mirrors, entity) == Some(
            mirror,
        ),
        !parents.contains_key(entity) ==> mirrored_parent(parents, mirrors, entity) is None,
        parents.contains_key(entity) && !mirrors.contains_key(parents[entity]) ==> mirrored_parent(
            parents,
            mirrors,
            entity,
        ) is None,
{
}

/// Children that are put under a mirror keep their order; those without a mirror are left out.
pub proof fn children_keep_their_order(
    mirrors: Map<u64, u64>,
    a: Seq<u64>,
    b: Seq<u64>,
    child: u64,
    parent: u64,
)
    ensures
        put_under(mirrors, a + b, parent) == put_under(mirrors, a, parent) + put_under(
            mirrors,
            b,
            parent,
        ),
        mirrors.contains_key(child) ==> put_under(mirrors, seq![child], parent) == seq![
            Placed { mirror: mirrors[child], parent: Some(parent) },
        ],
        !mirrors.contains_key(child) ==> put_under(mirrors, seq![child], parent).len() == 0,
    decreases b.len(),
{
    if b.len() == 0 {
        assert(a + b =~= a);
        assert(put_under(mirrors, a, parent) + put_under(mirrors, b, parent) =~= put_under(
            mirrors,
            a,
            parent,
        ));
    } else {
        children_keep_their_order(mirrors, a, b.drop_last(), child, parent);
        assert((a + b).drop_last() =~= a + b.drop_last());
        assert((a + b).last() == b.last());
        assert(put_under(mirrors, a + b, parent) =~= put_under(mirrors, a, parent) + put_under(
            mirrors,
            b,
            parent,
        ));
    }
    let one = seq![child];
    assert(one.drop_last() =~= Seq::<u64>::empty());
    assert(one.last() == child);
    assert(put_under(mirrors, one.drop_last(), parent) =~= Seq::<Placed>::empty());
    if mirrors.contains_key(child) {
        assert(put_under(mirrors, one, parent) =~= seq![
            Placed { mirror: mirrors[child], parent: Some(parent) },
        ]);
    }
}

proof fn parents_of_places(
    parents: Map<u64, u64>,
    children: Map<u64, Seq<u64>>,
    mirrors: Map<u64, u64>,
    entries: Seq<(u64, u64)>,
)
    ensures
        forall|k: int|
            0 <= k < tops(parents, mirrors, entries).len() ==> (
            #[trigger] tops(parents, mirrors, entries)[k]).parent is None,
        forall|k: int|
            0 <= k < nested(children, mirrors, entries).len() ==> (
            #[trigger] nested(children, mirrors, entries)[k]).parent is Some,
    decreases entries.len(),
{
    if entries.len() > 0 {
        let shorter = entries.drop_last();
        parents_of_places(parents, children, mirrors, shorter);
        let rest = nested(children, mirrors, shorter);
        let all = nested(children, mirrors, entries);
        let last = put_under(
            mirrors,
            children_in(children, entries.last().0),
            entries.last().1,
        );
        assert forall|k: int| 0 <= k < all.len() implies (#[trigger] all[k]).parent is Some by {
            if k < rest.len() {
                assert(all[k] == rest[k]);
            } else {
                let place = last[k - rest.len()];
                assert(last.contains(place));
                put_under_holds(
                    mirrors,
                    children_in(children, entries.last().0),
                    entries.last().1,
                    place,
                );
            }
        }
        let before = tops(parents, mirrors, shorter);
        let tops_now = tops(parents, mirrors, entries);
        assert forall|k: int| 0 <= k < tops_now.len() implies (
        #[trigger] tops_now[k]).parent is None by {
            if k < before.len() {
                assert(tops_now[k] == before[k]);
            }
        }
    }
}

/// Mirrors without a parent are placed before all others.
pub proof fn tops_are_placed_first(
    parents: Map<u64, u64>,
    children: Map<u64, Seq<u64>>,
    entries: Seq<(u64, u64)>,
    x: int,
    y: int,
)
    requires
        0 <= x < y < placement(parents, children, entries).len(),
    ensures
        placement(parents, children, entries)[y].parent is None ==> placement(
            parents,
            children,
            entries,
        )[x].parent is None,
{
    let mirrors = mirrors_of(entries);
    parents_of_places(parents, children, mirrors, entries);
    let first = tops(parents, mirrors, entries);
    let second = nested(children, mirrors, entries);
    let all = placement(parents, children, entries);
    if y >= first.len() {
        assert(all[y] == second[y - first.len()]);
    } else {
        assert(all[x] == first[x]);
    }
}

/// A mirror is moved exactly if its parent is not the one it is to have; moves keep the order of
/// the places.
pub proof fn only_misplaced_mirrors_are_moved(
    a: Seq<Placed>,
    x: Seq<Option<u64>>,
    b: Seq<Placed>,
    y: Seq<Option<u64>>,
    place: Placed,
    parent: Option<u64>,
)
    requires
        a.len() == x.len(),
        b.len() == y.len(),
    ensures
        moves(a + b, x + y) == moves(a, x) + moves(b, y),
        place.parent == parent ==> moves(seq![place], seq![parent]).len() == 0,
        place.parent != parent ==> moves(seq![place], seq![parent]) == seq![place],
    decreases b.len(),
{
    if b.len() == 0 {
        assert(a + b =~= a);
        assert(x + y =~= x);
        assert(moves(a, x) + moves(b, y) =~= moves(a, x));
    } else {
        only_misplaced_mirrors_are_moved(a, x, b.drop_last(), y.drop_last(), place, parent);
        assert((a + b).drop_last() =~= a + b.drop_last());
        assert((a + b).last() == b.last());
        assert((x + y)[(a + b).len() - 1] == y[b.len() - 1]);
        moves_look_at_the_first(b.drop_last(), y.drop_last(), y.last());
        assert(y.drop_last().push(y.last()) =~= y);
        moves_look_at_the_first(
            a + b.drop_last(),
            x + y.drop_last(),
            y.last(),
        );
        assert((x + y.drop_last()).push(y.last()) =~= x + y);
        assert(moves(a + b, x + y) =~= moves(a, x) + moves(b, y));
    }
    let one = seq![place];
    assert(one.drop_last() =~= Seq::<Placed>::empty());
    assert(one.last() == place);
    assert(moves(one.drop_last(), seq![parent]) =~= Seq::<Placed>::empty());
    assert(place.parent != parent ==> moves(one, seq![parent]) =~= one);
}

/// A mirror of the user interface takes part in picking exactly if its entity was made pickable: it
/// is hit by the pointer then, and hides what lies behind it; else it does neither.
pub proof fn pickable_elements_are_hit(yes: PickFlags, no: PickFlags)
    requires
        call_ensures(ui_pick_flags, (true,), yes),
        call_ensures(ui_pick_flags, (false,), no),
    ensures
        yes.should_block_lower && yes.is_hoverable,
        !no.should_block_lower && !no.is_hoverable,
{
}

/// Cameras keep the order that their numbers have, and a number that does not fit counts as 0.
pub proof fn cameras_keep_their_order(first: i32, second: i32, a: i16, b: i16)
    requires
        call_ensures(camera_order, (first,), a),
        call_ensures(camera_order, (second,), b),
    ensures
        -0x8000 <= first <= 0x7fff ==> a == first,
        first < -0x8000 || first > 0x7fff ==> a == 0,
        -0x8000 <= first < second <= 0x7fff ==> a < b,
{
}

/// The mirror that an entity was given is the one that is found for it, and no other entity is
/// found to have another mirror than before.
pub proof fn given_mirrors_are_found(
    table: &mut EntityMap,
    entity: u64,
    mirror: u64,
    before: &EntityMap,
    after: &EntityMap,
    asked: u64,
    earlier: Option<u64>,
    found: Option<u64>,
)
    requires
        call_ensures(EntityMap::insert, (table, entity, mirror), ()),
        before@ == old(table)@,
        after@ == final(table)@,
        call_ensures(EntityMap::get, (before, asked), earlier),
        call_ensures(EntityMap::get, (after, asked), found),
    ensures
        asked == entity ==> found == Some(mirror),
        asked != entity ==> found == earlier,
{
}

/// Of two tables that are put together, the added one counts where both have a mirror for an
/// entity.
pub proof fn added_tables_count(
    table: &mut EntityMap,
    other: &EntityMap,
    before: &EntityMap,
    after: &EntityMap,
    entity: u64,
    own: Option<u64>,
    added: Option<u64>,
    found: Option<u64>,
)
    requires
        call_ensures(EntityMap::add_all, (table, other), ()),
        before@ == old(table)@,
        after@ == final(table)@,
        call_ensures(EntityMap::get, (before, entity), own),
        call_ensures(EntityMap::get, (other, entity), added),
        call_ensures(EntityMap::get, (after, entity), found),
    ensures
        added is Some ==> found == added,
        added is None ==> found == own,
{
}

proof fn kept_and_gone_at(entries: Seq<(u64, u64)>, live: Seq<u64>, i: int)
    requires
        0 <= i < entries.len(),
    ensures
        live.contains(entries[i].0) ==> kept_of(entries, live).contains(entries[i]),
        !live.contains(entries[i].0) ==> gone_from(entries, live).contains(entries[i].1),
{
    let a = entries.take(i);
    let one = seq![entries[i]];
    let b = entries.skip(i + 1);
    assert(entries =~= (a + one) + b);
    entries_are_kept_or_their_mirrors_go(a, one, entries[i], live);
    entries_are_kept_or_their_mirrors_go(a + one, b, entries[i], live);
    if live.contains(entries[i].0) {
        assert(kept_of(entries, live)[kept_of(a, live).len() as int] == entries[i]);
    } else {
        assert(gone_from(entries, live)[gone_from(a, live).len() as int] == entries[i].1);
    }
}

proof fn only_listed_are_kept_or_gone(
    entries: Seq<(u64, u64)>,
    live: Seq<u64>,
    entry: (u64, u64),
    mirror: u64,
)
    ensures
        kept_of(entries, live).contains(entry) ==> entries.contains(entry) && live.contains(
            entry.0,
        ),
        gone_from(entries, live).contains(mirror) ==> exists|entity: u64| #[trigger]
            entries.contains((entity, mirror)) && !live.contains(entity),
        kept_of(entries, live).len() + gone_from(entries, live).len() == entries.len(),
    decreases entries.len(),
{
    if entries.len() > 0 {
        let shorter = entries.drop_last();
        only_listed_are_kept_or_gone(shorter, live, entry, mirror);
        assert(entries.contains(entries.last())) by {
            assert(entries[entries.len() - 1] == entries.last());
        }
        assert forall|e: (u64, u64)| shorter.contains(e) implies #[trigger] entries.contains(e) by {
            let j = choose|j: int| 0 <= j < shorter.len() && shorter[j] == e;
            assert(entries[j] == e);
        }
        let kept = kept_of(entries, live);
        if kept.contains(entry) {
            let j = choose|j: int| 0 <= j < kept.len() && kept[j] == entry;
            if j < kept_of(shorter, live).len() {
                assert(kept_of(shorter, live)[j] == entry);
            }
        }
        let gone = gone_from(entries, live);
        if gone.contains(mirror) {
            let j = choose|j: int| 0 <= j < gone.len() && gone[j] == mirror;
            if j < gone_from(shorter, live).len() {
                assert(gone_from(shorter, live)[j] == mirror);
                let entity = choose|entity: u64| #[trigger]
                    shorter.contains((entity, mirror)) && !live.contains(entity);
                assert(entries.contains((entity, mirror)));
            } else {
                assert(entries.last() == (entries.last().0, mirror));
                assert(entries.contains((entries.last().0, mirror)));
            }
        }
    }
}

/// Of the entries of a table exactly those whose entity is live stay, and exactly the mirrors of
/// the others are to be taken away.
pub proof fn only_mirrors_of_missing_entities_go(
    table: &mut EntityMap,
    live: &Vec<u64>,
    gone: Vec<u64>,
    entity: u64,
    mirror: u64,
)
    requires
        call_ensures(EntityMap::despawn_missing, (table, live), gone),
    ensures
        final(table)@.contains((entity, mirror)) <==> old(table)@.contains((entity, mirror))
            && live@.contains(entity),
        gone@.contains(mirror) <==> exists|missing: u64| #[trigger]
            old(table)@.contains((missing, mirror)) && !live@.contains(missing),
        final(table)@.len() + gone@.len() == old(table)@.len(),
{
    let entries = old(table)@;
    only_listed_are_kept_or_gone(entries, live@, (entity, mirror), mirror);
    if entries.contains((entity, mirror)) {
        let i = choose|i: int| 0 <= i < entries.len() && entries[i] == (entity, mirror);
        kept_and_gone_at(entries, live@, i);
    }
    if exists|missing: u64| #[trigger]
        entries.contains((missing, mirror)) && !live@.contains(missing) {
        let missing = choose|missing: u64| #[trigger]
            entries.contains((missing, mirror)) && !live@.contains(missing);
        let i = choose|i: int| 0 <= i < entries.len() && entries[i] == (missing, mirror);
        kept_and_gone_at(entries, live@, i);
    }
}

/// Mirrors are placed in the order of the table: the tops one by one, and then the children of one
/// entity after those of the entity before it.
pub proof fn mirrors_are_placed_in_the_order_of_the_table(
    parents: Map<u64, u64>,
    children: Map<u64, Seq<u64>>,
    mirrors: Map<u64, u64>,
    a: Seq<(u64, u64)>,
    b: Seq<(u64, u64)>,
    entry: (u64, u64),
)
    ensures
        tops(parents, mirrors, a + b) == tops(parents, mirrors, a) + tops(parents, mirrors, b),
        nested(children, mirrors, a + b) == nested(children, mirrors, a) + nested(
            children,
            mirrors,
            b,
        ),
        children.contains_key(entry.0) ==> nested(children, mirrors, seq![entry]) == put_under(
            mirrors,
            children[entry.0],
            entry.1,
        ),
        !children.contains_key(entry.0) ==> nested(children, mirrors, seq![entry]).len() == 0,
        !(parents.contains_key(entry.0) && mirrors.contains_key(parents[entry.0])) ==> tops(
            parents,
            mirrors,
            seq![entry],
        ) == seq![Placed { mirror: entry.1, parent: None }],
        parents.contains_key(entry.0) && mirrors.contains_key(parents[entry.0]) ==> tops(
            parents,
            mirrors,
            seq![entry],
        ).len() == 0,
    decreases b.len(),
{
    if b.len() == 0 {
        assert(a + b =~= a);
        assert(tops(parents, mirrors, a) + tops(parents, mirrors, b) =~= tops(parents, mirrors, a));
        assert(nested(children, mirrors, a) + nested(children, mirrors, b) =~= nested(
            children,
            mirrors,
            a,
        ));
    } else {
        mirrors_are_placed_in_the_order_of_the_table(
            parents,
            children,
            mirrors,
            a,
            b.drop_last(),
            entry,
        );
        assert((a + b).drop_last() =~= a + b.drop_last());
        assert((a + b).last() == b.last());
        assert(tops(parents, mirrors, a + b) =~= tops(parents, mirrors, a) + tops(
            parents,
            mirrors,
            b,
        ));
        assert(nested(children, mirrors, a + b) =~= nested(children, mirrors, a) + nested(
            children,
            mirrors,
            b,
        ));
    }
    let one = seq![entry];
    assert(one.drop_last() =~= Seq::<(u64, u64)>::empty());
    assert(one.last() == entry);
    assert(tops(parents, mirrors, one.drop_last()) =~= Seq::<Placed>::empty());
    assert(nested(children, mirrors, one.drop_last()) =~= Seq::<Placed>::empty());
    assert(nested(children, mirrors, one) =~= put_under(
        mirrors,
        children_in(children, entry.0),
        entry.1,
    ));
    assert(!(parents.contains_key(entry.0) && mirrors.contains_key(parents[entry.0])) ==> tops(
        parents,
        mirrors,
        one,
    ) =~= seq![Placed { mirror: entry.1, parent: None }]);
}

} // verus!
