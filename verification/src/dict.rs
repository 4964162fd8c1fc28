//! A map from text to values, kept in key order.
use vstd::prelude::*;

use crate::text;

verus! {

/// A map keyed by text. Entries are kept in ascending key order, so walking it is deterministic.
#[derive(Debug, PartialEq, Eq)]
pub struct Dict<V> {
    entries: Vec<(String, V)>,
}

/// Whether the keys of `entries` ascend strictly.
spec fn ascending<V>(entries: Seq<(String, V)>) -> bool {
    forall|i: int, j: int|
        0 <= i < j < entries.len() ==> text::precedes(
            (#[trigger] entries[i]).0@,
            (#[trigger] entries[j]).0@,
        )
}

/// Whether `key` is the key of entry `i`.
spec fn key_is<V>(entries: Seq<(String, V)>, i: int, key: Seq<char>) -> bool {
    0 <= i < entries.len() && entries[i].0@ == key
}

spec fn as_map<V>(entries: Seq<(String, V)>) -> Map<Seq<char>, V> {
    Map::new(
        |key: Seq<char>| exists|i: int| key_is(entries, i, key),
        |key: Seq<char>| entries[choose|i: int| key_is(entries, i, key)].1,
    )
}

proof fn ascending_keys_differ<V>(entries: Seq<(String, V)>, i: int, j: int)
    requires
        ascending(entries),
        0 <= i < entries.len(),
        0 <= j < entries.len(),
        entries[i].0@ == entries[j].0@,
    ensures
        i == j,
{
    text::precedes_irreflexive(entries[i].0@);
}

proof fn as_map_at<V>(entries: Seq<(String, V)>, i: int)
    requires
        ascending(entries),
        0 <= i < entries.len(),
    ensures
        as_map(entries).contains_key(entries[i].0@),
        as_map(entries)[entries[i].0@] == entries[i].1,
{
    let key = entries[i].0@;
    assert(key_is(entries, i, key));
    let j = choose|j: int| key_is(entries, j, key);
    ascending_keys_differ(entries, i, j);
}

impl<V> View for Dict<V> {
    type V = Map<Seq<char>, V>;

    closed spec fn view(&self) -> Map<Seq<char>, V> {
        as_map(self.entries@)
    }
}

/// A value held by a dictionary is smaller than the dictionary.
pub broadcast proof fn dict_value_is_smaller<V>(dict: Dict<V>, key: Seq<char>)
    requires
        dict@.contains_key(key),
    ensures
        #[trigger] (decreases_to!(dict => dict@[key])),
{
    let i = choose|i: int| key_is(dict.entries@, i, key);
    let e = dict.entries@[i];
    assert(decreases_to!(dict => dict.entries));
    assert(decreases_to!(dict.entries => dict.entries@));
    assert(decreases_to!(dict.entries@ => dict.entries@[i]));
    assert(decreases_to!(dict.entries@[i] => dict.entries@[i].1));
}

/// The keys are exactly the texts that the dictionary maps.
pub proof fn keys_are_the_domain<V>(dict: Dict<V>)
    ensures
        forall|key: Seq<char>| #[trigger]
            dict@.contains_key(key) <==> dict.spec_keys().contains(key),
{
    assert forall|key: Seq<char>| #[trigger] dict@.contains_key(key) implies dict.spec_keys().contains(
        key,
    ) by {
        let i = choose|i: int| key_is(dict.entries@, i, key);
        assert(dict.spec_keys()[i] == key);
    }
    assert forall|key: Seq<char>| dict.spec_keys().contains(key) implies #[trigger] dict@.contains_key(
        key,
    ) by {
        let i = choose|i: int| 0 <= i < dict.spec_keys().len() && dict.spec_keys()[i] == key;
        assert(key_is(dict.entries@, i, key));
    }
}

/// Whether a list of texts ascends strictly.
pub open spec fn strictly_ascending(keys: Seq<Seq<char>>) -> bool {
    forall|i: int, j: int|
        0 <= i < j < keys.len() ==> text::precedes(#[trigger] keys[i], #[trigger] keys[j])
}

/// The keys of a map in ascending order.
pub open spec fn ascending_keys<V>(map: Map<Seq<char>, V>) -> Seq<Seq<char>> {
    choose|keys: Seq<Seq<char>>|
        strictly_ascending(keys) && (forall|key: Seq<char>| #[trigger]
            map.contains_key(key) <==> keys.contains(key))
}

/// Two strictly ascending lists of the same texts are equal.
pub proof fn ascending_lists_agree(a: Seq<Seq<char>>, b: Seq<Seq<char>>)
    requires
        strictly_ascending(a),
        strictly_ascending(b),
        forall|key: Seq<char>| a.contains(key) <==> b.contains(key),
    ensures
        a == b,
    decreases a.len(),
{
    if a.len() == 0 {
        if b.len() > 0 {
            assert(b.contains(b[0]));
        }
        assert(a =~= b);
    } else {
        assert(a.contains(a[0]));
        assert(b.len() > 0);
        assert(b.contains(b[0]));
        let i = choose|i: int| 0 <= i < b.len() && b[i] == a[0];
        let j = choose|j: int| 0 <= j < a.len() && a[j] == b[0];
        if i > 0 && j > 0 {
            text::precedes_transitive(a[0], a[j], b[i]);
            text::precedes_irreflexive(a[0]);
        }
        assert(a[0] == b[0]);
        let c = a.drop_first();
        let d = b.drop_first();
        assert forall|key: Seq<char>| c.contains(key) <==> d.contains(key) by {
            text::precedes_irreflexive(a[0]);
            if c.contains(key) {
                let x = choose|x: int| 0 <= x < c.len() && c[x] == key;
                assert(a[x + 1] == key);
                assert(a.contains(key));
                let y = choose|y: int| 0 <= y < b.len() && b[y] == key;
                assert(text::precedes(a[0], a[x + 1]));
                assert(d[y - 1] == key);
            }
            if d.contains(key) {
                let y = choose|y: int| 0 <= y < d.len() && d[y] == key;
                assert(b[y + 1] == key);
                assert(b.contains(key));
                let x = choose|x: int| 0 <= x < a.len() && a[x] == key;
                assert(text::precedes(b[0], b[y + 1]));
                assert(c[x - 1] == key);
            }
        }
        assert(strictly_ascending(c));
        assert(strictly_ascending(d));
        ascending_lists_agree(c, d);
        assert(a =~= seq![a[0]] + c);
        assert(b =~= seq![b[0]] + d);
    }
}

/// Where `key` goes in a strictly ascending list that does not hold it.
proof fn slot_for(keys: Seq<Seq<char>>, key: Seq<char>) -> (at: int)
    requires
        strictly_ascending(keys),
        !keys.contains(key),
    ensures
        0 <= at <= keys.len(),
        forall|j: int| 0 <= j < at ==> text::precedes(#[trigger] keys[j], key),
        forall|j: int| at <= j < keys.len() ==> text::precedes(key, #[trigger] keys[j]),
    decreases keys.len(),
{
    if keys.len() == 0 {
        0
    } else {
        let last = keys.last();
        assert(keys.contains(last));
        text::precedes_total(last, key);
        if text::precedes(last, key) {
            assert forall|j: int| 0 <= j < keys.len() implies text::precedes(
                #[trigger] keys[j],
                key,
            ) by {
                if j < keys.len() - 1 {
                    text::precedes_transitive(keys[j], last, key);
                }
            }
            keys.len() as int
        } else {
            let shorter = keys.drop_last();
            assert(strictly_ascending(shorter));
            assert forall|k: Seq<char>| shorter.contains(k) implies keys.contains(k) by {
                let x = choose|x: int| 0 <= x < shorter.len() && shorter[x] == k;
                assert(keys[x] == k);
            }
            let at = slot_for(shorter, key);
            assert forall|j: int| 0 <= j < at implies text::precedes(#[trigger] keys[j], key) by {
                assert(shorter[j] == keys[j]);
            }
            assert forall|j: int| at <= j < keys.len() implies text::precedes(
                key,
                #[trigger] keys[j],
            ) by {
                if j < shorter.len() {
                    assert(shorter[j] == keys[j]);
                }
            }
            at
        }
    }
}

/// Every finite set of texts can be listed in ascending order.
proof fn ascending_list_exists(set: Set<Seq<char>>) -> (keys: Seq<Seq<char>>)
    requires
        set.finite(),
    ensures
        strictly_ascending(keys),
        forall|key: Seq<char>| #[trigger] set.contains(key) <==> keys.contains(key),
    decreases set.len(),
{
    if set.len() == 0 {
        assert(set =~= Set::empty());
        Seq::empty()
    } else {
        let key = set.choose();
        let rest = ascending_list_exists(set.remove(key));
        assert(!set.remove(key).contains(key));
        let at = slot_for(rest, key);
        let keys = rest.insert(at, key);
        assert forall|i: int, j: int| 0 <= i < j < keys.len() implies text::precedes(
            #[trigger] keys[i],
            #[trigger] keys[j],
        ) by {
            if i < at {
                assert(keys[i] == rest[i]);
            } else if i > at {
                assert(keys[i] == rest[i - 1]);
            }
            if j < at {
                assert(keys[j] == rest[j]);
            } else if j > at {
                assert(keys[j] == rest[j - 1]);
            }
        }
        assert forall|k: Seq<char>| #[trigger] set.contains(k) <==> keys.contains(k) by {
            if set.contains(k) {
                if k == key {
                    assert(keys[at] == k);
                } else {
                    assert(set.remove(key).contains(k));
                    let x = choose|x: int| 0 <= x < rest.len() && rest[x] == k;
                    if x < at {
                        assert(keys[x] == k);
                    } else {
                        assert(keys[x + 1] == k);
                    }
                }
            }
            if keys.contains(k) {
                let x = choose|x: int| 0 <= x < keys.len() && keys[x] == k;
                if x < at {
                    assert(rest[x] == k);
                    assert(rest.contains(k));
                    assert(set.remove(key).contains(k));
                } else if x > at {
                    assert(rest[x - 1] == k);
                    assert(rest.contains(k));
                    assert(set.remove(key).contains(k));
                }
            }
        }
        keys
    }
}

/// The ascending keys of a finite map ascend strictly and are exactly its keys.
pub proof fn ascending_keys_list_the_domain<V>(map: Map<Seq<char>, V>)
    requires
        map.dom().finite(),
    ensures
        strictly_ascending(ascending_keys(map)),
        forall|key: Seq<char>| #[trigger]
            map.contains_key(key) <==> ascending_keys(map).contains(key),
{
    let keys = ascending_list_exists(map.dom());
    assert forall|key: Seq<char>| #[trigger] map.contains_key(key) <==> keys.contains(key) by {
        assert(map.dom().contains(key) <==> keys.contains(key));
    }
    ascending_keys_are(map, keys);
}

/// The ascending keys of a map are any strictly ascending list of its keys.
pub proof fn ascending_keys_are<V>(map: Map<Seq<char>, V>, keys: Seq<Seq<char>>)
    requires
        strictly_ascending(keys),
        forall|key: Seq<char>| #[trigger] map.contains_key(key) <==> keys.contains(key),
    ensures
        ascending_keys(map) == keys,
{
    let chosen = ascending_keys(map);
    assert forall|key: Seq<char>| chosen.contains(key) <==> keys.contains(key) by {
        assert(map.contains_key(key) <==> keys.contains(key));
    }
    ascending_lists_agree(chosen, keys);
}

impl<V> Dict<V> {
    #[verifier::type_invariant]
    spec fn ordered(self) -> bool {
        ascending(self.entries@)
    }

    /// The keys in ascending order.
    pub closed spec fn spec_keys(self) -> Seq<Seq<char>> {
        Seq::new(self.entries@.len(), |i: int| self.entries@[i].0@)
    }

    /// A dictionary that does not have exactly one entry holds not only `key`, or not even it.
    pub proof fn more_keys_differ(&self, key: Seq<char>)
        requires
            self.spec_keys().len() != 1,
            self@.contains_key(key),
            strictly_ascending(self.spec_keys()),
        ensures
            exists|other: Seq<char>| #[trigger] self@.contains_key(other) && other != key,
    {
        keys_are_the_domain(*self);
        let keys = self.spec_keys();
        let i = choose|i: int| 0 <= i < keys.len() && keys[i] == key;
        let j = if i == 0 {
            1
        } else {
            0
        };
        text::precedes_irreflexive(key);
        assert(keys.contains(keys[j]));
        assert(self@.contains_key(keys[j]));
    }

    /// An empty dictionary.
    pub fn new() -> (dict: Self)
        ensures
            dict@ == Map::<Seq<char>, V>::empty(),
            dict.spec_keys() == Seq::<Seq<char>>::empty(),
    {
        let dict = Dict { entries: Vec::new() };
        assert(dict@ =~= Map::<Seq<char>, V>::empty());
        assert(dict.spec_keys() =~= Seq::<Seq<char>>::empty());
        dict
    }

    /// The number of entries.
    pub fn len(&self) -> (n: usize)
        ensures
            n == self.spec_keys().len(),
            strictly_ascending(self.spec_keys()),
    {
        proof {
            use_type_invariant(self);
        }
        self.entries.len()
    }

    /// Whether nothing is held.
    pub fn is_empty(&self) -> (empty: bool)
        ensures
            empty == (self@ == Map::<Seq<char>, V>::empty()),
            empty == (self.spec_keys().len() == 0),
    {
        proof {
            use_type_invariant(self);
            if self.entries@.len() == 0 {
                assert(self@ =~= Map::<Seq<char>, V>::empty());
            } else {
                as_map_at(self.entries@, 0);
            }
        }
        self.entries.len() == 0
    }

    /// The position of `key`, or where it would be put.
    fn locate(&self, key: &str) -> (at: (usize, bool))
        ensures
            at.0 <= self.entries@.len(),
            at.1 ==> at.0 < self.entries@.len() && self.entries@[at.0 as int].0@ == key@,
            at.1 == self@.contains_key(key@),
            forall|j: int|
                0 <= j < at.0 ==> text::precedes(#[trigger] self.entries@[j].0@, key@),
            !at.1 ==> forall|j: int|
                at.0 <= j < self.entries@.len() ==> text::precedes(
                    key@,
                    #[trigger] self.entries@[j].0@,
                ),
    {
        proof {
            use_type_invariant(self);
        }
        let mut i: usize = 0;
        while i < self.entries.len()
            invariant
                i <= self.entries@.len(),
                ascending(self.entries@),
                forall|j: int|
                    0 <= j < i ==> text::precedes(#[trigger] self.entries@[j].0@, key@),
            decreases self.entries@.len() - i,
        {
            if text::same_text(self.entries[i].0.as_str(), key) {
                proof {
                    as_map_at(self.entries@, i as int);
                }
                return (i, true);
            }
            if text::text_before(key, self.entries[i].0.as_str()) {
                proof {
                    assert forall|j: int| i <= j < self.entries@.len() implies text::precedes(
                        key@,
                        #[trigger] self.entries@[j].0@,
                    ) by {
                        if j > i {
                            text::precedes_transitive(
                                key@,
                                self.entries@[i as int].0@,
                                self.entries@[j].0@,
                            );
                        }
                    }
                    self.absent(key@, i as int);
                }
                return (i, false);
            }
            proof {
                text::precedes_total(self.entries@[i as int].0@, key@);
            }
            i += 1;
        }
        proof {
            self.absent(key@, i as int);
        }
        (i, false)
    }

    proof fn absent(self, key: Seq<char>, at: int)
        requires
            0 <= at <= self.entries@.len(),
            forall|j: int|
                0 <= j < at ==> text::precedes(#[trigger] self.entries@[j].0@, key),
            forall|j: int|
                at <= j < self.entries@.len() ==> text::precedes(
                    key,
                    #[trigger] self.entries@[j].0@,
                ),
        ensures
            !self@.contains_key(key),
    {
        text::precedes_irreflexive(key);
        assert forall|i: int| !key_is(self.entries@, i, key) by {
            if key_is(self.entries@, i, key) {
                assert(text::precedes(self.entries@[i].0@, key) || text::precedes(
                    key,
                    self.entries@[i].0@,
                ));
            }
        }
    }

    /// The value under `key`, if there is one.
    pub fn get(&self, key: &str) -> (value: Option<&V>)
        ensures
            match value {
                Some(v) => self@.contains_key(key@) && *v == self@[key@],
                None => !self@.contains_key(key@),
            },
    {
        let (at, found) = self.locate(key);
        if found {
            proof {
                use_type_invariant(self);
                as_map_at(self.entries@, at as int);
            }
            Some(&self.entries[at].1)
        } else {
            None
        }
    }

    /// Whether `key` is present.
    pub fn contains_key(&self, key: &str) -> (found: bool)
        ensures
            found == self@.contains_key(key@),
    {
        self.locate(key).1
    }

    /// Puts `value` under `key` and hands back what was there.
    pub fn insert(&mut self, key: String, value: V) -> (previous: Option<V>)
        ensures
            final(self)@ == old(self)@.insert(key@, value),
            match previous {
                Some(v) => old(self)@.contains_key(key@) && v == old(self)@[key@],
                None => !old(self)@.contains_key(key@),
            },
    {
        proof {
            use_type_invariant(&*self);
        }
        let (at, found) = self.locate(key.as_str());
        let mut entries: Vec<(String, V)> = Vec::new();
        std::mem::swap(&mut self.entries, &mut entries);
        let ghost before = entries@;
        if found {
            let (name, previous) = entries.remove(at);
            entries.insert(at, (name, value));
            proof {
                as_map_at(before, at as int);
                assert(entries@ =~= before.update(at as int, (name, value)));
                assert(ascending(entries@));
                map_after_write(before, entries@, at as int, key@, value);
            }
            self.entries = entries;
            Some(previous)
        } else {
            let ghost k = key@;
            entries.insert(at, (key, value));
            proof {
                assert(entries@ == before.insert(at as int, (key, value)));
                assert(ascending(entries@));
                map_after_insert(before, entries@, at as int, key, value);
            }
            self.entries = entries;
            None
        }
    }

    /// Takes out the value under `key`, if there is one.
    pub fn remove(&mut self, key: &str) -> (removed: Option<V>)
        ensures
            final(self)@ == old(self)@.remove(key@),
            match removed {
                Some(v) => old(self)@.contains_key(key@) && v == old(self)@[key@],
                None => !old(self)@.contains_key(key@),
            },
    {
        proof {
            use_type_invariant(&*self);
        }
        let (at, found) = self.locate(key);
        if found {
            let mut entries: Vec<(String, V)> = Vec::new();
            std::mem::swap(&mut self.entries, &mut entries);
            let ghost before = entries@;
            let (_, value) = entries.remove(at);
            proof {
                as_map_at(before, at as int);
                assert(ascending(entries@));
                map_after_remove(before, entries@, at as int);
            }
            self.entries = entries;
            Some(value)
        } else {
            assert(self@ =~= old(self)@.remove(key@));
            None
        }
    }

    /// Takes out the entry with the last key.
    pub fn pop(&mut self) -> (popped: Option<(String, V)>)
        ensures
            match popped {
                Some((key, value)) => {
                    &&& !final(self)@.contains_key(key@)
                    &&& old(self)@ == final(self)@.insert(key@, value)
                    &&& old(self).spec_keys() == final(self).spec_keys().push(key@)
                },
                None => old(self)@ == Map::<Seq<char>, V>::empty() && *final(self) == *old(self)
                    && old(self).spec_keys().len() == 0,
            },
    {
        proof {
            use_type_invariant(&*self);
        }
        if self.entries.len() == 0 {
            assert(self@ =~= Map::<Seq<char>, V>::empty());
            return None;
        }
        let mut entries: Vec<(String, V)> = Vec::new();
        std::mem::swap(&mut self.entries, &mut entries);
        let ghost before = entries@;
        let last: usize = entries.len() - 1;
        let (key, value) = entries.remove(last);
        proof {
            as_map_at(before, last as int);
            assert(ascending(entries@));
            map_after_remove(before, entries@, last as int);
            assert(as_map(before) =~= as_map(before).remove(key@).insert(key@, value));
        }
        self.entries = entries;
        assert(old(self).spec_keys() =~= self.spec_keys().push(key@));
        Some((key, value))
    }

    /// The keys, in ascending order.
    pub fn keys(&self) -> (keys: Vec<String>)
        ensures
            text::texts(keys@) == self.spec_keys(),
            self.spec_keys() == ascending_keys(self@),
            strictly_ascending(self.spec_keys()),
            forall|key: Seq<char>| #[trigger]
                self@.contains_key(key) <==> self.spec_keys().contains(key),
    {
        proof {
            use_type_invariant(self);
            keys_are_the_domain(*self);
            assert(strictly_ascending(self.spec_keys()));
            ascending_keys_are(self@, self.spec_keys());
        }
        let mut keys: Vec<String> = Vec::new();
        let mut i: usize = 0;
        while i < self.entries.len()
            invariant
                i <= self.entries.len(),
                keys.len() == i,
                forall|j: int| 0 <= j < i ==> (#[trigger] keys[j])@ == self.entries[j].0@,
            decreases self.entries.len() - i,
        {
            keys.push(self.entries[i].0.clone());
            i += 1;
        }
        assert(text::texts(keys@) =~= self.spec_keys());
        keys
    }

    /// The entry at position `i` in key order.
    pub fn entry_at(&self, i: usize) -> (entry: (&String, &V))
        requires
            i < self.spec_keys().len(),
        ensures
            entry.0@ == self.spec_keys()[i as int],
            self@.contains_key(entry.0@),
            *entry.1 == self@[entry.0@],
    {
        proof {
            use_type_invariant(self);
            as_map_at(self.entries@, i as int);
        }
        (&self.entries[i].0, &self.entries[i].1)
    }
}

proof fn map_after_write<V>(
    before: Seq<(String, V)>,
    after: Seq<(String, V)>,
    at: int,
    key: Seq<char>,
    value: V,
)
    requires
        ascending(before),
        ascending(after),
        0 <= at < before.len(),
        before[at].0@ == key,
        after == before.update(at, (before[at].0, value)),
    ensures
        as_map(after) == as_map(before).insert(key, value),
{
    let left = as_map(after);
    let right = as_map(before).insert(key, value);
    assert forall|k: Seq<char>| left.contains_key(k) == right.contains_key(k) by {
        if left.contains_key(k) {
            let i = choose|i: int| key_is(after, i, k);
            as_map_at(before, i);
        }
        if right.contains_key(k) && k != key {
            let i = choose|i: int| key_is(before, i, k);
            as_map_at(after, i);
        }
        as_map_at(after, at);
    }
    assert forall|k: Seq<char>| left.contains_key(k) implies left[k] == right[k] by {
        let i = choose|i: int| key_is(after, i, k);
        as_map_at(after, i);
        as_map_at(before, i);
        if k == key {
            ascending_keys_differ(after, i, at);
        }
    }
    assert(left.dom() =~= right.dom());
    assert(left =~= right);
}

proof fn map_after_insert<V>(
    before: Seq<(String, V)>,
    after: Seq<(String, V)>,
    at: int,
    key: String,
    value: V,
)
    requires
        ascending(before),
        ascending(after),
        0 <= at <= before.len(),
        after == before.insert(at, (key, value)),
    ensures
        as_map(after) == as_map(before).insert(key@, value),
{
    let left = as_map(after);
    let right = as_map(before).insert(key@, value);
    assert(after[at] == (key, value));
    as_map_at(after, at);
    assert forall|k: Seq<char>| #[trigger] left.dom().contains(k) implies right.dom().contains(k)
        && left[k] == right[k] by {
        let i = choose|i: int| key_is(after, i, k);
        as_map_at(after, i);
        if i < at {
            assert(after[i] == before[i]);
            as_map_at(before, i);
            if k == key@ {
                ascending_keys_differ(after, i, at);
            }
        } else if i > at {
            assert(after[i] == before[i - 1]);
            as_map_at(before, i - 1);
            if k == key@ {
                ascending_keys_differ(after, i, at);
            }
        }
    }
    assert forall|k: Seq<char>| #[trigger] right.dom().contains(k) implies left.dom().contains(
        k,
    ) by {
        if k != key@ {
            let i = choose|i: int| key_is(before, i, k);
            if i < at {
                assert(after[i] == before[i]);
                as_map_at(after, i);
            } else {
                assert(after[i + 1] == before[i]);
                as_map_at(after, i + 1);
            }
        }
    }
    assert(left.dom() =~= right.dom());
    assert(left =~= right);
}

proof fn map_after_remove<V>(before: Seq<(String, V)>, after: Seq<(String, V)>, at: int)
    requires
        ascending(before),
        ascending(after),
        0 <= at < before.len(),
        after == before.remove(at),
    ensures
        as_map(after) == as_map(before).remove(before[at].0@),
{
    let key = before[at].0@;
    let left = as_map(after);
    let right = as_map(before).remove(key);
    assert forall|k: Seq<char>| #[trigger] left.dom().contains(k) implies right.dom().contains(k)
        && left[k] == right[k] by {
        let i = choose|i: int| key_is(after, i, k);
        as_map_at(after, i);
        let j = if i < at { i } else { i + 1 };
        assert(after[i] == before[j]);
        as_map_at(before, j);
        if k == key {
            ascending_keys_differ(before, j, at);
        }
    }
    assert forall|k: Seq<char>| #[trigger] right.dom().contains(k) implies left.dom().contains(
        k,
    ) by {
        let j = choose|j: int| key_is(before, j, k);
        let i = if j < at { j } else { j - 1 };
        assert(after[i] == before[j]);
        as_map_at(after, i);
    }
    assert(left.dom() =~= right.dom());
    assert(left =~= right);
}

} // verus!
