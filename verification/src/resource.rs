//! Resources that configurations and scripts describe, and the handles they are built into.
//!
//! A description is plain data. Descriptions of the same resource have the same key, and a
//! resource is built once for each key.
pub mod config;
pub mod image;
pub mod material;
pub mod mesh;

use std::collections::HashMap;
use std::marker::PhantomData;
use vstd::prelude::*;

verus! {

/// The key of a resource description, for resources of type `R`. Keys for different types of
/// resource do not mix.
pub struct CacheKey<R> {
    bits: u64,
    kind: PhantomData<R>,
}

impl<R> View for CacheKey<R> {
    type V = u64;

    closed spec fn view(&self) -> u64 {
        self.bits
    }
}

impl<R> Clone for CacheKey<R> {
    fn clone(&self) -> (copy: Self)
        ensures
            copy@ == self@,
    {
        CacheKey { bits: self.bits, kind: PhantomData }
    }
}

impl<R> Copy for CacheKey<R> {

}

impl<R> PartialEq for CacheKey<R> {
    fn eq(&self, other: &Self) -> (same: bool) {
        self.bits == other.bits
    }
}

impl<R> vstd::std_specs::cmp::PartialEqSpecImpl for CacheKey<R> {
    open spec fn obeys_eq_spec() -> bool {
        true
    }

    open spec fn eq_spec(&self, other: &Self) -> bool {
        self@ == other@
    }
}

impl<R> Eq for CacheKey<R> {

}

impl<R> CacheKey<R> {
    /// The key with these bits.
    #[must_use]
    pub fn from_bits(bits: u64) -> (key: Self)
        ensures
            key@ == bits,
    {
        CacheKey { bits, kind: PhantomData }
    }

    /// The bits of the key.
    #[must_use]
    pub fn bits(self) -> (bits: u64)
        ensures
            bits == self@,
    {
        self.bits
    }
}

/// The handles of the resources of type `R` that were built, by key.
pub struct ResourceCache<R, H> {
    handles: HashMap<u64, H>,
    kind: PhantomData<R>,
}

impl<R, H> View for ResourceCache<R, H> {
    type V = Map<u64, H>;

    closed spec fn view(&self) -> Map<u64, H> {
        self.handles@
    }
}

impl<R, H> ResourceCache<R, H> {
    /// A cache without handles.
    pub fn new() -> (cache: Self)
        ensures
            cache@ == Map::<u64, H>::empty(),
    {
        ResourceCache { handles: HashMap::new(), kind: PhantomData }
    }

    /// The handle that was built for a key.
    pub fn get(&self, key: CacheKey<R>) -> (handle: Option<&H>)
        ensures
            match handle {
                Some(h) => self@.contains_key(key@) && *h == self@[key@],
                None => !self@.contains_key(key@),
            },
    {
        broadcast use vstd::std_specs::hash::group_hash_axioms;

        self.handles.get(&key.bits)
    }

    /// Puts a handle under a key, in place of any that was there.
    pub fn insert(&mut self, key: CacheKey<R>, handle: H)
        ensures
            final(self)@ == old(self)@.insert(key@, handle),
    {
        broadcast use vstd::std_specs::hash::group_hash_axioms;

        self.handles.insert(key.bits, handle);
    }

    /// The handle for a key: the one that was built before or, if there is none, the one that
    /// `build` makes with the host, which is kept. The host is left alone if there is one.
    pub fn get_or_build_with<W, F: FnOnce(W) -> (W, H)>(
        &mut self,
        key: CacheKey<R>,
        host: W,
        build: F,
    ) -> (found: (W, &H))
        requires
            build.requires((host,)),
        ensures
            if old(self)@.contains_key(key@) {
                found.0 == host && final(self)@ == old(self)@
            } else {
                exists|built: H| #[trigger]
                    is_built(build, host, found.0, built) && final(self)@ == old(self)@.insert(
                        key@,
                        built,
                    )
            },
            final(self)@.contains_key(key@),
            *found.1 == final(self)@[key@],
    {
        broadcast use vstd::std_specs::hash::group_hash_axioms;

        let ghost first = host;
        let mut host = host;
        let ghost known = self.handles@.contains_key(key.bits);
        if !self.handles.contains_key(&key.bits) {
            let (after, built) = build(host);
            host = after;
            self.handles.insert(key.bits, built);
        }
        match self.handles.get(&key.bits) {
            Some(handle) => {
                let found = (host, handle);
                assert(!known ==> is_built(build, first, found.0, *found.1));
                found
            },
            None => vstd::pervasive::unreached(),
        }
    }
}

/// Whether building a resource leads from one state of the host to the other and gives `built`.
pub open spec fn is_built<W, H, F: FnOnce(W) -> (W, H)>(
    build: F,
    host: W,
    after: W,
    built: H,
) -> bool {
    build.ensures((host,), (after, built))
}

/// A resource is built once for a key: asked for again under that key, the same handle is given and
/// the host is left alone. Handles under other keys stay.
pub proof fn a_resource_is_built_once<R, H, W, F: FnOnce(W) -> (W, H)>(
    cache: &mut ResourceCache<R, H>,
    key: CacheKey<R>,
    host: W,
    build: F,
    found: (W, &H),
    then: &mut ResourceCache<R, H>,
    later: W,
    rebuild: F,
    again: (W, &H),
    other: u64,
)
    requires
        call_ensures(ResourceCache::<R, H>::get_or_build_with::<W, F>, (cache, key, host, build), found),
        final(cache)@ == old(then)@,
        call_ensures(
            ResourceCache::<R, H>::get_or_build_with::<W, F>,
            (then, key, later, rebuild),
            again,
        ),
    ensures
        *again.1 == *found.1,
        again.0 == later,
        final(then)@ == final(cache)@,
        old(cache)@.contains_key(key@) ==> *found.1 == old(cache)@[key@] && found.0 == host,
        !old(cache)@.contains_key(key@) ==> build.ensures((host,), (found.0, *found.1)),
        other != key@ ==> (final(cache)@.contains_key(other) <==> old(cache)@.contains_key(other)),
        other != key@ && old(cache)@.contains_key(other) ==> final(cache)@[other] == old(
            cache,
        )@[other],
{
}

/// A handle that was put under a key is found there, and the other keys keep theirs.
pub proof fn inserted_handles_are_found<R, H>(
    cache: &mut ResourceCache<R, H>,
    key: CacheKey<R>,
    handle: H,
    before: &ResourceCache<R, H>,
    after: &ResourceCache<R, H>,
    asked: CacheKey<R>,
    earlier: Option<&H>,
    found: Option<&H>,
)
    requires
        call_ensures(ResourceCache::<R, H>::insert, (cache, key, handle), ()),
        before@ == old(cache)@,
        after@ == final(cache)@,
        call_ensures(ResourceCache::<R, H>::get, (before, asked), earlier),
        call_ensures(ResourceCache::<R, H>::get, (after, asked), found),
    ensures
        asked@ == key@ ==> found is Some && *found->Some_0 == handle,
        asked@ != key@ ==> (found is Some <==> earlier is Some),
        asked@ != key@ && found is Some ==> *found->Some_0 == *earlier->Some_0,
{
}

/// A key is told by its bits.
pub proof fn keys_are_told_by_their_bits<R>(
    a: u64,
    b: u64,
    first: CacheKey<R>,
    second: CacheKey<R>,
    bits: u64,
)
    requires
        call_ensures(CacheKey::<R>::from_bits, (a,), first),
        call_ensures(CacheKey::<R>::from_bits, (b,), second),
        call_ensures(CacheKey::<R>::bits, (first,), bits),
    ensures
        bits == a,
        first@ == second@ <==> a == b,
{
}

} // verus!
