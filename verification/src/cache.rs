//! A cache from descriptors to promises.
//!
//! The key of an entry is the tree that its descriptor stands for: equal
//! trees share one entry, however the descriptors were built. Entries are
//! never replaced and never removed.

use crate::descriptor::{Descriptor, DescriptorView};
use crate::promise::Promise;
use vstd::prelude::*;

verus! {

/// A descriptor and the promise of the resource that it names.
pub struct CacheEntry {
    pub descriptor: Descriptor,
    pub promise: Promise,
}

/// The promises that were requested so far, by descriptor.
pub struct Cache {
    entries: Vec<CacheEntry>,
}

/// What a request for `key` does to a cache that holds `before`: a key
/// that is present gives its promise and leaves the cache as it is; a key
/// that is absent enters the cache with the promise `given`.
pub open spec fn requested(
    before: Map<DescriptorView, Promise>,
    key: DescriptorView,
    given: Promise,
    after: Map<DescriptorView, Promise>,
) -> bool {
    if before.contains_key(key) {
        given == before[key] && after == before
    } else {
        after == before.insert(key, given)
    }
}

impl Cache {
    /// The entries, from the oldest to the youngest.
    pub closed spec fn entries(&self) -> Seq<CacheEntry> {
        self.entries@
    }

    /// The position of the entry for `key`, if there is one.
    pub open spec fn position(&self, key: DescriptorView) -> Option<int> {
        if exists|i: int| 0 <= i < self.entries().len() && (#[trigger] self.entries()[i]).descriptor@ == key {
            Some(
                choose|i: int|
                    0 <= i < self.entries().len() && (#[trigger] self.entries()[i]).descriptor@ == key,
            )
        } else {
            None
        }
    }

    /// The promise of each descriptor that was requested.
    pub open spec fn view(&self) -> Map<DescriptorView, Promise> {
        Map::new(
            |key: DescriptorView| self.position(key).is_some(),
            |key: DescriptorView| self.entries()[self.position(key).unwrap()].promise,
        )
    }

    /// No two entries have the same key.
    pub open spec fn wf(&self) -> bool {
        forall|i: int, j: int|
            0 <= i < j < self.entries().len() ==> (#[trigger] self.entries()[i]).descriptor@ != (
            #[trigger] self.entries()[j]).descriptor@
    }

    /// In a sound cache the entry at position `i` is the one that its key
    /// leads to.
    pub proof fn lemma_entry_found(&self, i: int)
        requires
            self.wf(),
            0 <= i < self.entries().len(),
        ensures
            self@.contains_key(self.entries()[i].descriptor@),
            self@[self.entries()[i].descriptor@] == self.entries()[i].promise,
            self.position(self.entries()[i].descriptor@) == Some(i),
    {
        let key = self.entries()[i].descriptor@;
        let found = self.position(key).unwrap();
        if found < i {
            assert(self.entries()[found].descriptor@ != self.entries()[i].descriptor@);
        } else if i < found {
            assert(self.entries()[i].descriptor@ != self.entries()[found].descriptor@);
        }
    }

    /// An empty cache.
    pub fn new() -> (cache: Cache)
        ensures
            cache.wf(),
            cache@ == Map::<DescriptorView, Promise>::empty(),
    {
        let cache = Cache { entries: Vec::new() };
        proof {
            assert(cache@ =~= Map::<DescriptorView, Promise>::empty());
        }
        cache
    }

    /// The number of entries.
    pub fn len(&self) -> (n: usize)
        ensures
            n == self.entries().len(),
    {
        self.entries.len()
    }

    /// The promise that was entered for a descriptor equal to this one.
    pub fn get(&self, descriptor: &Descriptor) -> (found: Option<Promise>)
        requires
            self.wf(),
        ensures
            found.is_some() == self@.contains_key(descriptor@),
            found.is_some() ==> found.unwrap() == self@[descriptor@],
    {
        let mut i: usize = 0;
        while i < self.entries.len()
            invariant
                i <= self.entries().len(),
                self.wf(),
                forall|j: int| 0 <= j < i ==> (#[trigger] self.entries()[j]).descriptor@ != descriptor@,
            decreases self.entries().len() - i,
        {
            if self.entries[i].descriptor.equals(descriptor) {
                proof {
                    self.lemma_entry_found(i as int);
                }
                return Some(self.entries[i].promise);
            }
            i += 1;
        }
        None
    }

    /// Enters a promise for a descriptor that has none yet.
    pub fn insert(&mut self, descriptor: Descriptor, promise: Promise)
        requires
            old(self).wf(),
            !old(self)@.contains_key(descriptor@),
        ensures
            final(self).wf(),
            final(self)@ == old(self)@.insert(descriptor@, promise),
            final(self).entries() == old(self).entries().push(CacheEntry { descriptor, promise }),
    {
        self.entries.push(CacheEntry { descriptor, promise });
        proof {
            let n = old(self).entries().len() as int;
            assert forall|i: int, j: int| 0 <= i < j < self.entries().len() implies (
            #[trigger] self.entries()[i]).descriptor@ != (#[trigger] self.entries()[j]).descriptor@ by {
                if j == n {
                    assert(self.entries()[i] == old(self).entries()[i]);
                    if self.entries()[i].descriptor@ == descriptor@ {
                        assert(old(self).position(descriptor@).is_some());
                    }
                } else {
                    assert(self.entries()[i] == old(self).entries()[i]);
                    assert(self.entries()[j] == old(self).entries()[j]);
                }
            }
            assert forall|key: DescriptorView| #[trigger]
                self@.contains_key(key) == old(self)@.insert(descriptor@, promise).contains_key(
                    key,
                ) && (self@.contains_key(key) ==> self@[key] == old(self)@.insert(
                    descriptor@,
                    promise,
                )[key]) by {
                if key == descriptor@ {
                    self.lemma_entry_found(n);
                } else if old(self)@.contains_key(key) {
                    let at = old(self).position(key).unwrap();
                    assert(self.entries()[at] == old(self).entries()[at]);
                    self.lemma_entry_found(at);
                } else if self@.contains_key(key) {
                    let at = self.position(key).unwrap();
                    assert(at < n);
                    assert(self.entries()[at] == old(self).entries()[at]);
                    assert(old(self).position(key).is_some());
                }
            }
            assert(self@ =~= old(self)@.insert(descriptor@, promise));
        }
    }

    /// The promise for a descriptor: the one entered before for an equal
    /// descriptor, or else the one that `construct` gives for it, which is
    /// then entered. `construct` is called for a descriptor without an entry
    /// and for no other.
    pub fn get_or_construct<C: FnOnce(&Descriptor) -> Promise>(
        &mut self,
        descriptor: &Descriptor,
        construct: C,
    ) -> (promise: Promise)
        requires
            old(self).wf(),
            !old(self)@.contains_key(descriptor@) ==> call_requires(construct, (descriptor,)),
        ensures
            final(self).wf(),
            requested(old(self)@, descriptor@, promise, final(self)@),
            !old(self)@.contains_key(descriptor@) ==> call_ensures(
                construct,
                (descriptor,),
                promise,
            ),
    {
        match self.get(descriptor) {
            Some(promise) => promise,
            None => {
                let promise = construct(descriptor);
                self.insert(descriptor.clone(), promise);
                promise
            },
        }
    }

    /// A second request for an equal descriptor gives the promise of the
    /// first and leaves the cache as the first left it, whatever would have
    /// been constructed for it: per distinct descriptor one construction
    /// enters the cache and no other is ever seen.
    pub proof fn lemma_equal_descriptors_share(
        before: Map<DescriptorView, Promise>,
        first: &Descriptor,
        second: &Descriptor,
        first_given: Promise,
        between: Map<DescriptorView, Promise>,
        second_given: Promise,
        after: Map<DescriptorView, Promise>,
    )
        requires
            first@ == second@,
            requested(before, first@, first_given, between),
            requested(between, second@, second_given, after),
        ensures
            second_given == first_given,
            after == between,
    {
    }

    /// A request never replaces or removes an entry.
    pub proof fn lemma_entries_stay(
        before: Map<DescriptorView, Promise>,
        key: DescriptorView,
        given: Promise,
        after: Map<DescriptorView, Promise>,
        other: DescriptorView,
    )
        requires
            requested(before, key, given, after),
            before.contains_key(other),
        ensures
            after.contains_key(other),
            after[other] == before[other],
            after.contains_key(key),
            after[key] == given,
    {
    }
}

} // verus!
