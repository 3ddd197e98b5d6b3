//! A small keyed cache of coverage tone tables.
//!
//! A tone table depends on nothing but its gamma, which takes one or two
//! values for the life of a process, so a bounded list scanned in order
//! beats hashing.

use vstd::prelude::*;

verus! {

/// How many tables the cache keeps at most.
pub const TONE_CACHE_CAPACITY: usize = 16;

/// The table of the first entry for `gamma`, if any.
pub open spec fn lookup(entries: Seq<(u8, [u8; 256])>, gamma: u8) -> Option<[u8; 256]>
    decreases entries.len(),
{
    if entries.len() == 0 {
        None
    } else {
        let earlier = lookup(entries.drop_last(), gamma);
        if earlier is Some {
            earlier
        } else if entries.last().0 == gamma {
            Some(entries.last().1)
        } else {
            None
        }
    }
}

/// A found table stays found, and the same, when entries are added.
pub proof fn lemma_lookup_prefix(entries: Seq<(u8, [u8; 256])>, n: int, gamma: u8)
    requires
        0 <= n <= entries.len(),
        lookup(entries.take(n), gamma) is Some,
    ensures
        lookup(entries, gamma) == lookup(entries.take(n), gamma),
    decreases entries.len() - n,
{
    if n < entries.len() {
        assert(entries.take(n + 1).drop_last() =~= entries.take(n));
        assert(lookup(entries.take(n + 1), gamma) == lookup(entries.take(n), gamma));
        lemma_lookup_prefix(entries, n + 1, gamma);
    } else {
        assert(entries.take(n) =~= entries);
    }
}

/// Tone tables keyed by gamma, at most [`TONE_CACHE_CAPACITY`] of them.
pub struct ToneLutCache {
    entries: Vec<(u8, [u8; 256])>,
}

impl ToneLutCache {
    /// The entries, oldest first.
    pub closed spec fn contents(&self) -> Seq<(u8, [u8; 256])> {
        self.entries@
    }

    /// An empty cache.
    pub fn new() -> (cache: Self)
        ensures
            cache.contents() == Seq::<(u8, [u8; 256])>::empty(),
    {
        ToneLutCache { entries: Vec::new() }
    }

    /// How many tables are kept.
    pub fn len(&self) -> (n: usize)
        ensures
            n == self.contents().len(),
    {
        self.entries.len()
    }

    /// The table kept for `gamma`: the first entry with that key, if any.
    pub fn find(&self, gamma: u8) -> (r: Option<[u8; 256]>)
        ensures
            r == lookup(self.contents(), gamma),
    {
        let mut i: usize = 0;
        while i < self.entries.len()
            invariant
                i <= self.entries@.len(),
                lookup(self.entries@.take(i as int), gamma) is None,
            decreases self.entries@.len() - i,
        {
            assert(self.entries@.take(i + 1).drop_last() =~= self.entries@.take(i as int));
            if self.entries[i].0 == gamma {
                proof {
                    lemma_lookup_prefix(self.entries@, i + 1, gamma);
                }
                return Some(self.entries[i].1);
            }
            i += 1;
        }
        assert(self.entries@.take(i as int) =~= self.entries@);
        None
    }

    /// Keeps `lut` as the table for `gamma` unless the cache is full.
    pub fn insert(&mut self, gamma: u8, lut: [u8; 256])
        ensures
            old(self).contents().len() < TONE_CACHE_CAPACITY ==> final(self).contents() == old(self).contents().push((gamma, lut)),
            old(self).contents().len() >= TONE_CACHE_CAPACITY ==> final(self).contents() == old(self).contents(),
    {
        if self.entries.len() < TONE_CACHE_CAPACITY {
            self.entries.push((gamma, lut));
        }
    }
}

/// After a table for a gamma that had none is added, looking that gamma up
/// finds it, and gammas already found keep their tables: a cache is keyed
/// on the gamma.
pub proof fn lemma_lookup_after_insert(entries: Seq<(u8, [u8; 256])>, gamma: u8, lut: [u8; 256], other: u8)
    ensures
        lookup(entries, gamma) is None ==> lookup(entries.push((gamma, lut)), gamma) == Some(lut),
        lookup(entries, other) is Some ==> lookup(entries.push((gamma, lut)), other) == lookup(entries, other),
{
    assert(entries.push((gamma, lut)).drop_last() =~= entries);
}

/// Looking a gamma up finds nothing exactly when no entry has that gamma,
/// and otherwise the table of the first entry that has it.
pub proof fn lemma_lookup_first(entries: Seq<(u8, [u8; 256])>, gamma: u8)
    ensures
        lookup(entries, gamma) is None <==> forall|i: int| 0 <= i < entries.len() ==> #[trigger] entries[i].0 != gamma,
        lookup(entries, gamma) is Some ==> exists|i: int|
            0 <= i < entries.len() && #[trigger] entries[i].0 == gamma && lookup(entries, gamma) == Some(entries[i].1)
                && forall|j: int| 0 <= j < i ==> #[trigger] entries[j].0 != gamma,
    decreases entries.len(),
{
    if entries.len() > 0 {
        let init = entries.drop_last();
        lemma_lookup_first(init, gamma);
        assert forall|i: int| 0 <= i < init.len() implies #[trigger] init[i] == entries[i] by {}
        if lookup(init, gamma) is Some {
            let i = choose|i: int|
                0 <= i < init.len() && #[trigger] init[i].0 == gamma && lookup(init, gamma) == Some(init[i].1)
                    && forall|j: int| 0 <= j < i ==> #[trigger] init[j].0 != gamma;
            assert(entries[i].0 == gamma);
            assert forall|j: int| 0 <= j < i implies #[trigger] entries[j].0 != gamma by {
                assert(init[j] == entries[j]);
            }
        } else {
            let last = entries.len() - 1;
            if entries[last].0 == gamma {
                assert forall|j: int| 0 <= j < last implies #[trigger] entries[j].0 != gamma by {
                    assert(init[j] == entries[j]);
                }
                assert(entries[last].0 == gamma);
            } else {
                assert forall|i: int| 0 <= i < entries.len() implies #[trigger] entries[i].0 != gamma by {
                    if i < last {
                        assert(init[i] == entries[i]);
                    }
                }
            }
        }
    }
}

} // verus!
