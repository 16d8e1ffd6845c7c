//! The map that passwords of one chunk are counted in.

use std::hash::BuildHasherDefault;

use hashbrown::hash_map::RawEntryMut;
use hashbrown::HashMap;
use rustc_hash::FxHasher;
use smallvec::SmallVec;
use vstd::prelude::*;

use crate::tally::{
    add_counts, add_one, counts_of, entry_sum, entry_views, lemma_add_counts_laws,
    lemma_add_one_more, lemma_entry_sum_of_counts, lemma_tally_of_listing, lists, tally, wrap64,
    Counts,
};

verus! {

/// A `hashbrown` map from passwords to counts. Passwords of up to 24 bytes are kept in the map
/// itself.
#[verifier::external_body]
pub struct FastMap {
    inner: HashMap<SmallVec<[u8; 24]>, u64, BuildHasherDefault<FxHasher>>,
}

/// What a [`FastMap`] holds.
pub uninterp spec fn fast_counts(m: FastMap) -> Map<Seq<u8>, u64>;

/// Most entries that room is made for in advance.
pub const MAX_RESERVE: usize = 0x40_0000;

impl FastMap {
    /// An empty map with room for `capacity` entries.
    ///
    /// Calls `hashbrown::HashMap::with_capacity_and_hasher`: the map holds nothing.
    #[verifier::external_body]
    pub(crate) fn with_capacity(capacity: usize) -> (r: FastMap)
        requires
            capacity <= MAX_RESERVE,
        ensures
            fast_counts(r) == Counts::empty(),
    {
        FastMap {
            inner: HashMap::with_capacity_and_hasher(capacity, BuildHasherDefault::default()),
        }
    }

    /// The count of `pw`, if the map has one.
    ///
    /// Calls `hashbrown::HashMap::raw_entry_mut` and `from_key`: an occupied entry gives access to
    /// the count that is stored under the password and to nothing else; a vacant one changes
    /// nothing.
    #[verifier::external_body]
    pub(crate) fn slot(&mut self, pw: &[u8]) -> (r: Option<&mut u64>)
        ensures
            match r {
                Some(count) => {
                    &&& fast_counts(*old(self)).contains_key(pw@)
                    &&& *count == fast_counts(*old(self))[pw@]
                    &&& fast_counts(*final(self)) == fast_counts(*old(self)).insert(
                        pw@,
                        *final(count),
                    )
                },
                None => {
                    &&& !fast_counts(*old(self)).contains_key(pw@)
                    &&& fast_counts(*final(self)) == fast_counts(*old(self))
                },
            },
    {
        match self.inner.raw_entry_mut().from_key(pw) {
            RawEntryMut::Occupied(e) => Some(e.into_mut()),
            RawEntryMut::Vacant(_) => None,
        }
    }

    /// Stores a count for `pw`.
    ///
    /// Calls `hashbrown::HashMap::insert`: the map then has that count for the password, whether or
    /// not it had one before, and is otherwise as it was.
    #[verifier::external_body]
    pub(crate) fn insert(&mut self, pw: &[u8], count: u64)
        ensures
            fast_counts(*final(self)) == fast_counts(*old(self)).insert(pw@, count),
    {
        self.inner.insert(SmallVec::from_slice(pw), count);
    }

    /// Takes the map apart.
    ///
    /// Calls `hashbrown::HashMap::into_iter`: every password of the map comes out once, with its
    /// count, in no particular order.
    #[verifier::external_body]
    pub(crate) fn take_apart(self) -> (r: Vec<(Vec<u8>, u64)>)
        ensures
            lists(entry_views(r@), fast_counts(self)),
    {
        self.inner.into_iter().map(|e| (e.0.into_vec(), e.1)).collect()
    }

    /// An empty map.
    pub fn new() -> (r: FastMap)
        ensures
            fast_counts(r) == Counts::empty(),
    {
        FastMap::with_capacity(0)
    }

    /// The passwords of the map with their counts, each once, in no particular order.
    pub fn into_entries(self) -> (r: Vec<(Vec<u8>, u64)>)
        ensures
            lists(entry_views(r@), fast_counts(self)),
    {
        self.take_apart()
    }
}

/// Counts `n` more of `pw`.
pub fn add_count(map: &mut FastMap, pw: &[u8], n: u64)
    ensures
        fast_counts(*final(map)) == add_one(fast_counts(*old(map)), pw@, n),
{
    match map.slot(pw) {
        Some(count) => {
            *count = count.wrapping_add(n);
        },
        None => {
            map.insert(pw, n);
        },
    }
}

/// Counts one more of `pw`.
pub fn bump_count(map: &mut FastMap, pw: &[u8])
    ensures
        fast_counts(*final(map)) == add_one(fast_counts(*old(map)), pw@, 1),
{
    add_count(map, pw, 1);
}

/// Adds the counts of `more` to those of `map`, and returns how many passwords were counted in
/// `more`.
pub fn merge_counts(map: &mut FastMap, more: FastMap) -> (lines: u64)
    ensures
        fast_counts(*final(map)) == add_counts(fast_counts(*old(map)), fast_counts(more)),
        forall|pws: Seq<Seq<u8>>|
            fast_counts(more) == #[trigger] counts_of(pws) && pws.len() < 0x1_0000_0000_0000_0000
                ==> lines == pws.len(),
{
    let entries = more.into_entries();
    let ghost all = entry_views(entries@);
    let ghost start = fast_counts(*map);
    let mut lines: u64 = 0;
    let mut i: usize = 0;
    proof {
        lemma_add_counts_laws(start, Map::empty(), Map::empty());
        assert(all.take(0) =~= Seq::<(Seq<u8>, u64)>::empty());
    }
    while i < entries.len()
        invariant
            i <= entries@.len(),
            all == entry_views(entries@),
            start == fast_counts(*old(map)),
            fast_counts(*map) == add_counts(start, tally(all.take(i as int))),
            lines == wrap64(entry_sum(all.take(i as int)) as int),
        decreases entries@.len() - i,
    {
        proof {
            let e = all[i as int];
            assert(all.take(i + 1).drop_last() =~= all.take(i as int));
            lemma_add_one_more(start, tally(all.take(i as int)), e.0, e.1);
        }
        add_count(map, &entries[i].0, entries[i].1);
        lines = lines.wrapping_add(entries[i].1);
        i = i + 1;
    }
    proof {
        assert(all.take(i as int) =~= all);
        lemma_tally_of_listing(all, fast_counts(more));
        assert forall|pws: Seq<Seq<u8>>|
            fast_counts(more) == #[trigger] counts_of(pws) && pws.len()
                < 0x1_0000_0000_0000_0000 implies lines == pws.len() by {
            lemma_entry_sum_of_counts(all, pws);
        }
    }
    lines
}

} // verus!
