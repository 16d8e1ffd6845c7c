//! Counting with passwords kept in bump arenas instead of in the map.

use std::hash::BuildHasherDefault;

use bumpalo::Bump;
use hashbrown::hash_map::RawEntryMut;
use hashbrown::HashMap;
use rustc_hash::FxHasher;
use vstd::prelude::*;

use crate::tally::{add_one, entry_views, lists, Counts};

verus! {

/// `bumpalo::Bump`: an arena that only grows.
#[verifier::external_type_specification]
#[verifier::external_body]
pub struct ExBump<const MIN_ALIGN: usize>(bumpalo::Bump<MIN_ALIGN>);

/// Arenas to keep passwords in, one for each thread.
pub struct ArenaPool {
    arenas: Vec<Bump>,
}

impl ArenaPool {
    /// How many arenas the pool has.
    pub closed spec fn size(&self) -> nat {
        self.arenas@.len()
    }

    /// How many arenas the pool has.
    pub fn len(&self) -> (r: usize)
        ensures
            r == self.size(),
    {
        self.arenas.len()
    }
}

/// Calls `bumpalo::Bump::new`, which makes an arena with nothing in it.
#[verifier::external_body]
fn new_arena() -> Bump {
    Bump::new()
}

/// Calls `bumpalo::Bump::alloc_slice_copy`: the result is a copy of `bytes` that lives as long as
/// the arena.
#[verifier::external_body]
fn copy_into<'a>(arena: &'a Bump, bytes: &[u8]) -> (r: &'a [u8])
    ensures
        r@ == bytes@,
{
    arena.alloc_slice_copy(bytes)
}

/// Calls `rayon::current_thread_index`: the index of the calling thread in its thread pool, or
/// `None` outside of one. Nothing is said of which index that is.
#[verifier::external_body]
fn thread_index() -> (r: Option<usize>) {
    rayon::current_thread_index()
}

/// A pool with an arena for each of `num_threads` threads, and at least one.
pub fn arena_pool(num_threads: usize) -> (r: ArenaPool)
    ensures
        r.size() == (if num_threads < 1 {
            1
        } else {
            num_threads as int
        }),
{
    let n: usize = if num_threads < 1 {
        1
    } else {
        num_threads
    };
    let mut arenas: Vec<Bump> = Vec::new();
    while arenas.len() < n
        invariant
            arenas@.len() <= n,
        decreases n - arenas@.len(),
    {
        arenas.push(new_arena());
    }
    ArenaPool { arenas }
}

/// Which of `arenas` arenas a thread uses.
pub open spec fn arena_index(thread: Option<usize>, arenas: usize) -> int {
    match thread {
        Some(t) => t as int % arenas as int,
        None => 0,
    }
}

/// Which of `arenas` arenas a thread uses: threads share them in turn, and a caller outside the
/// thread pool uses the first.
pub fn arena_for(thread: Option<usize>, arenas: usize) -> (r: usize)
    requires
        arenas > 0,
    ensures
        r < arenas,
        r as int == arena_index(thread, arenas),
{
    match thread {
        Some(t) => t % arenas,
        None => 0,
    }
}

/// Copies `bytes` into the arena of the calling thread.
pub fn arena_alloc<'a>(pool: &'a ArenaPool, bytes: &[u8]) -> (r: &'a [u8])
    requires
        pool.size() > 0,
    ensures
        r@ == bytes@,
{
    let i: usize = arena_for(thread_index(), pool.arenas.len());
    copy_into(&pool.arenas[i], bytes)
}

/// A `hashbrown` map from passwords that are kept in arenas to counts.
#[verifier::external_body]
pub struct ArenaMap<'a> {
    inner: HashMap<&'a [u8], u64, BuildHasherDefault<FxHasher>>,
}

/// What an [`ArenaMap`] holds.
pub uninterp spec fn arena_counts(m: ArenaMap<'_>) -> Map<Seq<u8>, u64>;

impl<'a> ArenaMap<'a> {
    /// An empty map with room for `capacity` entries.
    ///
    /// Calls `hashbrown::HashMap::with_capacity_and_hasher`: the map holds nothing.
    #[verifier::external_body]
    pub(crate) fn with_capacity(capacity: usize) -> (r: ArenaMap<'a>)
        requires
            capacity <= crate::fast_map::MAX_RESERVE,
        ensures
            arena_counts(r) == Counts::empty(),
    {
        ArenaMap {
            inner: HashMap::with_capacity_and_hasher(capacity, BuildHasherDefault::default()),
        }
    }

    /// The count of `pw`, if the map has one.
    ///
    /// Calls `hashbrown::HashMap::raw_entry_mut` and `from_key`: an occupied entry gives access to
    /// the count that is stored under the password and to nothing else; a vacant one changes
    /// nothing.
    #[verifier::external_body]
    pub(crate) fn slot(&mut self, pw: &[u8]) -> (r: Option<&mut u64>)
        ensures
            match r {
                Some(count) => {
                    &&& arena_counts(*old(self)).contains_key(pw@)
                    &&& *count == arena_counts(*old(self))[pw@]
                    &&& arena_counts(*final(self)) == arena_counts(*old(self)).insert(
                        pw@,
                        *final(count),
                    )
                },
                None => {
                    &&& !arena_counts(*old(self)).contains_key(pw@)
                    &&& arena_counts(*final(self)) == arena_counts(*old(self))
                },
            },
    {
        match self.inner.raw_entry_mut().from_key(pw) {
            RawEntryMut::Occupied(e) => Some(e.into_mut()),
            RawEntryMut::Vacant(_) => None,
        }
    }

    /// Stores a count for `pw`.
    ///
    /// Calls `hashbrown::HashMap::insert`: the map then has that count for the password, whether or
    /// not it had one before, and is otherwise as it was.
    #[verifier::external_body]
    pub(crate) fn insert(&mut self, pw: &'a [u8], count: u64)
        ensures
            arena_counts(*final(self)) == arena_counts(*old(self)).insert(pw@, count),
    {
        self.inner.insert(pw, count);
    }

    /// Takes the map apart.
    ///
    /// Calls `hashbrown::HashMap::into_iter`: every password of the map comes out once, with its
    /// count, in no particular order.
    #[verifier::external_body]
    pub(crate) fn take_apart(self) -> (r: Vec<(Vec<u8>, u64)>)
        ensures
            lists(entry_views(r@), arena_counts(self)),
    {
        self.inner.into_iter().map(|e| (e.0.to_vec(), e.1)).collect()
    }

    /// The passwords of the map with their counts, each once, in no particular order.
    pub fn into_entries(self) -> (r: Vec<(Vec<u8>, u64)>)
        ensures
            lists(entry_views(r@), arena_counts(self)),
    {
        self.take_apart()
    }
}

/// Counts one more of `pw`. A password that is new to the map is copied into an arena; the result
/// says whether it was.
pub fn bump_count_arena<'a>(map: &mut ArenaMap<'a>, pool: &'a ArenaPool, pw: &[u8]) -> (fresh: bool)
    requires
        pool.size() > 0,
    ensures
        arena_counts(*final(map)) == add_one(arena_counts(*old(map)), pw@, 1),
        fresh == !arena_counts(*old(map)).contains_key(pw@),
{
    match map.slot(pw) {
        Some(count) => {
            *count = count.wrapping_add(1);
            false
        },
        None => {
            let kept = arena_alloc(pool, pw);
            map.insert(kept, 1);
            true
        },
    }
}

/// With an arena for each thread, no two threads of the pool share one.
pub proof fn lemma_threads_have_their_own_arena(a: usize, b: usize, arenas: usize)
    requires
        a < arenas,
        b < arenas,
        a != b,
    ensures
        0 <= arena_index(Some(a), arenas) < arenas,
        arena_index(Some(a), arenas) != arena_index(Some(b), arenas),
        arena_index(None, arenas) < arenas,
{
    vstd::arithmetic::div_mod::lemma_small_mod(a as nat, arenas as nat);
    vstd::arithmetic::div_mod::lemma_small_mod(b as nat, arenas as nat);
}

} // verus!
