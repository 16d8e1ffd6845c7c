//! The index that all counts are collected in, within a memory budget.

use dashmap::DashMap;
use rustc_hash::FxBuildHasher;
use vstd::prelude::*;

use crate::arena::{arena_counts, ArenaMap};
use crate::fast_map::{fast_counts, FastMap};
use crate::options::same_text;
use crate::record::{recs, Rec, Record};
use crate::sort::sum_sizes;
use crate::spill::{sort_entries, sorted_entries, PER_ENTRY_OVERHEAD_BYTES};
use crate::tally::{
    add_counts, add_one, entry_recs, entry_views, freq_key, lemma_add_counts_laws,
    lemma_add_one_more, lemma_listing_reordered, lemma_tally_of_listing, lists, sort_key, tally,
    Counts,
};

verus! {

/// `dashmap::DashMap`: a sharded map.
#[verifier::external_type_specification]
#[verifier::external_body]
#[verifier::reject_recursive_types(K)]
#[verifier::reject_recursive_types(V)]
#[verifier::reject_recursive_types(S)]
pub struct ExDashMap<K, V, S>(dashmap::DashMap<K, V, S>);

/// `rustc_hash::FxBuildHasher`: makes hashers that all hash alike.
#[verifier::external_type_specification]
#[verifier::external_body]
pub struct ExFxBuildHasher(rustc_hash::FxBuildHasher);

/// `tempfile::TempPath`: a file that is removed when the value is dropped.
#[verifier::external_type_specification]
#[verifier::external_body]
pub struct ExTempPath(tempfile::TempPath);

/// The map behind a [`CountingIndex`].
pub type GlobalMap = DashMap<Vec<u8>, u64, FxBuildHasher>;

/// What a [`GlobalMap`] holds. The map is only ever changed through an exclusive reference.
pub uninterp spec fn global_counts(m: DashMap<Vec<u8>, u64, FxBuildHasher>) -> Map<Seq<u8>, u64>;

/// Shards of the map.
pub const GLOBAL_MAP_SHARDS: usize = 1024;

/// Entries the map has room for at first.
pub const GLOBAL_MAP_CAPACITY: usize = 0x10_0000;

/// An empty map.
///
/// Calls `dashmap::DashMap::with_capacity_and_hasher_and_shard_amount`, which panics unless the
/// number of shards is a power of two and more than one: the map holds nothing.
#[verifier::external_body]
fn global_new(capacity: usize, shards: usize) -> (r: GlobalMap)
    requires
        capacity <= GLOBAL_MAP_CAPACITY,
        shards == GLOBAL_MAP_SHARDS,
    ensures
        global_counts(r) == Counts::empty(),
{
    DashMap::with_capacity_and_hasher_and_shard_amount(capacity, FxBuildHasher, shards)
}

/// The count of `pw`, if the map has one.
///
/// Calls `dashmap::DashMap::get`: the value that is stored under the key, if any.
#[verifier::external_body]
fn global_get(map: &GlobalMap, pw: &[u8]) -> (r: Option<u64>)
    ensures
        r == (if global_counts(*map).contains_key(pw@) {
            Some(global_counts(*map)[pw@])
        } else {
            None
        }),
{
    map.get(pw).map(|count| *count)
}

/// Stores a count for `pw`.
///
/// Calls `dashmap::DashMap::insert`: the map then has that count for the password, whether or not
/// it had one before, and is otherwise as it was.
#[verifier::external_body]
fn global_insert(map: &mut GlobalMap, pw: Vec<u8>, count: u64)
    ensures
        global_counts(*final(map)) == global_counts(*old(map)).insert(pw@, count),
{
    map.insert(pw, count);
}

/// Takes the map apart.
///
/// Calls `dashmap::DashMap::into_iter`: every password of the map comes out once, with its count,
/// in no particular order.
#[verifier::external_body]
fn global_take_apart(map: GlobalMap) -> (r: Vec<(Vec<u8>, u64)>)
    ensures
        lists(entry_views(r@), global_counts(map)),
{
    map.into_iter().collect()
}

/// How many passwords the map has.
///
/// Calls `dashmap::DashMap::len`, which adds up the lengths of the shards.
#[verifier::external_body]
fn global_len(map: &GlobalMap) -> (r: usize)
    ensures
        r == global_counts(*map).dom().len(),
{
    map.len()
}

/// A size as it is kept: modulo the range of `usize`.
pub open spec fn wrap_usize(n: nat) -> usize {
    (n % (usize::MAX as nat + 1)) as usize
}

/// The memory that entries for these passwords are taken to need.
pub open spec fn footprint(pws: Set<Seq<u8>>) -> nat {
    pws.fold(0, |sum: nat, pw: Seq<u8>| sum + pw.len() + PER_ENTRY_OVERHEAD_BYTES as nat)
}

proof fn lemma_footprint_insert(pws: Set<Seq<u8>>, pw: Seq<u8>)
    requires
        pws.finite(),
        !pws.contains(pw),
    ensures
        footprint(pws.insert(pw)) == footprint(pws) + pw.len() + PER_ENTRY_OVERHEAD_BYTES,
{
    let f = |sum: nat, pw: Seq<u8>| sum + pw.len() + PER_ENTRY_OVERHEAD_BYTES as nat;
    assert(vstd::set::fold::is_fun_commutative(f));
    vstd::set::fold::lemma_fold_insert(pws, 0nat, f, pw);
}

proof fn lemma_footprint_empty()
    ensures
        footprint(Set::empty()) == 0,
{
    let f = |sum: nat, pw: Seq<u8>| sum + pw.len() + PER_ENTRY_OVERHEAD_BYTES as nat;
    vstd::set::fold::lemma_fold_empty::<Seq<u8>, nat>(0nat, f);
}

/// Counts on their way to disk.
pub struct SpillJob {
    pub entries: Vec<(Vec<u8>, u64)>,
    pub run_number: usize,
}

/// The counts collected since the last spill.
pub struct CountingIndex {
    map: GlobalMap,
    approx_bytes: usize,
    budget_bytes: usize,
    spill_count: usize,
}

impl CountingIndex {
    /// The counts in the index.
    pub closed spec fn counts(&self) -> Counts {
        global_counts(self.map)
    }

    /// The memory the index is taken to need.
    pub closed spec fn approx(&self) -> usize {
        self.approx_bytes
    }

    /// The memory the index may need before it is spilled.
    pub closed spec fn budget(&self) -> usize {
        self.budget_bytes
    }

    /// How often the index was spilled.
    pub closed spec fn spills(&self) -> usize {
        self.spill_count
    }

    /// The index holds finitely many counts, and the memory it is taken to need is that of its
    /// passwords.
    pub open spec fn wf(&self) -> bool {
        &&& self.counts().dom().finite()
        &&& self.approx() == wrap_usize(footprint(self.counts().dom()))
    }

    /// An empty index.
    pub fn new(budget_bytes: usize) -> (r: CountingIndex)
        ensures
            r.wf(),
            r.counts() == Counts::empty(),
            r.approx() == 0,
            r.budget() == budget_bytes,
            r.spills() == 0,
    {
        proof {
            lemma_footprint_empty();
            assert(Counts::empty().dom() =~= Set::<Seq<u8>>::empty());
        }
        CountingIndex {
            map: global_new(GLOBAL_MAP_CAPACITY, GLOBAL_MAP_SHARDS),
            approx_bytes: 0,
            budget_bytes,
            spill_count: 0,
        }
    }

    /// Counts `n` more of `pw`.
    fn add(&mut self, pw: Vec<u8>, n: u64)
        requires
            old(self).wf(),
        ensures
            final(self).wf(),
            final(self).counts() == add_one(old(self).counts(), pw@, n),
            final(self).budget() == old(self).budget(),
            final(self).spills() == old(self).spills(),
    {
        let ghost dom = self.counts().dom();
        let ghost bytes = pw@;
        match global_get(&self.map, &pw) {
            Some(count) => {
                global_insert(&mut self.map, pw, count.wrapping_add(n));
                assert(self.counts().dom() =~= dom);
            },
            None => {
                let len: usize = pw.len();
                self.approx_bytes = self.approx_bytes.wrapping_add(len).wrapping_add(
                    PER_ENTRY_OVERHEAD_BYTES,
                );
                global_insert(&mut self.map, pw, n);
                proof {
                    assert(self.counts().dom() =~= dom.insert(bytes));
                    lemma_footprint_insert(dom, bytes);
                    lemma_wrap_usize_add(footprint(dom), bytes.len());
                    lemma_wrap_usize_add(
                        footprint(dom) + bytes.len(),
                        PER_ENTRY_OVERHEAD_BYTES as nat,
                    );
                }
            },
        }
    }

    /// Adds counts, each password once.
    fn add_all(&mut self, entries: Vec<(Vec<u8>, u64)>)
        requires
            old(self).wf(),
        ensures
            final(self).wf(),
            final(self).counts() == add_counts(old(self).counts(), tally(entry_views(entries@))),
            final(self).budget() == old(self).budget(),
            final(self).spills() == old(self).spills(),
    {
        let ghost all = entry_views(entries@);
        let ghost listed = entries@;
        let ghost start = self.counts();
        let ghost mut i: int = 0;
        proof {
            lemma_add_counts_laws(start, Map::empty(), Map::empty());
            assert(all.take(0) =~= Seq::<(Seq<u8>, u64)>::empty());
        }
        for entry in it: entries.into_iter()
            invariant
                it.seq() == listed,
                it.index() == i,
                all == entry_views(listed),
                self.wf(),
                self.counts() == add_counts(start, tally(all.take(i))),
                self.budget() == old(self).budget(),
                self.spills() == old(self).spills(),
        {
            proof {
                let e = all[i];
                assert(all.take(i + 1).drop_last() =~= all.take(i));
                assert(e == (entry.0@, entry.1));
                lemma_add_one_more(start, tally(all.take(i)), e.0, e.1);
            }
            self.add(entry.0, entry.1);
            proof {
                i = i + 1;
            }
        }
        assert(all.take(i) =~= all);
    }
}

proof fn lemma_wrap_usize_add(a: nat, b: nat)
    requires
        b <= usize::MAX,
    ensures
        wrap_usize(a + b) == (if wrap_usize(a) + b > usize::MAX {
            wrap_usize(a) + b - usize::MAX - 1
        } else {
            wrap_usize(a) + b
        }),
{
    let m = usize::MAX as int + 1;
    let r = a as int % m;
    vstd::arithmetic::div_mod::lemma_fundamental_div_mod(a as int, m);
    let q = a as int / m;
    if r + b >= m {
        assert(a + b == m * (q + 1) + (r + b - m)) by (nonlinear_arith)
            requires
                a == m * q + r,
        ;
        vstd::arithmetic::div_mod::lemma_fundamental_div_mod_converse(
            (a + b) as int,
            m,
            q + 1,
            r + b - m,
        );
    } else {
        vstd::arithmetic::div_mod::lemma_fundamental_div_mod_converse(
            (a + b) as int,
            m,
            q,
            r + b,
        );
    }
}

/// Adds the counts of a map to the index.
pub fn fold_into_dashmap(index: &mut CountingIndex, local: FastMap)
    requires
        old(index).wf(),
    ensures
        final(index).wf(),
        final(index).counts() == add_counts(old(index).counts(), fast_counts(local)),
        final(index).budget() == old(index).budget(),
        final(index).spills() == old(index).spills(),
{
    let entries = local.into_entries();
    proof {
        lemma_tally_of_listing(entry_views(entries@), fast_counts(local));
    }
    index.add_all(entries);
}

/// Adds the counts of a map with passwords in arenas to the index.
pub fn fold_into_dashmap_arena(index: &mut CountingIndex, local: ArenaMap<'_>)
    requires
        old(index).wf(),
    ensures
        final(index).wf(),
        final(index).counts() == add_counts(old(index).counts(), arena_counts(local)),
        final(index).budget() == old(index).budget(),
        final(index).spills() == old(index).spills(),
{
    let entries = local.into_entries();
    proof {
        lemma_tally_of_listing(entry_views(entries@), arena_counts(local));
    }
    index.add_all(entries);
}

/// The sort key of a password in the final dictionary.
pub open spec fn dictionary_key(count: u64, by_frequency: bool) -> i64 {
    if by_frequency {
        freq_key(count)
    } else {
        0
    }
}

/// The records are those of the counts, each password once.
pub open spec fn lists_records(s: Seq<Rec>, m: Counts, by_frequency: bool) -> bool {
    &&& forall|i: int, j: int|
        0 <= i < j < s.len() ==> (#[trigger] s[i]).pw != (#[trigger] s[j]).pw
    &&& forall|i: int|
        0 <= i < s.len() ==> m.contains_key((#[trigger] s[i]).pw) && s[i].key == dictionary_key(
            m[s[i].pw],
            by_frequency,
        )
    &&& forall|pw: Seq<u8>| #[trigger]
        m.contains_key(pw) ==> exists|i: int| 0 <= i < s.len() && (#[trigger] s[i]).pw == pw
}

/// What counting ended with.
pub enum FinalizedResult {
    /// Nothing was spilled: the number of distinct passwords and their records, unsorted.
    InMemory(u64, Vec<Record>),
    /// Counts were spilled: the runs on disk, the last counts, sorted, if any were left in memory,
    /// and how the dictionary is to be sorted.
    Spilled {
        runs: Vec<tempfile::TempPath>,
        last_run: Option<Vec<(Vec<u8>, u64)>>,
        sort_mode: String,
    },
}

/// The index was spilled if it had reached its budget and held anything.
pub open spec fn spilled_if_due(
    before: &CountingIndex,
    after: &CountingIndex,
    r: Option<SpillJob>,
) -> bool {
    let due = before.approx() >= before.budget() && before.counts().dom().len() > 0;
    match r {
        Some(job) => {
            &&& due
            &&& lists(entry_views(job.entries@), before.counts())
            &&& job.run_number == wrap_usize(before.spills() as nat + 1)
            &&& after.spills() == job.run_number
            &&& after.counts() == Counts::empty()
            &&& after.approx() == 0
        },
        None => {
            &&& !due
            &&& after.counts() == before.counts()
            &&& after.approx() == before.approx()
            &&& after.spills() == before.spills()
        },
    }
}

/// What ending counting gives: without spilled runs the records of all counts; otherwise the runs,
/// the counts that are left in memory, sorted, and the sort mode.
pub open spec fn is_finalized(
    index: CountingIndex,
    sort_mode: Seq<char>,
    spilled_runs: Seq<tempfile::TempPath>,
    r: FinalizedResult,
) -> bool {
    match r {
        FinalizedResult::InMemory(unique, records) => {
            &&& spilled_runs.len() == 0
            &&& unique == index.counts().dom().len()
            &&& records@.len() == unique
            &&& lists_records(recs(records@), index.counts(), sort_mode == "frequency"@)
        },
        FinalizedResult::Spilled { runs, last_run, sort_mode: mode } => {
            &&& spilled_runs.len() > 0
            &&& runs@ == spilled_runs
            &&& mode@ == sort_mode
            &&& match last_run {
                Some(entries) => {
                    &&& index.counts().dom().len() > 0
                    &&& lists(entry_views(entries@), index.counts())
                    &&& sorted_entries(entry_views(entries@))
                },
                None => index.counts().dom().len() == 0,
            }
        },
    }
}

impl CountingIndex {
    /// Takes all counts out of the index.
    fn take_entries(&mut self) -> (r: Vec<(Vec<u8>, u64)>)
        requires
            old(self).wf(),
        ensures
            final(self).wf(),
            final(self).counts() == Counts::empty(),
            final(self).approx() == 0,
            final(self).budget() == old(self).budget(),
            final(self).spills() == old(self).spills(),
            lists(entry_views(r@), old(self).counts()),
    {
        proof {
            lemma_footprint_empty();
            assert(Counts::empty().dom() =~= Set::<Seq<u8>>::empty());
        }
        let mut map = global_new(0, GLOBAL_MAP_SHARDS);
        std::mem::swap(&mut map, &mut self.map);
        self.approx_bytes = 0;
        global_take_apart(map)
    }

    /// Spills the index if it has reached its budget: hands all counts out to be written to disk,
    /// and starts over from none.
    pub fn maybe_spill(&mut self) -> (r: Option<SpillJob>)
        requires
            old(self).wf(),
        ensures
            final(self).wf(),
            final(self).budget() == old(self).budget(),
            final(self).approx() < final(self).budget() || final(self).counts() == Counts::empty(),
            spilled_if_due(old(self), final(self), r),
    {
        if self.approx_bytes < self.budget_bytes {
            return None;
        }
        if global_len(&self.map) == 0 {
            return None;
        }
        proof {
            lemma_wrap_usize_add(self.spill_count as nat, 1);
            assert(wrap_usize(self.spill_count as nat) == self.spill_count) by {
                vstd::arithmetic::div_mod::lemma_small_mod(
                    self.spill_count as nat,
                    usize::MAX as nat + 1,
                );
            }
        }
        self.spill_count = self.spill_count.wrapping_add(1);
        let entries = self.take_entries();
        Some(SpillJob { entries, run_number: self.spill_count })
    }

    /// Ends counting. Without spilled runs the result is made from the counts in memory; otherwise
    /// these become the last run.
    pub fn finalize(self, sort_mode: &str, spilled_runs: Vec<tempfile::TempPath>) -> (r:
        FinalizedResult)
        requires
            self.wf(),
        ensures
            is_finalized(self, sort_mode@, spilled_runs@, r),
    {
        if spilled_runs.len() == 0 {
            let unique: usize = global_len(&self.map);
            let by_frequency = same_text(sort_mode, "frequency");
            let ghost m = self.counts();
            let entries = global_take_apart(self.map);
            let ghost listed = entries@;
            let ghost all = entry_views(entries@);
            let mut records: Vec<Record> = Vec::new();
            let ghost mut i: int = 0;
            for entry in it: entries.into_iter()
                invariant
                    it.seq() == listed,
                    it.index() == i,
                    i == records@.len(),
                    all == entry_views(listed),
                    lists(all, m),
                    forall|j: int|
                        0 <= j < i ==> (#[trigger] records@[j])@ == (Rec {
                            key: dictionary_key(all[j].1, by_frequency),
                            pw: all[j].0,
                        }),
            {
                let key: i64 = if by_frequency {
                    sort_key(entry.1, true)
                } else {
                    0
                };
                assert(all[i] == (entry.0@, entry.1));
                records.push(Record { key, pw: entry.0 });
                proof {
                    i = i + 1;
                }
            }
            proof {
                let s = recs(records@);
                assert forall|j: int| 0 <= j < s.len() implies (#[trigger] s[j]).pw == all[j].0
                    && s[j].key == dictionary_key(all[j].1, by_frequency) by {
                    assert(s[j] == records@[j]@);
                }
                assert forall|pw: Seq<u8>| #[trigger] m.contains_key(pw) implies exists|k: int|
                    0 <= k < s.len() && (#[trigger] s[k]).pw == pw by {
                    let k = choose|k: int| 0 <= k < all.len() && (#[trigger] all[k]).0 == pw;
                    assert(s[k].pw == pw);
                }
                lemma_listing_len(all, m);
            }
            FinalizedResult::InMemory(unique as u64, records)
        } else {
            let last_run = if global_len(&self.map) == 0 {
                None
            } else {
                let mut entries = global_take_apart(self.map);
                let ghost unsorted = entry_views(entries@);
                sort_entries(&mut entries);
                proof {
                    lemma_listing_reordered(
                        unsorted,
                        entry_views(entries@),
                        self.counts(),
                    );
                }
                Some(entries)
            };
            FinalizedResult::Spilled {
                runs: spilled_runs,
                last_run,
                sort_mode: sort_mode.to_string(),
            }
        }
    }
}

/// A listing has as many entries as there are counts.
pub proof fn lemma_listing_len(entries: Seq<(Seq<u8>, u64)>, m: Counts)
    requires
        lists(entries, m),
    ensures
        m.dom().finite(),
        m.dom().len() == entries.len(),
{
    let keys = entries.map_values(|e: (Seq<u8>, u64)| e.0);
    assert(keys.no_duplicates()) by {
        assert forall|i: int, j: int| 0 <= i < keys.len() && 0 <= j < keys.len() && i
            != j implies keys[i] != keys[j] by {
            if i < j {
                assert(entries[i].0 != entries[j].0);
            } else {
                assert(entries[j].0 != entries[i].0);
            }
        }
    }
    keys.unique_seq_to_set();
    assert(keys.to_set() =~= m.dom()) by {
        assert forall|pw: Seq<u8>| keys.contains(pw) <==> m.contains_key(pw) by {
            if keys.contains(pw) {
                let i = choose|i: int| 0 <= i < keys.len() && keys[i] == pw;
                assert(m.contains_key(entries[i].0));
            }
            if m.contains_key(pw) {
                let i = choose|i: int| 0 <= i < entries.len() && (#[trigger] entries[i]).0 == pw;
                assert(keys[i] == pw);
            }
        }
    }
}

/// What is asked for on disk before counts are spilled is the memory they were taken to need.
pub proof fn lemma_footprint_of_listing(entries: Seq<(Seq<u8>, u64)>, m: Counts)
    requires
        lists(entries, m),
    ensures
        m.dom().finite(),
        footprint(m.dom()) == sum_sizes(
            entry_recs(entries, false),
            PER_ENTRY_OVERHEAD_BYTES as nat,
        ),
    decreases entries.len(),
{
    let s = entry_recs(entries, false);
    if entries.len() == 0 {
        lemma_footprint_empty();
        assert(m.dom() =~= Set::<Seq<u8>>::empty());
    } else {
        let shorter = entries.drop_last();
        let last = entries.len() - 1;
        let pw = entries[last].0;
        let rest = m.remove(pw);
        assert forall|i: int| 0 <= i < shorter.len() implies rest.contains_key(
            (#[trigger] shorter[i]).0,
        ) && rest[shorter[i].0] == shorter[i].1 by {
            assert(shorter[i] == entries[i]);
            assert(entries[i].0 != entries[last].0);
        }
        assert forall|k: Seq<u8>| #[trigger] rest.contains_key(k) implies exists|i: int|
            0 <= i < shorter.len() && (#[trigger] shorter[i]).0 == k by {
            assert(m.contains_key(k));
            let i = choose|i: int| 0 <= i < entries.len() && (#[trigger] entries[i]).0 == k;
            assert(shorter[i].0 == k);
        }
        lemma_footprint_of_listing(shorter, rest);
        lemma_footprint_insert(rest.dom(), pw);
        assert(m.contains_key(entries[last].0));
        assert(rest.dom().insert(pw) =~= m.dom());
        assert(s.drop_last() =~= entry_recs(shorter, false));
    }
}

/// What adding counts to the index and spilling it if it is due comes to: the counts are in the
/// index, or they were handed out together with those that were in it before.
pub open spec fn absorbed(
    before: &CountingIndex,
    after: &CountingIndex,
    more: Counts,
    job: Option<SpillJob>,
) -> bool {
    let all = add_counts(before.counts(), more);
    &&& after.wf()
    &&& after.budget() == before.budget()
    &&& after.approx() < after.budget() || after.counts() == Counts::empty()
    &&& match job {
        Some(job) => {
            &&& lists(entry_views(job.entries@), all)
            &&& job.entries@.len() > 0
            &&& wrap_usize(footprint(all.dom())) >= before.budget()
            &&& after.counts() == Counts::empty()
            &&& job.run_number == wrap_usize(before.spills() as nat + 1)
            &&& after.spills() == job.run_number
        },
        None => after.counts() == all && after.spills() == before.spills(),
    }
}

/// Adds the counts of a map to the index, and spills it if that takes it to its budget.
pub fn absorb(index: &mut CountingIndex, local: FastMap) -> (job: Option<SpillJob>)
    requires
        old(index).wf(),
    ensures
        absorbed(old(index), final(index), fast_counts(local), job),
{
    fold_into_dashmap(index, local);
    let ghost all = index.counts();
    let job = index.maybe_spill();
    proof {
        if let Some(j) = &job {
            lemma_listing_len(entry_views(j.entries@), all);
        }
    }
    job
}

/// The counts of several maps with passwords in arenas, added up.
pub open spec fn arena_total(maps: Seq<ArenaMap<'_>>) -> Counts
    decreases maps.len(),
{
    if maps.len() == 0 {
        Map::empty()
    } else {
        add_counts(arena_total(maps.drop_last()), arena_counts(maps.last()))
    }
}

/// Adds the counts of maps with passwords in arenas to the index, and spills it if that takes it to
/// its budget.
pub fn absorb_arena(index: &mut CountingIndex, locals: Vec<ArenaMap<'_>>) -> (job: Option<
    SpillJob,
>)
    requires
        old(index).wf(),
    ensures
        absorbed(old(index), final(index), arena_total(locals@), job),
{
    let ghost maps = locals@;
    let ghost mut i: int = 0;
    proof {
        lemma_add_counts_laws(index.counts(), Map::empty(), Map::empty());
        assert(maps.take(0) =~= Seq::<ArenaMap<'_>>::empty());
    }
    for local in it: locals.into_iter()
        invariant
            it.seq() == maps,
            it.index() == i,
            index.wf(),
            index.budget() == old(index).budget(),
            index.spills() == old(index).spills(),
            index.counts() == add_counts(old(index).counts(), arena_total(maps.take(i))),
    {
        proof {
            assert(maps.take(i + 1).drop_last() =~= maps.take(i));
            assert(maps.take(i + 1).last() == local);
            lemma_add_counts_laws(
                old(index).counts(),
                arena_total(maps.take(i)),
                arena_counts(local),
            );
        }
        fold_into_dashmap_arena(index, local);
        proof {
            i = i + 1;
        }
    }
    assert(maps.take(i) =~= maps);
    let ghost all = index.counts();
    let job = index.maybe_spill();
    proof {
        if let Some(j) = &job {
            lemma_listing_len(entry_views(j.entries@), all);
        }
    }
    job
}

/// A size that is kept is the size itself as long as it fits.
pub proof fn lemma_wrapped_size(n: nat)
    ensures
        n <= usize::MAX ==> wrap_usize(n) == n,
{
    if n <= usize::MAX {
        vstd::arithmetic::div_mod::lemma_small_mod(n, usize::MAX as nat + 1);
    }
}

/// The memory that passwords are taken to need: for each its length and 48 bytes.
pub proof fn lemma_footprint_one_more(pws: Set<Seq<u8>>, pw: Seq<u8>)
    requires
        pws.finite(),
        !pws.contains(pw),
    ensures
        footprint(Set::empty()) == 0,
        footprint(pws.insert(pw)) == footprint(pws) + pw.len() + 48,
{
    lemma_footprint_empty();
    lemma_footprint_insert(pws, pw);
}

/// Absorbing counts spills exactly if there are any and they reach the budget. Then all counts are
/// handed out; otherwise none is, and all are in the index.
pub proof fn lemma_absorb_spills_at_budget(
    before: CountingIndex,
    after: CountingIndex,
    more: Counts,
    job: Option<SpillJob>,
)
    requires
        before.wf(),
        absorbed(&before, &after, more, job),
        footprint(add_counts(before.counts(), more).dom()) <= usize::MAX,
    ensures
        ({
            let all = add_counts(before.counts(), more);
            &&& job is Some <==> footprint(all.dom()) >= before.budget() && all.dom().len() > 0
            &&& job matches Some(j) ==> tally(entry_views(j.entries@)) == all && after.counts()
                == Counts::empty()
            &&& job is None ==> after.counts() == all
        }),
{
    let all = add_counts(before.counts(), more);
    lemma_wrapped_size(footprint(all.dom()));
    match job {
        Some(j) => {
            lemma_listing_len(entry_views(j.entries@), all);
            lemma_tally_of_listing(entry_views(j.entries@), all);
        },
        None => {
            if after.counts() == Counts::empty() {
                assert(all.dom() =~= Set::<Seq<u8>>::empty());
            }
        },
    }
}

/// The key of a password in the dictionary: by frequency it cancels its count out, modulo 2^64, and
/// otherwise all keys are the same.
pub proof fn lemma_dictionary_keys(count: u64, other: u64)
    ensures
        (dictionary_key(count, true) + count) % 0x1_0000_0000_0000_0000 == 0,
        dictionary_key(count, false) == dictionary_key(other, false),
{
    crate::tally::lemma_keys_of_counts(count);
}

/// The maps of a batch add up, map by map.
pub proof fn lemma_arena_one_more<'a>(maps: Seq<ArenaMap<'a>>, map: ArenaMap<'a>)
    ensures
        arena_total(Seq::<ArenaMap<'a>>::empty()) == Counts::empty(),
        arena_total(maps.push(map)) == add_counts(arena_total(maps), arena_counts(map)),
{
    assert(maps.push(map).drop_last() =~= maps);
}

/// An index is spilled exactly if it holds anything and its passwords, with 48 bytes for each, reach
/// the budget. All counts are then handed out, under the next number, and none is left.
pub proof fn lemma_spills_at_budget(
    before: CountingIndex,
    after: CountingIndex,
    r: Option<SpillJob>,
)
    requires
        before.wf(),
        spilled_if_due(&before, &after, r),
        footprint(before.counts().dom()) <= usize::MAX,
        before.spills() < usize::MAX,
    ensures
        r is Some <==> footprint(before.counts().dom()) >= before.budget() && before.counts()
            != Counts::empty(),
        r matches Some(job) ==> {
            &&& tally(entry_views(job.entries@)) == before.counts()
            &&& job.run_number == before.spills() + 1
            &&& after.counts() == Counts::empty()
        },
        r is None ==> after.counts() == before.counts() && after.spills() == before.spills(),
{
    lemma_wrapped_size(footprint(before.counts().dom()));
    lemma_wrapped_size((before.spills() + 1) as nat);
    if before.counts().dom().len() == 0 {
        assert(before.counts().dom() =~= Set::<Seq<u8>>::empty());
        assert(before.counts() =~= Counts::empty());
    } else if before.counts() == Counts::empty() {
        assert(before.counts().dom() =~= Set::<Seq<u8>>::empty());
    }
    if let Some(job) = r {
        lemma_tally_of_listing(entry_views(job.entries@), before.counts());
    }
}

} // verus!
