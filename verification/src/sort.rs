//! Sorting records, in memory or in chunks that are spilled and merged.

use rayon::slice::ParallelSliceMut;
use vstd::prelude::*;

use crate::codec::RunError;
use crate::dedup::{lemma_remaining_advance, remaining, Progress};
use crate::heap::MergeOrder;
use crate::merge::{advance, breaks_off, front, lemma_front, Run, RunMerger};
use crate::output::{lines_bytes, push_line};
use crate::record::{recs, sorted_recs, Rec, Record};

verus! {

/// The passwords of records.
pub open spec fn rec_pws(s: Seq<Rec>) -> Seq<Seq<u8>> {
    s.map_values(|r: Rec| r.pw)
}

/// The records as lines of the dictionary.
pub open spec fn recs_lines(s: Seq<Rec>) -> Seq<u8> {
    lines_bytes(rec_pws(s))
}

/// What handing out all records gives: the records in order, and whether all runs could be read to
/// their ends. A record right in front of one that is cut short is still handed out.
#[verifier::ext_equal]
pub struct Drained {
    pub recs: Seq<Rec>,
    pub intact: bool,
}

/// What taking records off in sorted order to the end gives.
pub open spec fn drained(runs: Seq<Run>) -> Drained
    decreases remaining(runs),
{
    let f = front(MergeOrder::ByRecord, runs);
    if f < 0 || f >= runs.len() || runs[f].recs.len() == 0 {
        Drained { recs: Seq::empty(), intact: true }
    } else {
        let first = runs[f].recs[0];
        if breaks_off(runs[f]) {
            Drained { recs: seq![first], intact: false }
        } else {
            proof {
                lemma_remaining_advance(runs, f);
            }
            let tail = drained(advance(runs, f));
            Drained { recs: seq![first] + tail.recs, intact: tail.intact }
        }
    }
}

/// Merges sorted runs into the dictionary: appends the password of each record as a line to `out`
/// until it has `limit` bytes or the runs are exhausted.
pub fn merge_sorted_and_write(merger: &mut RunMerger<'_>, out: &mut Vec<u8>, limit: usize) -> (r:
    Result<Progress, RunError>)
    requires
        old(merger).wf(),
        old(merger).merge_order() == MergeOrder::ByRecord,
    ensures
        final(merger).wf(),
        final(merger).merge_order() == old(merger).merge_order(),
        ({
            let all = drained(old(merger).runs()).recs;
            let intact = drained(old(merger).runs()).intact;
            match r {
                Ok(p) => {
                    &&& p.records <= all.len()
                    &&& final(out)@ == old(out)@ + recs_lines(all.take(p.records as int))
                    &&& drained(final(merger).runs()) == (Drained {
                        recs: all.skip(p.records as int),
                        intact,
                    })
                    &&& p.done == (final(out)@.len() < limit)
                    &&& p.done ==> p.records == all.len() && intact
                    &&& forall|j: int|
                        0 <= j < p.records ==> old(out)@.len() + (#[trigger] recs_lines(
                            all.take(j),
                        )).len() < limit
                },
                Err(RunError::UnexpectedEof) => {
                    &&& !intact
                    &&& final(out)@ == old(out)@ + recs_lines(all)
                    &&& forall|j: int|
                        0 <= j < all.len() ==> old(out)@.len() + (#[trigger] recs_lines(
                            all.take(j),
                        )).len() < limit
                },
            }
        }),
{
    let ghost all = drained(merger.runs()).recs;
    let ghost intact = drained(merger.runs()).intact;
    let mut records: usize = 0;
    proof {
        assert(all.skip(0) =~= all);
        assert(rec_pws(all.take(0)) =~= Seq::<Seq<u8>>::empty());
        assert(out@ =~= old(out)@ + recs_lines(all.take(0)));
    }
    while out.len() < limit
        invariant
            merger.wf(),
            merger.merge_order() == MergeOrder::ByRecord,
            old(merger).merge_order() == MergeOrder::ByRecord,
            all == drained(old(merger).runs()).recs,
            intact == drained(old(merger).runs()).intact,
            records <= all.len(),
            records <= out@.len(),
            drained(merger.runs()) == (Drained { recs: all.skip(records as int), intact }),
            out@ == old(out)@ + recs_lines(all.take(records as int)),
            forall|j: int|
                0 <= j < records ==> old(out)@.len() + (#[trigger] recs_lines(all.take(j))).len()
                    < limit,
        decreases remaining(merger.runs()),
    {
        let ghost runs = merger.runs();
        let ghost f = front(MergeOrder::ByRecord, runs);
        let ghost left = all.skip(records as int);
        proof {
            lemma_front(MergeOrder::ByRecord, runs);
            if f >= 0 {
                lemma_remaining_advance(runs, f);
                let tail = drained(advance(runs, f)).recs;
                let first = runs[f].recs[0];
                assert((seq![first] + tail).drop_first() =~= tail);
                assert((seq![first] + tail)[0] == first);
                assert(left.drop_first() =~= all.skip(records + 1));
                assert(left[0] == all[records as int]);
                assert(all.take(records + 1) =~= all.take(records as int).push(first));
            }
        }
        match merger.pop() {
            Some((rec, unbroken)) => {
                push_line(out, &rec.pw);
                proof {
                    let taken = all.take(records as int);
                    assert(rec_pws(taken.push(rec@)) =~= rec_pws(taken).push(rec@.pw));
                    assert(rec_pws(taken).push(rec@.pw).drop_last() =~= rec_pws(taken));
                    assert(out@ =~= old(out)@ + recs_lines(all.take(records + 1)));
                }
                records = records + 1;
                if !unbroken {
                    assert(all.take(records as int) =~= all);
                    return Err(RunError::UnexpectedEof);
                }
            },
            None => {
                return Ok(Progress { records, done: true });
            },
        }
    }
    Ok(Progress { records, done: false })
}

/// The sizes of the passwords added up, each with `overhead` bytes on top.
pub open spec fn sum_sizes(s: Seq<Rec>, overhead: nat) -> nat
    decreases s.len(),
{
    if s.len() == 0 {
        0
    } else {
        sum_sizes(s.drop_last(), overhead) + s.last().pw.len() + overhead
    }
}

/// Adding records adds to the size.
pub proof fn lemma_sum_sizes_mono(s: Seq<Rec>, n: int, a: nat, b: nat)
    requires
        0 <= n <= s.len(),
        a <= b,
    ensures
        sum_sizes(s.take(n), a) <= sum_sizes(s, b),
    decreases s.len(),
{
    if n < s.len() {
        lemma_sum_sizes_mono(s.drop_last(), n, a, b);
        assert(s.drop_last().take(n) =~= s.take(n));
    } else {
        assert(s.take(n) =~= s);
        if n > 0 {
            lemma_sum_sizes_mono(s.drop_last(), n - 1, a, b);
            assert(s.drop_last().take(n - 1) =~= s.drop_last());
        }
    }
}

/// The sizes of the passwords of `records`, each with `overhead` bytes on top; `None` if the sum
/// does not fit.
pub fn total_size(records: &[Record], overhead: usize) -> (r: Option<usize>)
    ensures
        match r {
            Some(n) => n == sum_sizes(recs(records@), overhead as nat),
            None => sum_sizes(recs(records@), overhead as nat) > usize::MAX,
        },
{
    let ghost all = recs(records@);
    let mut sum: usize = 0;
    let mut i: usize = 0;
    while i < records.len()
        invariant
            i <= records@.len(),
            all == recs(records@),
            sum == sum_sizes(all.take(i as int), overhead as nat),
        decreases records@.len() - i,
    {
        proof {
            assert(all.take(i + 1).drop_last() =~= all.take(i as int));
            lemma_sum_sizes_mono(all, i + 1, overhead as nat, overhead as nat);
        }
        let len: usize = records[i].pw.len();
        match sum.checked_add(len) {
            Some(s) => match s.checked_add(overhead) {
                Some(t) => {
                    sum = t;
                },
                None => {
                    return None;
                },
            },
            None => {
                return None;
            },
        }
        i = i + 1;
    }
    assert(all.take(i as int) =~= all);
    Some(sum)
}

/// `after` is `before` with the records from `lo` up to `hi` brought into sorted order.
pub open spec fn range_sorted(
    before: Seq<Record>,
    after: Seq<Record>,
    lo: usize,
    hi: usize,
) -> bool {
    let was = recs(before).subrange(lo as int, hi as int);
    let now = recs(after).subrange(lo as int, hi as int);
    &&& after.len() == before.len()
    &&& sorted_recs(now)
    &&& now.to_multiset() == was.to_multiset()
    &&& forall|i: int|
        0 <= i < before.len() && !(lo <= i < hi) ==> #[trigger] after[i] == before[i]
}

/// Sorts the records from `lo` up to `hi` on the thread pool.
///
/// Calls `rayon`'s `par_sort_unstable_by` on that range with [`Record::cmp`], which is a total
/// order: the range then holds the same records in sorted order, and the rest is as before.
#[verifier::external_body]
fn par_sort_range(records: &mut Vec<Record>, lo: usize, hi: usize)
    requires
        lo <= hi <= old(records)@.len(),
    ensures
        range_sorted(old(records)@, final(records)@, lo, hi),
{
    records[lo..hi].par_sort_unstable_by(|a, b| a.cmp(b));
}

/// Sorts all records.
pub fn sort_records(records: &mut Vec<Record>)
    ensures
        sorted_recs(recs(final(records)@)),
        recs(final(records)@).to_multiset() == recs(old(records)@).to_multiset(),
        final(records)@.len() == old(records)@.len(),
{
    let n: usize = records.len();
    par_sort_range(records, 0, n);
    assert(recs(records@).subrange(0, n as int) =~= recs(records@));
    assert(recs(old(records)@).subrange(0, n as int) =~= recs(old(records)@));
}

/// Most chunks that records are ever sorted in.
pub const MAX_RUNS: usize = 512;

/// How the final sort goes.
#[derive(Clone, Copy, Debug, PartialEq, Eq, Structural)]
pub enum SortPlan {
    /// All records are sorted in memory.
    InMemory,
    /// Chunks of so many records are sorted and spilled.
    Spill { chunk_len: usize },
}

/// The larger of two numbers.
pub open spec fn max_int(a: int, b: int) -> int {
    if a < b {
        b
    } else {
        a
    }
}

/// How many records go into a chunk: as many average-sized ones as the budget holds, at least one,
/// and enough that no more than [`MAX_RUNS`] chunks result.
pub open spec fn sort_chunk_len(s: Seq<Rec>, max_mem: int) -> int {
    let avg = if s.len() == 0 {
        1
    } else {
        max_int(sum_sizes(s, 12) as int / s.len() as int, 1)
    };
    max_int(max_int(1, max_mem / avg), max_int((s.len() + MAX_RUNS - 1) / MAX_RUNS as int, 1))
}

/// The sort plan for records: in memory if 40 bytes for each and their passwords fit the budget.
pub open spec fn is_sort_plan(s: Seq<Rec>, max_mem: int, estimated: int, plan: SortPlan) -> bool {
    &&& estimated == sum_sizes(s, 40)
    &&& match plan {
        SortPlan::InMemory => estimated <= max_mem,
        SortPlan::Spill { chunk_len } => estimated > max_mem && chunk_len == sort_chunk_len(
            s,
            max_mem,
        ),
    }
}

/// Decides how to sort, with the estimated memory for sorting in place; `None` if that estimate
/// does not fit.
pub fn plan_sort(records: &[Record], max_mem_bytes: usize) -> (r: Option<(usize, SortPlan)>)
    ensures
        match r {
            Some((estimated, plan)) => is_sort_plan(
                recs(records@),
                max_mem_bytes as int,
                estimated as int,
                plan,
            ),
            None => sum_sizes(recs(records@), 40) > usize::MAX,
        },
{
    let ghost all = recs(records@);
    let estimated: usize = match total_size(records, 40) {
        Some(n) => n,
        None => {
            return None;
        },
    };
    if estimated <= max_mem_bytes {
        return Some((estimated, SortPlan::InMemory));
    }
    let n: usize = records.len();
    proof {
        lemma_sum_sizes_mono(all, all.len() as int, 12, 40);
        assert(all.take(all.len() as int) =~= all);
    }
    let avg: usize = match total_size(records, 12) {
        Some(total) => {
            if n == 0 || total / n < 1 {
                1
            } else {
                total / n
            }
        },
        None => 1,
    };
    let by_mem: usize = if max_mem_bytes / avg < 1 {
        1
    } else {
        max_mem_bytes / avg
    };
    let mut by_runs: usize = n / MAX_RUNS;
    if n % MAX_RUNS != 0 {
        by_runs = by_runs + 1;
    }
    if by_runs < 1 {
        by_runs = 1;
    }
    let chunk_len: usize = if by_mem < by_runs {
        by_runs
    } else {
        by_mem
    };
    Some((estimated, SortPlan::Spill { chunk_len }))
}

/// Sorts the chunk of records that starts at `lo`, and returns where it ends.
fn sort_chunk(records: &mut Vec<Record>, lo: usize, chunk_len: usize) -> (hi: usize)
    requires
        lo <= old(records)@.len(),
    ensures
        hi == (if lo + chunk_len < old(records)@.len() {
            lo + chunk_len
        } else {
            old(records)@.len() as int
        }),
        range_sorted(old(records)@, final(records)@, lo, hi),
{
    let n: usize = records.len();
    let hi: usize = if chunk_len < n - lo {
        lo + chunk_len
    } else {
        n
    };
    par_sort_range(records, lo, hi);
    hi
}

/// A chunk starts before the end, and has `chunk_len` records or all that are left.
pub open spec fn cut_fits(cuts: Seq<usize>, i: int, n: int, chunk_len: int) -> bool {
    &&& cuts[i] < n
    &&& cuts[i + 1] == (if cuts[i] + chunk_len < n {
        cuts[i] + chunk_len
    } else {
        n
    })
}

/// Records are cut into chunks of `chunk_len`, the last of which may be shorter.
pub open spec fn are_cuts(cuts: Seq<usize>, n: int, chunk_len: int) -> bool {
    &&& cuts.len() >= 1
    &&& cuts[0] == 0
    &&& cuts[cuts.len() - 1] == n
    &&& forall|i: int| 0 <= i < cuts.len() - 1 ==> #[trigger] cut_fits(cuts, i, n, chunk_len)
}

/// The records of one chunk.
pub open spec fn cut(s: Seq<Rec>, cuts: Seq<usize>, i: int) -> Seq<Rec> {
    s.subrange(cuts[i] as int, cuts[i + 1] as int)
}

/// Sorts the records chunk by chunk, and returns where the chunks start and end.
pub fn sort_chunks(records: &mut Vec<Record>, chunk_len: usize) -> (cuts: Vec<usize>)
    requires
        chunk_len > 0,
    ensures
        final(records)@.len() == old(records)@.len(),
        are_cuts(cuts@, old(records)@.len() as int, chunk_len as int),
        forall|i: int|
            0 <= i < cuts@.len() - 1 ==> sorted_recs(
                #[trigger] cut(recs(final(records)@), cuts@, i),
            ),
        forall|i: int|
            0 <= i < cuts@.len() - 1 ==> (#[trigger] cut(
                recs(final(records)@),
                cuts@,
                i,
            )).to_multiset() == cut(recs(old(records)@), cuts@, i).to_multiset(),
{
    let ghost start = records@;
    let n: usize = records.len();
    let mut cuts: Vec<usize> = Vec::new();
    cuts.push(0);
    let mut lo: usize = 0;
    while lo < n
        invariant
            chunk_len > 0,
            lo <= n,
            n == start.len(),
            start == old(records)@,
            records@.len() == n,
            cuts@.len() >= 1,
            cuts@[0] == 0,
            cuts@[cuts@.len() - 1] == lo,
            forall|i: int| 0 <= i < cuts@.len() ==> #[trigger] cuts@[i] <= lo,
            forall|i: int|
                0 <= i < cuts@.len() - 1 ==> #[trigger] cut_fits(
                    cuts@,
                    i,
                    n as int,
                    chunk_len as int,
                ),
            forall|i: int|
                0 <= i < cuts@.len() - 1 ==> sorted_recs(#[trigger] cut(recs(records@), cuts@, i)),
            forall|i: int|
                0 <= i < cuts@.len() - 1 ==> (#[trigger] cut(
                    recs(records@),
                    cuts@,
                    i,
                )).to_multiset() == cut(recs(start), cuts@, i).to_multiset(),
            forall|j: int| lo <= j < n ==> #[trigger] records@[j] == start[j],
        decreases n - lo,
    {
        let ghost before = records@;
        let ghost done = cuts@;
        let hi: usize = sort_chunk(records, lo, chunk_len);
        cuts.push(hi);
        proof {
            let last = done.len() - 1;
            assert forall|i: int| 0 <= i < last implies #[trigger] cut(recs(records@), cuts@, i)
                == cut(recs(before), done, i) && cut(recs(start), cuts@, i) == cut(
                recs(start),
                done,
                i,
            ) by {
                assert(done[i + 1] <= lo);
                assert(cut_fits(done, i, n as int, chunk_len as int));
                assert(cut(recs(records@), cuts@, i) =~= cut(recs(before), done, i));
            }
            assert(cut(recs(start), cuts@, last) =~= recs(before).subrange(lo as int, hi as int));
            assert(cut(recs(records@), cuts@, last) =~= recs(records@).subrange(
                lo as int,
                hi as int,
            ));
            assert forall|i: int| 0 <= i < cuts@.len() - 1 implies #[trigger] cut_fits(
                cuts@,
                i,
                n as int,
                chunk_len as int,
            ) by {
                if i < last {
                    assert(cut_fits(done, i, n as int, chunk_len as int));
                }
            }
        }
        lo = hi;
    }
    cuts
}

/// Where a chunk starts.
proof fn lemma_cut_starts(cuts: Seq<usize>, n: int, chunk_len: int, i: int)
    requires
        are_cuts(cuts, n, chunk_len),
        0 <= i < cuts.len() - 1,
    ensures
        cuts[i] == i * chunk_len,
        cuts[i] < n,
    decreases i,
{
    assert(cut_fits(cuts, i, n, chunk_len));
    if i > 0 {
        lemma_cut_starts(cuts, n, chunk_len, i - 1);
        assert(cut_fits(cuts, i - 1, n, chunk_len));
        assert(i * chunk_len == (i - 1) * chunk_len + chunk_len) by (nonlinear_arith);
    } else {
        assert(i * chunk_len == 0) by (nonlinear_arith)
            requires
                i == 0,
        ;
    }
}

/// However little memory there is, sorting spills at most [`MAX_RUNS`] chunks.
pub proof fn lemma_at_most_max_runs(s: Seq<Rec>, max_mem: int, cuts: Seq<usize>)
    requires
        0 <= max_mem,
        are_cuts(cuts, s.len() as int, sort_chunk_len(s, max_mem)),
    ensures
        cuts.len() - 1 <= MAX_RUNS,
{
    let least = (s.len() + MAX_RUNS - 1) / MAX_RUNS as int;
    assert(512 * least >= s.len());
    let len = sort_chunk_len(s, max_mem);
    assert(len >= least);
    let k = cuts.len() - 1;
    if k > 512 {
        lemma_cut_starts(cuts, s.len() as int, len, k - 1);
        assert((k - 1) * len >= 512 * len) by (nonlinear_arith)
            requires
                k > 512,
                len >= 0,
        ;
    }
}

/// Sizes add up, record by record.
pub proof fn lemma_sizes_add_up(s: Seq<Rec>, r: Rec, overhead: nat)
    ensures
        sum_sizes(Seq::empty(), overhead) == 0,
        sum_sizes(s.push(r), overhead) == sum_sizes(s, overhead) + r.pw.len() + overhead,
{
    assert(s.push(r).drop_last() =~= s);
}

/// Records of one size.
pub proof fn lemma_equal_sizes(s: Seq<Rec>, overhead: nat, size: int)
    requires
        forall|i: int| 0 <= i < s.len() ==> (#[trigger] s[i]).pw.len() + overhead == size,
    ensures
        sum_sizes(s, overhead) == s.len() * size,
    decreases s.len(),
{
    if s.len() > 0 {
        let shorter = s.drop_last();
        assert forall|i: int| 0 <= i < shorter.len() implies (#[trigger] shorter[i]).pw.len()
            + overhead == size by {
            assert(shorter[i] == s[i]);
        }
        lemma_equal_sizes(shorter, overhead, size);
        assert(s[s.len() - 1].pw.len() + overhead == size);
        assert(s.len() * size == (s.len() - 1) * size + size) by (nonlinear_arith);
    } else {
        assert(s.len() * size == 0) by (nonlinear_arith)
            requires
                s.len() == 0,
        ;
    }
}

/// A spilled chunk has as many records of average size as the budget holds and no more, unless that
/// is none, or more than 512 chunks would result; then it has as few as keep to that.
pub proof fn lemma_sort_chunk_fills_budget(s: Seq<Rec>, max_mem: int, avg: int)
    requires
        s.len() > 0,
        max_mem >= 0,
        avg >= 1,
        avg * s.len() <= sum_sizes(s, 12) < (avg + 1) * s.len(),
    ensures
        ({
            let len = sort_chunk_len(s, max_mem);
            &&& len >= 1
            &&& 512 * len >= s.len()
            &&& (len + 1) * avg > max_mem
            &&& len == 1 || len * avg <= max_mem || 512 * (len - 1) < s.len()
        }),
{
    let n = s.len() as int;
    let total = sum_sizes(s, 12) as int;
    assert(total / n == avg) by {
        assert(total == avg * n + (total - avg * n));
        assert(0 <= total - avg * n < n) by (nonlinear_arith)
            requires
                avg * n <= total < (avg + 1) * n,
        ;
        vstd::arithmetic::div_mod::lemma_fundamental_div_mod_converse(
            total,
            n,
            avg,
            total - avg * n,
        );
    }
    let q = max_mem / avg;
    vstd::arithmetic::div_mod::lemma_fundamental_div_mod(max_mem, avg);
    assert(avg * q <= max_mem < avg * q + avg);
    let len = sort_chunk_len(s, max_mem);
    assert((len + 1) * avg >= avg * q + avg) by (nonlinear_arith)
        requires
            len >= q,
            avg >= 1,
    ;
    if len == q {
        assert(len * avg == avg * q) by (nonlinear_arith)
            requires
                len == q,
        ;
    }
}

/// A larger budget never gives smaller chunks.
pub proof fn lemma_larger_sort_budget(s: Seq<Rec>, small: int, large: int)
    requires
        0 <= small <= large,
    ensures
        sort_chunk_len(s, small) <= sort_chunk_len(s, large),
{
    let avg = if s.len() == 0 {
        1
    } else {
        max_int(sum_sizes(s, 12) as int / s.len() as int, 1)
    };
    vstd::arithmetic::div_mod::lemma_div_is_ordered(small, large, avg);
}

/// Where chunks start and end: each starts where the one before ends, has `chunk_len` records, and
/// only the last may have fewer.
pub proof fn lemma_cuts_are_even(cuts: Seq<usize>, n: int, chunk_len: int, i: int)
    requires
        are_cuts(cuts, n, chunk_len),
        chunk_len > 0,
        0 <= i < cuts.len() - 1,
    ensures
        cuts[0] == 0,
        cuts[cuts.len() - 1] == n,
        cuts[i] == i * chunk_len,
        cuts[i] < cuts[i + 1] <= n,
        i < cuts.len() - 2 ==> cuts[i + 1] - cuts[i] == chunk_len,
        cuts[i + 1] - cuts[i] <= chunk_len,
{
    lemma_cut_starts(cuts, n, chunk_len, i);
    assert(cut_fits(cuts, i, n, chunk_len));
    if i < cuts.len() - 2 {
        lemma_cut_starts(cuts, n, chunk_len, i + 1);
        assert(cut_fits(cuts, i + 1, n, chunk_len));
        assert((i + 1) * chunk_len == i * chunk_len + chunk_len) by (nonlinear_arith);
    }
}

/// Lines are written record by record: the password, and byte 10.
pub proof fn lemma_record_lines(s: Seq<Rec>, r: Rec)
    ensures
        recs_lines(Seq::empty()) == Seq::<u8>::empty(),
        recs_lines(s.push(r)) == recs_lines(s) + r.pw + seq![10u8],
{
    assert(rec_pws(s.push(r)).drop_last() =~= rec_pws(s));
    assert(rec_pws(Seq::empty()) =~= Seq::<Seq<u8>>::empty());
}

/// The sizes of records are the bytes of their passwords and the overhead of each.
proof fn lemma_sizes_split(s: Seq<Rec>, overhead: nat)
    ensures
        sum_sizes(s, overhead) == sum_sizes(s, 0) + s.len() * overhead,
    decreases s.len(),
{
    if s.len() > 0 {
        lemma_sizes_split(s.drop_last(), overhead);
        assert(s.len() * overhead == (s.len() - 1) * overhead + overhead) by (nonlinear_arith)
            requires
                s.len() > 0,
        ;
    } else {
        assert(s.len() * overhead == 0) by (nonlinear_arith)
            requires
                s.len() == 0,
        ;
    }
}

/// Records are sorted in memory exactly if the bytes of their passwords and 40 more for each are
/// within the budget; with more memory they are not spilled either. Spilled chunks are never empty.
pub proof fn lemma_sort_plan(
    s: Seq<Rec>,
    max_mem: int,
    estimated: int,
    plan: SortPlan,
    more_mem: int,
    other: SortPlan,
)
    requires
        is_sort_plan(s, max_mem, estimated, plan),
        is_sort_plan(s, more_mem, estimated, other),
        0 <= max_mem <= more_mem,
    ensures
        plan is InMemory <==> sum_sizes(s, 0) + 40 * s.len() <= max_mem,
        plan is InMemory ==> other is InMemory,
        plan matches SortPlan::Spill { chunk_len } ==> chunk_len >= 1 && (
        other matches SortPlan::Spill { chunk_len: larger } ==> larger >= chunk_len),
{
    lemma_sizes_split(s, 40);
    lemma_larger_sort_budget(s, max_mem, more_mem);
}

} // verus!
