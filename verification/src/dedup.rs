//! Merging counting runs: equal passwords become one, with their counts added up.

use vstd::prelude::*;

use crate::codec::{
    append_record, decode_recs, encode_recs, lemma_decode_encode, lemma_encode_push, run_damaged,
    RunError,
};
use crate::heap::MergeOrder;
use crate::merge::{advance, breaks_off, front, lemma_front, Run, RunMerger};
use crate::output::{lines_bytes, push_line};
use crate::record::Rec;
use crate::tally::{count_key, entry_rec, entry_recs, lemma_keys_of_counts, sort_key, wrap64};

verus! {

/// How many records the runs hold together.
pub open spec fn remaining(runs: Seq<Run>) -> nat
    decreases runs.len(),
{
    if runs.len() == 0 {
        0
    } else {
        remaining(runs.drop_last()) + runs.last().recs.len()
    }
}

/// Taking a record off leaves one fewer.
pub proof fn lemma_remaining_advance(runs: Seq<Run>, f: int)
    requires
        0 <= f < runs.len(),
        runs[f].recs.len() > 0,
    ensures
        remaining(advance(runs, f)) == remaining(runs) - 1,
    decreases runs.len(),
{
    if f == runs.len() - 1 {
        assert(advance(runs, f).drop_last() =~= runs.drop_last());
    } else {
        lemma_remaining_advance(runs.drop_last(), f);
        assert(advance(runs, f).drop_last() =~= advance(runs.drop_last(), f));
    }
}

/// What adding up the records of one password gives.
pub struct Gathered {
    pub total: u64,
    pub rest: Seq<Run>,
    pub intact: bool,
}

/// Takes records off as long as the first is for `pw`, adding their counts to `total`.
pub open spec fn gather(runs: Seq<Run>, pw: Seq<u8>, total: u64) -> Gathered
    decreases remaining(runs),
{
    let f = front(MergeOrder::ByPassword, runs);
    if f < 0 || f >= runs.len() || runs[f].recs.len() == 0 || runs[f].recs[0].pw != pw {
        Gathered { total, rest: runs, intact: true }
    } else {
        let sum = wrap64(total + (runs[f].recs[0].key as u64));
        if breaks_off(runs[f]) {
            Gathered { total: sum, rest: advance(runs, f), intact: false }
        } else {
            proof {
                lemma_remaining_advance(runs, f);
            }
            gather(advance(runs, f), pw, sum)
        }
    }
}

/// One step of merging counting runs.
pub enum Step {
    /// No records are left.
    Done,
    /// The least password, its count over all runs, and what is left behind it.
    Emit { pw: Seq<u8>, count: u64, rest: Seq<Run> },
    /// A run is cut short.
    Broken { rest: Seq<Run> },
}

/// Takes all leading records of the least password off.
pub open spec fn step(runs: Seq<Run>) -> Step {
    let f = front(MergeOrder::ByPassword, runs);
    if f < 0 || f >= runs.len() || runs[f].recs.len() == 0 {
        Step::Done
    } else if breaks_off(runs[f]) {
        Step::Broken { rest: advance(runs, f) }
    } else {
        let first = runs[f].recs[0];
        let g = gather(advance(runs, f), first.pw, first.key as u64);
        if g.intact {
            Step::Emit { pw: first.pw, count: g.total, rest: g.rest }
        } else {
            Step::Broken { rest: g.rest }
        }
    }
}

/// Gathering takes records off and adds none.
pub proof fn lemma_remaining_gather(runs: Seq<Run>, pw: Seq<u8>, total: u64)
    ensures
        remaining(gather(runs, pw, total).rest) <= remaining(runs),
    decreases remaining(runs),
{
    let f = front(MergeOrder::ByPassword, runs);
    if f < 0 || f >= runs.len() || runs[f].recs.len() == 0 || runs[f].recs[0].pw != pw {
    } else {
        lemma_remaining_advance(runs, f);
        if !breaks_off(runs[f]) {
            lemma_remaining_gather(
                advance(runs, f),
                pw,
                wrap64(total + (runs[f].recs[0].key as u64)),
            );
        }
    }
}

/// What merging to the end gives: each password with its count, in order, and whether all runs
/// could be read to their ends.
#[verifier::ext_equal]
pub struct Merged {
    pub items: Seq<(Seq<u8>, u64)>,
    pub intact: bool,
}

/// What merging counting runs to the end gives.
pub open spec fn merged(runs: Seq<Run>) -> Merged
    decreases remaining(runs),
{
    let f = front(MergeOrder::ByPassword, runs);
    match step(runs) {
        Step::Done => Merged { items: Seq::empty(), intact: true },
        Step::Broken { .. } => Merged { items: Seq::empty(), intact: false },
        Step::Emit { pw, count, rest } => {
            proof {
                lemma_remaining_advance(runs, f);
                lemma_remaining_gather(advance(runs, f), pw, runs[f].recs[0].key as u64);
            }
            let tail = merged(rest);
            Merged { items: seq![(pw, count)] + tail.items, intact: tail.intact }
        },
    }
}

/// How merging goes on after a step.
pub proof fn lemma_merged_step(runs: Seq<Run>)
    ensures
        step(runs) matches Step::Emit { pw, count, rest } ==> remaining(rest) < remaining(runs)
            && merged(runs) == (Merged {
            items: seq![(pw, count)] + merged(rest).items,
            intact: merged(rest).intact,
        }),
{
    if let Step::Emit { pw, count, rest } = step(runs) {
        let f = front(MergeOrder::ByPassword, runs);
        lemma_remaining_advance(runs, f);
        lemma_remaining_gather(advance(runs, f), pw, runs[f].recs[0].key as u64);
    }
}

/// How far a merge got.
#[derive(Clone, Copy, Debug, PartialEq, Eq, Structural)]
pub struct Progress {
    /// Records written by this call.
    pub records: usize,
    /// Nothing is left to write.
    pub done: bool,
}

impl<'a> RunMerger<'a> {
    /// Takes the least password off all runs and adds its counts up.
    pub fn next_merged(&mut self) -> (r: Result<Option<(Vec<u8>, u64)>, RunError>)
        requires
            old(self).wf(),
            old(self).merge_order() == MergeOrder::ByPassword,
        ensures
            final(self).wf(),
            final(self).merge_order() == old(self).merge_order(),
            match step(old(self).runs()) {
                Step::Done => r == Ok::<Option<(Vec<u8>, u64)>, RunError>(None)
                    && final(self).runs() == old(self).runs(),
                Step::Emit { pw, count, rest } => {
                    &&& r matches Ok(Some(e)) && e.0@ == pw && e.1 == count
                    &&& final(self).runs() == rest
                },
                Step::Broken { rest } => {
                    &&& r == Err::<Option<(Vec<u8>, u64)>, RunError>(RunError::UnexpectedEof)
                    &&& final(self).runs() == rest
                },
            },
    {
        proof {
            lemma_front(MergeOrder::ByPassword, self.runs());
        }
        let (first, intact) = match self.pop() {
            Some(p) => p,
            None => {
                return Ok(None);
            },
        };
        if !intact {
            return Err(RunError::UnexpectedEof);
        }
        let ghost goal = gather(self.runs(), first.pw@, first.key as u64);
        let mut total: u64 = first.key as u64;
        while self.front_is(&first.pw)
            invariant
                self.wf(),
                self.merge_order() == MergeOrder::ByPassword,
                old(self).merge_order() == MergeOrder::ByPassword,
                gather(self.runs(), first.pw@, total) == goal,
                match step(old(self).runs()) {
                    Step::Done => false,
                    Step::Emit { pw, count, rest } => goal.intact && pw == first.pw@ && count
                        == goal.total && rest == goal.rest,
                    Step::Broken { rest } => !goal.intact && rest == goal.rest,
                },
            decreases remaining(self.runs()),
        {
            proof {
                let f = front(MergeOrder::ByPassword, self.runs());
                lemma_front(MergeOrder::ByPassword, self.runs());
                lemma_remaining_advance(self.runs(), f);
            }
            match self.pop() {
                Some((rec, intact)) => {
                    total = total.wrapping_add(rec.key as u64);
                    if !intact {
                        return Err(RunError::UnexpectedEof);
                    }
                },
                None => {},
            }
        }
        Ok(Some((first.pw, total)))
    }
}

/// The run that holds the merged items.
pub open spec fn items_run(items: Seq<(Seq<u8>, u64)>, negate: bool) -> Seq<u8> {
    encode_recs(entry_recs(items, negate))
}

/// The passwords of the merged items.
pub open spec fn item_pws(items: Seq<(Seq<u8>, u64)>) -> Seq<Seq<u8>> {
    items.map_values(|e: (Seq<u8>, u64)| e.0)
}

/// The merged items as lines of the dictionary.
pub open spec fn items_lines(items: Seq<(Seq<u8>, u64)>) -> Seq<u8> {
    lines_bytes(item_pws(items))
}

proof fn lemma_take_one_more<A>(s: Seq<A>, n: int)
    requires
        0 <= n < s.len(),
    ensures
        s.take(n + 1) == s.take(n).push(s[n]),
        s.skip(n).drop_first() == s.skip(n + 1),
        s.skip(n)[0] == s[n],
{
    assert(s.take(n + 1) =~= s.take(n).push(s[n]));
    assert(s.skip(n).drop_first() =~= s.skip(n + 1));
}

/// What follows a step of a merge that has handed out `n` items.
proof fn lemma_step_from(all: Seq<(Seq<u8>, u64)>, intact: bool, n: int, runs: Seq<Run>)
    requires
        0 <= n <= all.len(),
        merged(runs) == (Merged { items: all.skip(n), intact }),
    ensures
        step(runs) is Done ==> n == all.len() && intact,
        step(runs) is Broken ==> n == all.len() && !intact,
        step(runs) matches Step::Emit { pw, count, rest } ==> {
            &&& n < all.len()
            &&& all[n] == (pw, count)
            &&& merged(rest) == (Merged { items: all.skip(n + 1), intact })
            &&& remaining(rest) < remaining(runs)
            &&& all.take(n + 1) == all.take(n).push((pw, count))
        },
{
    lemma_merged_step(runs);
    if let Step::Emit { pw, count, rest } = step(runs) {
        let tail = merged(rest).items;
        assert((seq![(pw, count)] + tail)[0] == (pw, count));
        assert(all.skip(n)[0] == (pw, count));
        lemma_take_one_more(all, n);
        assert((seq![(pw, count)] + tail).drop_first() =~= tail);
    } else {
        assert(all.skip(n).len() == 0);
    }
}

/// Merges counting runs into one: appends the records of the merged run to `out` until it has
/// `limit` bytes or the runs are exhausted. The key of a record is its count, negated if asked for.
pub fn merge_dedup_group(
    merger: &mut RunMerger<'_>,
    negate_key: bool,
    out: &mut Vec<u8>,
    limit: usize,
) -> (r: Result<Progress, RunError>)
    requires
        old(merger).wf(),
        old(merger).merge_order() == MergeOrder::ByPassword,
    ensures
        final(merger).wf(),
        final(merger).merge_order() == old(merger).merge_order(),
        ({
            let all = merged(old(merger).runs()).items;
            let intact = merged(old(merger).runs()).intact;
            match r {
                Ok(p) => {
                    &&& p.records <= all.len()
                    &&& final(out)@ == old(out)@ + items_run(all.take(p.records as int), negate_key)
                    &&& merged(final(merger).runs()) == (Merged {
                        items: all.skip(p.records as int),
                        intact,
                    })
                    &&& p.done == (final(out)@.len() < limit)
                    &&& p.done ==> p.records == all.len() && intact
                    &&& forall|j: int|
                        0 <= j < p.records ==> old(out)@.len() + (#[trigger] items_run(
                            all.take(j),
                            negate_key,
                        )).len() < limit
                },
                Err(RunError::UnexpectedEof) => {
                    &&& !intact
                    &&& final(out)@ == old(out)@ + items_run(all, negate_key)
                    &&& forall|j: int|
                        0 <= j <= all.len() ==> old(out)@.len() + (#[trigger] items_run(
                            all.take(j),
                            negate_key,
                        )).len() < limit
                },
            }
        }),
{
    let ghost all = merged(merger.runs()).items;
    let ghost intact = merged(merger.runs()).intact;
    let mut records: usize = 0;
    proof {
        assert(all.skip(0) =~= all);
        assert(entry_recs(all.take(0), negate_key) =~= Seq::<Rec>::empty());
        assert(out@ =~= old(out)@ + items_run(all.take(0), negate_key));
    }
    while out.len() < limit
        invariant
            merger.wf(),
            merger.merge_order() == MergeOrder::ByPassword,
            old(merger).merge_order() == MergeOrder::ByPassword,
            all == merged(old(merger).runs()).items,
            intact == merged(old(merger).runs()).intact,
            records <= all.len(),
            records <= out@.len(),
            merged(merger.runs()) == (Merged { items: all.skip(records as int), intact }),
            out@ == old(out)@ + items_run(all.take(records as int), negate_key),
            forall|j: int|
                0 <= j < records ==> old(out)@.len() + (#[trigger] items_run(
                    all.take(j),
                    negate_key,
                )).len() < limit,
        decreases remaining(merger.runs()),
    {
        proof {
            lemma_step_from(all, intact, records as int, merger.runs());
        }
        match merger.next_merged() {
            Ok(Some((pw, count))) => {
                let ghost before = out@;
                append_record(out, sort_key(count, negate_key), &pw);
                proof {
                    let e = (pw@, count);
                    let taken = all.take(records as int);
                    assert(entry_recs(taken.push(e), negate_key) =~= entry_recs(
                        taken,
                        negate_key,
                    ).push(entry_rec(e, negate_key)));
                    lemma_encode_push(entry_recs(taken, negate_key), entry_rec(e, negate_key));
                    assert(out@ =~= old(out)@ + items_run(all.take(records + 1), negate_key));
                }
                records = records + 1;
            },
            Ok(None) => {
                return Ok(Progress { records, done: true });
            },
            Err(e) => {
                assert(all.take(records as int) =~= all);
                return Err(e);
            },
        }
    }
    Ok(Progress { records, done: false })
}

/// Merges counting runs into the dictionary: appends each distinct password as a line to `out`
/// until it has `limit` bytes or the runs are exhausted.
pub fn stream_merge_and_write(merger: &mut RunMerger<'_>, out: &mut Vec<u8>, limit: usize) -> (r:
    Result<Progress, RunError>)
    requires
        old(merger).wf(),
        old(merger).merge_order() == MergeOrder::ByPassword,
    ensures
        final(merger).wf(),
        final(merger).merge_order() == old(merger).merge_order(),
        ({
            let all = merged(old(merger).runs()).items;
            let intact = merged(old(merger).runs()).intact;
            match r {
                Ok(p) => {
                    &&& p.records <= all.len()
                    &&& final(out)@ == old(out)@ + items_lines(all.take(p.records as int))
                    &&& merged(final(merger).runs()) == (Merged {
                        items: all.skip(p.records as int),
                        intact,
                    })
                    &&& p.done == (final(out)@.len() < limit)
                    &&& p.done ==> p.records == all.len() && intact
                    &&& forall|j: int|
                        0 <= j < p.records ==> old(out)@.len() + (#[trigger] items_lines(
                            all.take(j),
                        )).len() < limit
                },
                Err(RunError::UnexpectedEof) => {
                    &&& !intact
                    &&& final(out)@ == old(out)@ + items_lines(all)
                    &&& forall|j: int|
                        0 <= j <= all.len() ==> old(out)@.len() + (#[trigger] items_lines(
                            all.take(j),
                        )).len() < limit
                },
            }
        }),
{
    let ghost all = merged(merger.runs()).items;
    let ghost intact = merged(merger.runs()).intact;
    let mut records: usize = 0;
    proof {
        assert(all.skip(0) =~= all);
        assert(item_pws(all.take(0)) =~= Seq::<Seq<u8>>::empty());
        assert(out@ =~= old(out)@ + items_lines(all.take(0)));
    }
    while out.len() < limit
        invariant
            merger.wf(),
            merger.merge_order() == MergeOrder::ByPassword,
            old(merger).merge_order() == MergeOrder::ByPassword,
            all == merged(old(merger).runs()).items,
            intact == merged(old(merger).runs()).intact,
            records <= all.len(),
            records <= out@.len(),
            merged(merger.runs()) == (Merged { items: all.skip(records as int), intact }),
            out@ == old(out)@ + items_lines(all.take(records as int)),
            forall|j: int|
                0 <= j < records ==> old(out)@.len() + (#[trigger] items_lines(all.take(j))).len()
                    < limit,
        decreases remaining(merger.runs()),
    {
        proof {
            lemma_step_from(all, intact, records as int, merger.runs());
        }
        match merger.next_merged() {
            Ok(Some((pw, count))) => {
                push_line(out, &pw);
                proof {
                    let e = (pw@, count);
                    let taken = all.take(records as int);
                    assert(item_pws(taken.push(e)) =~= item_pws(taken).push(pw@));
                    assert(item_pws(taken).push(pw@).drop_last() =~= item_pws(taken));
                    assert(out@ =~= old(out)@ + items_lines(all.take(records + 1)));
                }
                records = records + 1;
            },
            Ok(None) => {
                return Ok(Progress { records, done: true });
            },
            Err(e) => {
                assert(all.take(records as int) =~= all);
                return Err(e);
            },
        }
    }
    Ok(Progress { records, done: false })
}

/// Merged items are written line by line: the password, and byte 10.
pub proof fn lemma_item_lines(items: Seq<(Seq<u8>, u64)>, pw: Seq<u8>, count: u64)
    ensures
        items_lines(Seq::empty()) == Seq::<u8>::empty(),
        items_lines(items.push((pw, count))) == items_lines(items) + pw + seq![10u8],
{
    assert(item_pws(items.push((pw, count))).drop_last() =~= item_pws(items));
    assert(item_pws(Seq::empty()) =~= Seq::<Seq<u8>>::empty());
}

/// A run of merged items is read back as it was written: the passwords in order, each under its
/// count, or under a key that cancels its count out if keys are negated.
pub proof fn lemma_items_read_back(items: Seq<(Seq<u8>, u64)>, negate: bool)
    requires
        forall|i: int| 0 <= i < items.len() ==> (#[trigger] items[i]).0.len() < 0x1_0000_0000,
    ensures
        !run_damaged(items_run(items, negate)),
        decode_recs(items_run(items, negate)).len() == items.len(),
        forall|i: int|
            0 <= i < items.len() ==> (#[trigger] decode_recs(items_run(items, negate))[i]).pw
                == items[i].0,
        forall|i: int|
            0 <= i < items.len() && !negate ==> (#[trigger] decode_recs(
                items_run(items, negate),
            )[i]).key as u64 == items[i].1,
        forall|i: int|
            0 <= i < items.len() && negate ==> ((#[trigger] decode_recs(
                items_run(items, negate),
            )[i]).key + items[i].1) % 0x1_0000_0000_0000_0000 == 0,
{
    let s = entry_recs(items, negate);
    assert forall|i: int| 0 <= i < s.len() implies (#[trigger] s[i]).pw.len() < 0x1_0000_0000 by {
        assert(items[i].0.len() < 0x1_0000_0000);
    }
    lemma_decode_encode(s);
    assert forall|i: int| 0 <= i < items.len() implies count_key(
        (#[trigger] items[i]).1,
        false,
    ) as u64 == items[i].1 && (count_key(items[i].1, true) + items[i].1)
        % 0x1_0000_0000_0000_0000 == 0 by {
        lemma_keys_of_counts(items[i].1);
    }
    assert forall|i: int| 0 <= i < s.len() implies (#[trigger] s[i]).key == count_key(
        items[i].1,
        negate,
    ) && s[i].pw == items[i].0 by {}
}

} // verus!
