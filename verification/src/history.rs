//! The whole life of an index: counts are folded in, spilled from time to time, and in the end
//! finalized. Nothing is lost on the way, and nothing is counted twice.

use vstd::prelude::*;

use crate::bytes::bytes_lt;
use crate::counted_merge::strictly_rising;
use crate::dictionary::spilled_counts;
use crate::index::{
    absorbed, is_finalized, lists_records, CountingIndex, FinalizedResult, SpillJob,
};
use crate::record::recs;
use crate::spill::sorted_entries;
use crate::tally::{
    add_counts, count_in, count_key, entry_views, lemma_add_counts_laws, lemma_listing_reordered,
    lemma_tally_of_listing, lists, tally, wrap64, Counts,
};

verus! {

broadcast use crate::bytes::group_bytes_le;

/// What happens to an index.
pub enum Event {
    /// Counts are added.
    Fold { more: Counts },
    /// All counts are handed out, and written as this run once they are sorted.
    Spill { run: Seq<(Seq<u8>, u64)> },
}

/// The event takes the counts in the index from one state to the next.
pub open spec fn takes(before: Counts, event: Event, after: Counts) -> bool {
    match event {
        Event::Fold { more } => after == add_counts(before, more),
        Event::Spill { run } => {
            &&& lists(run, before)
            &&& sorted_entries(run)
            &&& after == Counts::empty()
        },
    }
}

/// The counts that were in the index from one event to the next, from none on.
pub open spec fn is_history(states: Seq<Counts>, events: Seq<Event>) -> bool {
    &&& states.len() == events.len() + 1
    &&& states[0] == Counts::empty()
    &&& forall|i: int|
        0 <= i < events.len() ==> takes(states[i], #[trigger] events[i], states[i + 1])
}

/// All counts that were ever folded in, added up.
pub open spec fn folded(events: Seq<Event>) -> Counts
    decreases events.len(),
{
    if events.len() == 0 {
        Map::empty()
    } else {
        match events.last() {
            Event::Fold { more } => add_counts(folded(events.drop_last()), more),
            Event::Spill { .. } => folded(events.drop_last()),
        }
    }
}

/// The runs that were spilled, in order.
pub open spec fn runs_spilled(events: Seq<Event>) -> Seq<Seq<(Seq<u8>, u64)>>
    decreases events.len(),
{
    if events.len() == 0 {
        Seq::empty()
    } else {
        match events.last() {
            Event::Fold { .. } => runs_spilled(events.drop_last()),
            Event::Spill { run } => runs_spilled(events.drop_last()).push(run),
        }
    }
}

/// A history without its last event.
proof fn lemma_shorter_history(states: Seq<Counts>, events: Seq<Event>)
    requires
        is_history(states, events),
        events.len() > 0,
    ensures
        is_history(states.drop_last(), events.drop_last()),
        states.drop_last().last() == states[events.len() - 1],
        takes(states[events.len() - 1], events.last(), states.last()),
{
    let fewer = events.drop_last();
    let before = states.drop_last();
    assert forall|i: int| 0 <= i < fewer.len() implies takes(
        before[i],
        #[trigger] fewer[i],
        before[i + 1],
    ) by {
        assert(takes(states[i], events[i], states[i + 1]));
    }
    assert(takes(states[events.len() - 1], events[events.len() - 1], states[events.len() as int]));
}

/// At any time the counts in the spilled runs and those in the index add up to all that was folded
/// in.
pub proof fn lemma_history_keeps_counts(states: Seq<Counts>, events: Seq<Event>)
    requires
        is_history(states, events),
    ensures
        add_counts(spilled_counts(runs_spilled(events)), states.last()) == folded(events),
    decreases events.len(),
{
    if events.len() == 0 {
        lemma_add_counts_laws(Map::empty(), Map::empty(), Map::empty());
    } else {
        lemma_shorter_history(states, events);
        lemma_history_keeps_counts(states.drop_last(), events.drop_last());
        let before = states[events.len() - 1];
        let runs = runs_spilled(events.drop_last());
        match events.last() {
            Event::Fold { more } => {
                lemma_add_counts_laws(spilled_counts(runs), before, more);
            },
            Event::Spill { run } => {
                lemma_tally_of_listing(run, before);
                assert(runs.push(run).drop_last() =~= runs);
                lemma_add_counts_laws(spilled_counts(runs.push(run)), Map::empty(), Map::empty());
            },
        }
    }
}

/// Every spilled run is in strictly rising order of its passwords.
proof fn lemma_spilled_runs_rise(states: Seq<Counts>, events: Seq<Event>)
    requires
        is_history(states, events),
    ensures
        forall|i: int|
            0 <= i < runs_spilled(events).len() ==> strictly_rising(
                #[trigger] runs_spilled(events)[i],
            ),
    decreases events.len(),
{
    if events.len() > 0 {
        lemma_shorter_history(states, events);
        lemma_spilled_runs_rise(states.drop_last(), events.drop_last());
        let runs = runs_spilled(events.drop_last());
        if let Event::Spill { run } = events.last() {
            lemma_sorted_listing_rises(run, states[events.len() - 1]);
            assert forall|i: int| 0 <= i < runs.push(run).len() implies strictly_rising(
                #[trigger] runs.push(run)[i],
            ) by {
                if i < runs.len() {
                    assert(strictly_rising(runs[i]));
                }
            }
        }
    }
}

/// A sorted list of counts is in strictly rising order.
pub proof fn lemma_sorted_listing_rises(run: Seq<(Seq<u8>, u64)>, m: Counts)
    requires
        sorted_entries(run),
        lists(run, m),
    ensures
        strictly_rising(run),
{
    assert forall|i: int, j: int| 0 <= i < j < run.len() implies bytes_lt(
        (#[trigger] run[i]).0,
        (#[trigger] run[j]).0,
    ) by {
        assert(run[i].0 != run[j].0);
    }
}

/// The runs that counting ends with: those that were spilled, and what was left in memory.
pub open spec fn final_runs(events: Seq<Event>, last_run: Option<Vec<(Vec<u8>, u64)>>) -> Seq<
    Seq<(Seq<u8>, u64)>,
> {
    match last_run {
        Some(entries) => runs_spilled(events).push(entry_views(entries@)),
        None => runs_spilled(events),
    }
}

/// Whatever was folded in and spilled before, finalizing gives all counts that were ever folded in:
/// as records, or as runs whose counts add up to them. Each run is in strictly rising order.
pub proof fn lemma_finalize_keeps_counts(
    states: Seq<Counts>,
    events: Seq<Event>,
    index: CountingIndex,
    sort_mode: Seq<char>,
    spilled: Seq<tempfile::TempPath>,
    r: FinalizedResult,
)
    requires
        is_history(states, events),
        index.wf(),
        index.counts() == states.last(),
        spilled.len() == runs_spilled(events).len(),
        is_finalized(index, sort_mode, spilled, r),
    ensures
        match r {
            FinalizedResult::InMemory(unique, records) => {
                &&& runs_spilled(events).len() == 0
                &&& unique == folded(events).dom().len()
                &&& lists_records(recs(records@), folded(events), sort_mode == "frequency"@)
            },
            FinalizedResult::Spilled { runs, last_run, sort_mode: mode } => {
                &&& runs@ == spilled
                &&& runs@.len() > 0
                &&& mode@ == sort_mode
                &&& spilled_counts(final_runs(events, last_run)) == folded(events)
                &&& forall|i: int|
                    0 <= i < final_runs(events, last_run).len() ==> strictly_rising(
                        #[trigger] final_runs(events, last_run)[i],
                    )
            },
        },
{
    let left = states.last();
    let runs = runs_spilled(events);
    lemma_history_keeps_counts(states, events);
    lemma_spilled_runs_rise(states, events);
    lemma_add_counts_laws(left, Map::empty(), Map::empty());
    lemma_add_counts_laws(spilled_counts(runs), Map::empty(), Map::empty());
    match r {
        FinalizedResult::InMemory(..) => {
            assert(spilled_counts(runs) == Counts::empty());
        },
        FinalizedResult::Spilled { last_run, .. } => {
            match last_run {
                Some(entries) => {
                    let run = entry_views(entries@);
                    lemma_tally_of_listing(run, left);
                    lemma_sorted_listing_rises(run, left);
                    assert(runs.push(run).drop_last() =~= runs);
                },
                None => {
                    assert(left.dom() =~= Set::<Seq<u8>>::empty());
                    assert(left =~= Counts::empty());
                },
            }
        },
    }
}

/// How often `pw` was ever folded in.
pub open spec fn times_folded(events: Seq<Event>, pw: Seq<u8>) -> nat
    decreases events.len(),
{
    if events.len() == 0 {
        0
    } else {
        times_folded(events.drop_last(), pw) + match events.last() {
            Event::Fold { more } => count_in(more, pw) as nat,
            Event::Spill { .. } => 0,
        }
    }
}

/// The counts of `pw` in all runs added up, without wrapping.
pub open spec fn times_in_runs(runs: Seq<Seq<(Seq<u8>, u64)>>, pw: Seq<u8>) -> nat
    decreases runs.len(),
{
    if runs.len() == 0 {
        0
    } else {
        times_in_runs(runs.drop_last(), pw) + count_in(tally(runs.last()), pw) as nat
    }
}

/// Counts that are folded in are never zero.
pub open spec fn folds_positive(events: Seq<Event>, pw: Seq<u8>) -> bool {
    forall|i: int|
        0 <= i < events.len() ==> (#[trigger] events[i] matches Event::Fold { more }
            ==> more.contains_key(pw) ==> more[pw] > 0)
}

proof fn lemma_positive_shorter(events: Seq<Event>, pw: Seq<u8>)
    requires
        folds_positive(events, pw),
        events.len() > 0,
    ensures
        folds_positive(events.drop_last(), pw),
        events.last() matches Event::Fold { more } ==> more.contains_key(pw) ==> more[pw] > 0,
{
    let fewer = events.drop_last();
    assert forall|i: int| 0 <= i < fewer.len() implies (#[trigger] fewer[i] matches Event::Fold {
        more,
    } ==> more.contains_key(pw) ==> more[pw] > 0) by {
        assert(fewer[i] == events[i]);
    }
    assert(events[events.len() - 1] == events.last());
}

/// As long as a password was folded in fewer than 2^64 times, its counts in the spilled runs and in
/// the index add up to exactly that, and none of them is zero.
pub proof fn lemma_history_exact(states: Seq<Counts>, events: Seq<Event>, pw: Seq<u8>)
    requires
        is_history(states, events),
        times_folded(events, pw) <= u64::MAX,
        folds_positive(events, pw),
    ensures
        times_in_runs(runs_spilled(events), pw) + count_in(states.last(), pw)
            == times_folded(events, pw),
        states.last().contains_key(pw) ==> states.last()[pw] > 0,
        forall|i: int, k: int|
            0 <= i < runs_spilled(events).len() && 0 <= k < runs_spilled(events)[i].len() && (
            #[trigger] runs_spilled(events)[i][k]).0 == pw ==> runs_spilled(events)[i][k].1 > 0,
    decreases events.len(),
{
    if events.len() > 0 {
        lemma_shorter_history(states, events);
        lemma_positive_shorter(events, pw);
        lemma_history_exact(states.drop_last(), events.drop_last(), pw);
        let before = states[events.len() - 1];
        let runs = runs_spilled(events.drop_last());
        match events.last() {
            Event::Fold { more } => {
                let sum = count_in(before, pw) + count_in(more, pw);
                assert(sum <= u64::MAX);
                assert(wrap64(sum) == sum);
            },
            Event::Spill { run } => {
                lemma_tally_of_listing(run, before);
                let all = runs.push(run);
                assert(all.drop_last() =~= runs);
                assert forall|i: int, k: int|
                    0 <= i < all.len() && 0 <= k < all[i].len() && (#[trigger] all[i][k]).0
                        == pw implies all[i][k].1 > 0 by {
                    if i < runs.len() {
                        assert(all[i][k] == runs[i][k]);
                    } else {
                        assert(before[run[k].0] == run[k].1);
                    }
                }
            },
        }
    }
}

/// The exact counts of a password in the final runs: they add up to how often it was folded in, and
/// as long as that is below 2^63 the keys that they are stored under are positive.
pub proof fn lemma_final_runs_exact(
    states: Seq<Counts>,
    events: Seq<Event>,
    index: CountingIndex,
    sort_mode: Seq<char>,
    spilled: Seq<tempfile::TempPath>,
    r: FinalizedResult,
    pw: Seq<u8>,
)
    requires
        is_history(states, events),
        index.wf(),
        index.counts() == states.last(),
        is_finalized(index, sort_mode, spilled, r),
        times_folded(events, pw) <= i64::MAX,
        folds_positive(events, pw),
    ensures
        r matches FinalizedResult::Spilled { last_run, .. } ==> {
            let all = final_runs(events, last_run);
            &&& times_in_runs(all, pw) == times_folded(events, pw)
            &&& forall|i: int, k: int|
                0 <= i < all.len() && 0 <= k < all[i].len() && (#[trigger] all[i][k]).0 == pw
                    ==> count_key(all[i][k].1, false) == all[i][k].1 && all[i][k].1 > 0
        },
{
    lemma_history_exact(states, events, pw);
    let left = states.last();
    let runs = runs_spilled(events);
    if let FinalizedResult::Spilled { last_run, .. } = r {
        let all = final_runs(events, last_run);
        match last_run {
            Some(entries) => {
                let run = entry_views(entries@);
                lemma_tally_of_listing(run, left);
                assert(all.drop_last() =~= runs);
            },
            None => {
                assert(left.dom() =~= Set::<Seq<u8>>::empty());
                assert(!left.contains_key(pw));
            },
        }
        assert forall|i: int, k: int|
            0 <= i < all.len() && 0 <= k < all[i].len() && (#[trigger] all[i][k]).0
                == pw implies count_key(all[i][k].1, false) == all[i][k].1 && all[i][k].1 > 0 by {
            if i < runs.len() {
                assert(all[i][k] == runs[i][k]);
                lemma_count_within(runs, i, k, pw, states, events);
            } else {
                assert(left.contains_key(all[i][k].0));
                assert(left[all[i][k].0] == all[i][k].1);
            }
        }
    }
}

/// A count in a spilled run is at most how often its password was folded in.
proof fn lemma_count_within(
    runs: Seq<Seq<(Seq<u8>, u64)>>,
    i: int,
    k: int,
    pw: Seq<u8>,
    states: Seq<Counts>,
    events: Seq<Event>,
)
    requires
        is_history(states, events),
        runs == runs_spilled(events),
        0 <= i < runs.len(),
        0 <= k < runs[i].len(),
        runs[i][k].0 == pw,
        times_folded(events, pw) <= u64::MAX,
        folds_positive(events, pw),
    ensures
        runs[i][k].1 <= times_folded(events, pw),
{
    lemma_history_exact(states, events, pw);
    lemma_spilled_runs_rise(states, events);
    assert(strictly_rising(runs[i]));
    crate::counted_merge::lemma_rising_lists(runs[i]);
    lemma_times_at_least(runs, i, pw);
}

proof fn lemma_times_at_least(runs: Seq<Seq<(Seq<u8>, u64)>>, i: int, pw: Seq<u8>)
    requires
        0 <= i < runs.len(),
    ensures
        count_in(tally(runs[i]), pw) <= times_in_runs(runs, pw),
    decreases runs.len(),
{
    if i < runs.len() - 1 {
        lemma_times_at_least(runs.drop_last(), i, pw);
    }
}

/// A history goes on with an event.
proof fn lemma_history_push(
    states: Seq<Counts>,
    events: Seq<Event>,
    event: Event,
    after: Counts,
)
    requires
        is_history(states, events),
        takes(states.last(), event, after),
    ensures
        is_history(states.push(after), events.push(event)),
{
    let s = states.push(after);
    let e = events.push(event);
    assert forall|i: int| 0 <= i < e.len() implies takes(s[i], #[trigger] e[i], s[i + 1]) by {
        if i < events.len() {
            assert(takes(states[i], events[i], states[i + 1]));
        }
    }
}

/// A new index has a history without events.
pub proof fn lemma_history_starts()
    ensures
        is_history(seq![Counts::empty()], Seq::empty()),
{
}

/// The history of an index goes on when counts are absorbed: they are folded in, and if a spill job
/// comes out of that, its entries are written as a run once they are sorted.
pub proof fn lemma_absorb_goes_on(
    states: Seq<Counts>,
    events: Seq<Event>,
    before: CountingIndex,
    after: CountingIndex,
    more: Counts,
    job: Option<SpillJob>,
    run: Seq<(Seq<u8>, u64)>,
)
    requires
        is_history(states, events),
        states.last() == before.counts(),
        absorbed(&before, &after, more, job),
        job matches Some(j) ==> sorted_entries(run) && run.to_multiset() == entry_views(
            j.entries@,
        ).to_multiset(),
    ensures
        ({
            let all = add_counts(before.counts(), more);
            let fold = events.push(Event::Fold { more });
            match job {
                Some(_) => is_history(
                    states.push(all).push(after.counts()),
                    fold.push(Event::Spill { run }),
                ),
                None => is_history(states.push(after.counts()), fold),
            }
        }),
{
    let all = add_counts(before.counts(), more);
    let fold = events.push(Event::Fold { more });
    lemma_history_push(states, events, Event::Fold { more }, all);
    if let Some(j) = job {
        lemma_listing_reordered(entry_views(j.entries@), run, all);
        lemma_history_push(states.push(all), fold, Event::Spill { run }, after.counts());
    }
}

} // verus!
