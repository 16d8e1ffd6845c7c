//! A whole run of the program: from the bytes of the input files to the dictionary.

use vstd::prelude::*;

use crate::chunk::{chunks_of, passwords_of_chunks};
use crate::count::{
    batch_counts, batch_lines, lemma_file_counts, lemma_file_lines, lemma_passwords_of_both,
    IO_CHUNK_SIZE,
};
use crate::counted_merge::lemma_merged_counts;
use crate::dedup::{item_pws, merged};
use crate::dictionary::{
    lemma_dictionary_complete, lemma_spilled_runs, short_pws, spilled_counts, spilled_runs,
};
use crate::history::{
    final_runs, folded, folds_positive, is_history, lemma_finalize_keeps_counts,
    lemma_history_exact, lemma_history_keeps_counts, runs_spilled, times_folded, times_in_runs,
    Event,
};
use crate::index::{is_finalized, lists_records, CountingIndex, FinalizedResult};
use crate::line::passwords_in;
use crate::merge::runs_of;
use crate::premerge::joined;
use crate::record::recs;
use crate::sort::rec_pws;
use crate::spill::sorted_entries;
use crate::tally::{
    add_counts, count_in, counts_of, lemma_add_counts_laws, lemma_counts_concat,
    lemma_counts_empty, lemma_counts_exact, lists, Counts,
};

verus! {

broadcast use crate::bytes::group_bytes_le;

/// The passwords of all input files.
pub open spec fn input_passwords(files: Seq<Seq<u8>>, keep: bool) -> Seq<Seq<u8>>
    decreases files.len(),
{
    if files.len() == 0 {
        Seq::empty()
    } else {
        input_passwords(files.drop_last(), keep) + passwords_in(files.last(), keep)
    }
}

/// The chunks of each file are taken off in batches, of whatever size.
pub open spec fn reads(files: Seq<Seq<u8>>, batches: Seq<Seq<Seq<Seq<u8>>>>) -> bool {
    &&& batches.len() == files.len()
    &&& forall|i: int|
        0 <= i < files.len() ==> joined(#[trigger] batches[i]) == chunks_of(
            files[i],
            IO_CHUNK_SIZE as int,
        )
}

/// The counts of each batch.
pub open spec fn counts_of_batches(batches: Seq<Seq<Seq<u8>>>, keep: bool) -> Seq<Counts> {
    batches.map_values(|b: Seq<Seq<u8>>| counts_of(passwords_of_chunks(b, keep)))
}

/// The counts that were folded in, one after another.
pub open spec fn folds(events: Seq<Event>) -> Seq<Counts>
    decreases events.len(),
{
    if events.len() == 0 {
        Seq::empty()
    } else {
        match events.last() {
            Event::Fold { more } => folds(events.drop_last()).push(more),
            Event::Spill { .. } => folds(events.drop_last()),
        }
    }
}

/// The index is given the counts of every batch of every file once, in whatever order the files and
/// their batches come, however they were counted, and however often the index is spilled meanwhile.
pub open spec fn counts_input(
    files: Seq<Seq<u8>>,
    batches: Seq<Seq<Seq<Seq<u8>>>>,
    keep: bool,
    events: Seq<Event>,
) -> bool {
    &&& reads(files, batches)
    &&& folds(events).to_multiset() == counts_of_batches(joined(batches), keep).to_multiset()
}

/// Counts added up.
pub open spec fn sum_counts(s: Seq<Counts>) -> Counts
    decreases s.len(),
{
    if s.len() == 0 {
        Map::empty()
    } else {
        add_counts(sum_counts(s.drop_last()), s.last())
    }
}

/// The counts of one password added up, without wrapping.
pub open spec fn sum_times(s: Seq<Counts>, pw: Seq<u8>) -> nat
    decreases s.len(),
{
    if s.len() == 0 {
        0
    } else {
        sum_times(s.drop_last(), pw) + count_in(s.last(), pw) as nat
    }
}

proof fn lemma_sum_concat(a: Seq<Counts>, b: Seq<Counts>, pw: Seq<u8>)
    ensures
        sum_counts(a + b) == add_counts(sum_counts(a), sum_counts(b)),
        sum_times(a + b, pw) == sum_times(a, pw) + sum_times(b, pw),
    decreases b.len(),
{
    if b.len() == 0 {
        assert(a + b =~= a);
        lemma_add_counts_laws(sum_counts(a), Map::empty(), Map::empty());
    } else {
        lemma_sum_concat(a, b.drop_last(), pw);
        assert((a + b).drop_last() =~= a + b.drop_last());
        lemma_add_counts_laws(sum_counts(a), sum_counts(b.drop_last()), b.last());
    }
}

/// One of several counts may come last.
proof fn lemma_sum_remove(s: Seq<Counts>, i: int, pw: Seq<u8>)
    requires
        0 <= i < s.len(),
    ensures
        sum_counts(s) == add_counts(sum_counts(s.remove(i)), s[i]),
        sum_times(s, pw) == sum_times(s.remove(i), pw) + count_in(s[i], pw),
    decreases s.len(),
{
    if i == s.len() - 1 {
        assert(s.remove(i) =~= s.drop_last());
    } else {
        let shorter = s.drop_last();
        lemma_sum_remove(shorter, i, pw);
        assert(s.remove(i).drop_last() =~= shorter.remove(i));
        assert(s.remove(i).last() == s.last());
        let rest = sum_counts(shorter.remove(i));
        lemma_add_counts_laws(rest, s[i], s.last());
        lemma_add_counts_laws(s[i], s.last(), rest);
        lemma_add_counts_laws(rest, s.last(), s[i]);
    }
}

/// Adding counts up does not depend on their order.
proof fn lemma_sum_reordered(a: Seq<Counts>, b: Seq<Counts>, pw: Seq<u8>)
    requires
        a.to_multiset() == b.to_multiset(),
    ensures
        sum_counts(a) == sum_counts(b),
        sum_times(a, pw) == sum_times(b, pw),
    decreases a.len(),
{
    broadcast use vstd::seq_lib::group_to_multiset_ensures;
    broadcast use vstd::multiset::group_multiset_axioms;

    assert(a.len() == a.to_multiset().len());
    assert(b.len() == b.to_multiset().len());
    if a.len() > 0 {
        let last = a.len() - 1;
        assert(a.contains(a[last]));
        assert(b.to_multiset().count(a[last]) > 0);
        let i = choose|i: int| 0 <= i < b.len() && b[i] == a[last];
        assert(a.remove(last) =~= a.drop_last());
        assert(a.drop_last().to_multiset() =~= b.remove(i).to_multiset());
        lemma_sum_reordered(a.drop_last(), b.remove(i), pw);
        lemma_sum_remove(b, i, pw);
    }
}

/// What was folded in is the sum of the folds.
proof fn lemma_folded_is_sum(events: Seq<Event>, pw: Seq<u8>)
    ensures
        folded(events) == sum_counts(folds(events)),
        times_folded(events, pw) == sum_times(folds(events), pw),
    decreases events.len(),
{
    if events.len() > 0 {
        lemma_folded_is_sum(events.drop_last(), pw);
        if let Event::Fold { more } = events.last() {
            let before = folds(events.drop_last());
            assert(before.push(more).drop_last() =~= before);
        }
    }
}

/// The batches of one file.
proof fn lemma_file_sum(batches: Seq<Seq<Seq<u8>>>, keep: bool)
    ensures
        sum_counts(counts_of_batches(batches, keep)) == batch_counts(batches, keep),
    decreases batches.len(),
{
    if batches.len() > 0 {
        lemma_file_sum(batches.drop_last(), keep);
        assert(counts_of_batches(batches, keep).drop_last() =~= counts_of_batches(
            batches.drop_last(),
            keep,
        ));
    }
}

proof fn lemma_fewer_files(files: Seq<Seq<u8>>, batches: Seq<Seq<Seq<Seq<u8>>>>)
    requires
        reads(files, batches),
        files.len() > 0,
    ensures
        reads(files.drop_last(), batches.drop_last()),
        joined(batches.last()) == chunks_of(files.last(), IO_CHUNK_SIZE as int),
{
    let fewer = batches.drop_last();
    assert forall|i: int| 0 <= i < files.len() - 1 implies joined(#[trigger] fewer[i]) == chunks_of(
        files.drop_last()[i],
        IO_CHUNK_SIZE as int,
    ) by {
        assert(fewer[i] == batches[i]);
    }
    assert(joined(batches[files.len() - 1]) == chunks_of(
        files[files.len() - 1],
        IO_CHUNK_SIZE as int,
    ));
}

/// The batches of all files have the counts of all passwords.
proof fn lemma_batches_sum(files: Seq<Seq<u8>>, batches: Seq<Seq<Seq<Seq<u8>>>>, keep: bool)
    requires
        reads(files, batches),
    ensures
        sum_counts(counts_of_batches(joined(batches), keep)) == counts_of(
            input_passwords(files, keep),
        ),
    decreases files.len(),
{
    if files.len() == 0 {
        lemma_counts_empty();
        assert(counts_of_batches(joined(batches), keep) =~= Seq::<Counts>::empty());
    } else {
        lemma_fewer_files(files, batches);
        lemma_batches_sum(files.drop_last(), batches.drop_last(), keep);
        let a = counts_of_batches(joined(batches.drop_last()), keep);
        let b = counts_of_batches(batches.last(), keep);
        assert(counts_of_batches(joined(batches), keep) =~= a + b);
        lemma_sum_concat(a, b, Seq::empty());
        lemma_file_sum(batches.last(), keep);
        lemma_file_counts(files.last(), IO_CHUNK_SIZE as int, batches.last(), keep);
        lemma_counts_concat(
            input_passwords(files.drop_last(), keep),
            passwords_in(files.last(), keep),
        );
    }
}

/// What is folded into the index over a whole run is how often each password is in the input.
pub proof fn lemma_input_is_counted(
    files: Seq<Seq<u8>>,
    batches: Seq<Seq<Seq<Seq<u8>>>>,
    keep: bool,
    events: Seq<Event>,
)
    requires
        counts_input(files, batches, keep, events),
    ensures
        folded(events) == counts_of(input_passwords(files, keep)),
{
    let none = Seq::<u8>::empty();
    lemma_folded_is_sum(events, none);
    lemma_sum_reordered(folds(events), counts_of_batches(joined(batches), keep), none);
    lemma_batches_sum(files, batches, keep);
}

/// How often a password is in batches of fewer than 2^64 passwords.
proof fn lemma_times_in_batches(batches: Seq<Seq<Seq<u8>>>, keep: bool, pw: Seq<u8>)
    requires
        passwords_of_chunks(joined(batches), keep).len() < 0x1_0000_0000_0000_0000,
    ensures
        sum_times(counts_of_batches(batches, keep), pw) == passwords_of_chunks(
            joined(batches),
            keep,
        ).to_multiset().count(pw),
    decreases batches.len(),
{
    broadcast use vstd::seq_lib::group_to_multiset_ensures;
    broadcast use vstd::multiset::group_multiset_axioms;

    if batches.len() == 0 {
        assert(passwords_of_chunks(joined(batches), keep) =~= Seq::<Seq<u8>>::empty());
    } else {
        let a = passwords_of_chunks(joined(batches.drop_last()), keep);
        let b = passwords_of_chunks(batches.last(), keep);
        lemma_passwords_of_both(joined(batches.drop_last()), batches.last(), keep);
        lemma_times_in_batches(batches.drop_last(), keep, pw);
        let s = counts_of_batches(batches, keep);
        assert(s.drop_last() =~= counts_of_batches(batches.drop_last(), keep));
        lemma_counts_exact(b, pw);
        assert(b.contains(pw) <==> b.to_multiset().count(pw) > 0);
        vstd::seq_lib::lemma_multiset_commutative(a, b);
    }
}

/// The batches of all files have the passwords of the input.
proof fn lemma_passwords_of_batches(
    files: Seq<Seq<u8>>,
    batches: Seq<Seq<Seq<Seq<u8>>>>,
    keep: bool,
)
    requires
        reads(files, batches),
    ensures
        passwords_of_chunks(joined(joined(batches)), keep) == input_passwords(files, keep),
    decreases files.len(),
{
    if files.len() == 0 {
        assert(passwords_of_chunks(joined(joined(batches)), keep) =~= Seq::<Seq<u8>>::empty());
    } else {
        lemma_fewer_files(files, batches);
        lemma_passwords_of_batches(files.drop_last(), batches.drop_last(), keep);
        lemma_joined_both(joined(batches.drop_last()), batches.last());
        lemma_passwords_of_both(
            joined(joined(batches.drop_last())),
            joined(batches.last()),
            keep,
        );
        crate::chunk::lemma_chunks_keep_passwords(files.last(), IO_CHUNK_SIZE as int, keep);
    }
}

proof fn lemma_joined_both<T>(a: Seq<Seq<T>>, b: Seq<Seq<T>>)
    ensures
        joined(a + b) == joined(a) + joined(b),
    decreases b.len(),
{
    if b.len() == 0 {
        assert(a + b =~= a);
        assert(joined(a) + joined(b) =~= joined(a));
    } else {
        lemma_joined_both(a, b.drop_last());
        assert((a + b).drop_last() =~= a + b.drop_last());
        assert(joined(a + b) =~= joined(a) + joined(b));
    }
}

/// A fold of the input never has a count of zero, if the input has fewer than 2^64 passwords.
proof fn lemma_folds_of_input_positive(
    files: Seq<Seq<u8>>,
    batches: Seq<Seq<Seq<Seq<u8>>>>,
    keep: bool,
    events: Seq<Event>,
    pw: Seq<u8>,
)
    requires
        counts_input(files, batches, keep, events),
        input_passwords(files, keep).len() < 0x1_0000_0000_0000_0000,
    ensures
        folds_positive(events, pw),
{
    broadcast use vstd::seq_lib::group_to_multiset_ensures;
    broadcast use vstd::multiset::group_multiset_axioms;

    let all = joined(batches);
    let counts = counts_of_batches(all, keep);
    lemma_passwords_of_batches(files, batches, keep);
    assert forall|i: int| 0 <= i < events.len() implies (#[trigger] events[i] matches Event::Fold {
        more,
    } ==> more.contains_key(pw) ==> more[pw] > 0) by {
        if let Event::Fold { more } = events[i] {
            lemma_fold_is_in(events, i);
            assert(folds(events).to_multiset().count(more) > 0);
            assert(counts.contains(more));
            let k = choose|k: int| 0 <= k < counts.len() && counts[k] == more;
            let p = passwords_of_chunks(all[k], keep);
            lemma_batch_within(all, k, keep);
            lemma_counts_exact(p, pw);
            assert(p.contains(pw) <==> p.to_multiset().count(pw) > 0);
        }
    }
}

proof fn lemma_fold_is_in(events: Seq<Event>, i: int)
    requires
        0 <= i < events.len(),
    ensures
        events[i] matches Event::Fold { more } ==> folds(events).contains(more),
    decreases events.len(),
{
    if let Event::Fold { more } = events[i] {
        let before = folds(events.drop_last());
        if i == events.len() - 1 {
            assert(before.push(more)[before.len() as int] == more);
        } else {
            lemma_fold_is_in(events.drop_last(), i);
            let k = choose|k: int| 0 <= k < before.len() && before[k] == more;
            assert(folds(events)[k] == more);
        }
    }
}

/// A batch has no more passwords than all batches.
proof fn lemma_batch_within(batches: Seq<Seq<Seq<u8>>>, k: int, keep: bool)
    requires
        0 <= k < batches.len(),
    ensures
        passwords_of_chunks(batches[k], keep).len() <= passwords_of_chunks(
            joined(batches),
            keep,
        ).len(),
    decreases batches.len(),
{
    lemma_passwords_of_both(joined(batches.drop_last()), batches.last(), keep);
    if k < batches.len() - 1 {
        lemma_batch_within(batches.drop_last(), k, keep);
    }
}

/// At any end of counting, the counts of a password in the spilled runs and in the index add up to
/// the number of its occurrences in the input, as long as that has fewer than 2^64 passwords.
pub proof fn lemma_occurrences(
    files: Seq<Seq<u8>>,
    batches: Seq<Seq<Seq<Seq<u8>>>>,
    keep: bool,
    states: Seq<Counts>,
    events: Seq<Event>,
    pw: Seq<u8>,
)
    requires
        counts_input(files, batches, keep, events),
        is_history(states, events),
        input_passwords(files, keep).len() < 0x1_0000_0000_0000_0000,
    ensures
        times_in_runs(runs_spilled(events), pw) + count_in(states.last(), pw) == input_passwords(
            files,
            keep,
        ).to_multiset().count(pw),
{
    broadcast use vstd::seq_lib::group_to_multiset_ensures;
    broadcast use vstd::multiset::group_multiset_axioms;

    let pws = input_passwords(files, keep);
    lemma_folded_is_sum(events, pw);
    lemma_sum_reordered(folds(events), counts_of_batches(joined(batches), keep), pw);
    lemma_passwords_of_batches(files, batches, keep);
    lemma_times_in_batches(joined(batches), keep, pw);
    assert(pws.to_multiset().count(pw) <= pws.to_multiset().len());
    lemma_folds_of_input_positive(files, batches, keep, events, pw);
    lemma_history_exact(states, events, pw);
}

/// Arenas, batch sizes, the order of the files and their batches, threads and memory budgets change
/// nothing of what is counted: whichever way the same input is counted, the counts in the spilled
/// runs and in the index add up to the same.
pub proof fn lemma_counting_is_independent(
    files: Seq<Seq<u8>>,
    keep: bool,
    batches1: Seq<Seq<Seq<Seq<u8>>>>,
    states1: Seq<Counts>,
    events1: Seq<Event>,
    batches2: Seq<Seq<Seq<Seq<u8>>>>,
    states2: Seq<Counts>,
    events2: Seq<Event>,
)
    requires
        counts_input(files, batches1, keep, events1),
        is_history(states1, events1),
        counts_input(files, batches2, keep, events2),
        is_history(states2, events2),
    ensures
        add_counts(spilled_counts(runs_spilled(events1)), states1.last()) == add_counts(
            spilled_counts(runs_spilled(events2)),
            states2.last(),
        ),
        add_counts(spilled_counts(runs_spilled(events1)), states1.last()) == counts_of(
            input_passwords(files, keep),
        ),
{
    lemma_input_is_counted(files, batches1, keep, events1);
    lemma_input_is_counted(files, batches2, keep, events2);
    lemma_history_keeps_counts(states1, events1);
    lemma_history_keeps_counts(states2, events2);
}

/// Nor do they change how many lines a file is said to have.
pub proof fn lemma_lines_are_independent(
    data: Seq<u8>,
    keep: bool,
    batches1: Seq<Seq<Seq<u8>>>,
    batches2: Seq<Seq<Seq<u8>>>,
)
    requires
        joined(batches1) == chunks_of(data, IO_CHUNK_SIZE as int),
        joined(batches2) == chunks_of(data, IO_CHUNK_SIZE as int),
    ensures
        batch_lines(batches1, keep) == batch_lines(batches2, keep),
        data.len() < 0x1_0000_0000_0000_0000 ==> batch_lines(batches1, keep) == passwords_in(
            data,
            keep,
        ).len(),
{
    lemma_file_lines(data, IO_CHUNK_SIZE as int, batches1, keep);
    lemma_file_lines(data, IO_CHUNK_SIZE as int, batches2, keep);
}

/// The result of a whole run has every password of the input, each once, and no other: as records,
/// or as what merging the runs gives. Merging is for passwords shorter than 4 GiB.
pub proof fn lemma_run_is_complete(
    files: Seq<Seq<u8>>,
    batches: Seq<Seq<Seq<Seq<u8>>>>,
    keep: bool,
    states: Seq<Counts>,
    events: Seq<Event>,
    index: CountingIndex,
    sort_mode: Seq<char>,
    spilled: Seq<tempfile::TempPath>,
    r: FinalizedResult,
)
    requires
        counts_input(files, batches, keep, events),
        is_history(states, events),
        index.wf(),
        index.counts() == states.last(),
        spilled.len() == runs_spilled(events).len(),
        is_finalized(index, sort_mode, spilled, r),
    ensures
        match r {
            FinalizedResult::InMemory(unique, records) => {
                let pws = input_passwords(files, keep);
                let d = rec_pws(recs(records@));
                &&& lists_records(recs(records@), counts_of(pws), sort_mode == "frequency"@)
                &&& unique == d.len()
                &&& d.no_duplicates()
                &&& forall|pw: Seq<u8>| #[trigger] d.contains(pw) <==> pws.contains(pw)
            },
            FinalizedResult::Spilled { last_run, .. } => {
                let pws = input_passwords(files, keep);
                let jobs = final_runs(events, last_run);
                &&& spilled_counts(jobs) == counts_of(pws)
                &&& (forall|i: int| 0 <= i < jobs.len() ==> short_pws(#[trigger] jobs[i])) ==> {
                    let m = merged(runs_of(spilled_runs(jobs)));
                    let d = item_pws(m.items);
                    &&& m.intact
                    &&& lists(m.items, counts_of(pws))
                    &&& d.no_duplicates()
                    &&& forall|pw: Seq<u8>| #[trigger] d.contains(pw) <==> pws.contains(pw)
                }
            },
        },
{
    let pws = input_passwords(files, keep);
    lemma_input_is_counted(files, batches, keep, events);
    lemma_finalize_keeps_counts(states, events, index, sort_mode, spilled, r);
    match r {
        FinalizedResult::InMemory(_, records) => {
            lemma_dictionary_complete(recs(records@), pws, sort_mode == "frequency"@);
        },
        FinalizedResult::Spilled { last_run, .. } => {
            let jobs = final_runs(events, last_run);
            if forall|i: int| 0 <= i < jobs.len() ==> short_pws(#[trigger] jobs[i]) {
                assert forall|i: int| 0 <= i < jobs.len() implies sorted_entries(
                    #[trigger] jobs[i],
                ) && short_pws(jobs[i]) by {
                    lemma_rising_is_sorted(jobs[i]);
                }
                let runs = runs_of(spilled_runs(jobs));
                lemma_spilled_runs(jobs);
                lemma_merged_counts(runs);
                lemma_items_complete(merged(runs).items, pws);
            }
        },
    }
}

proof fn lemma_rising_is_sorted(s: Seq<(Seq<u8>, u64)>)
    requires
        crate::counted_merge::strictly_rising(s),
    ensures
        sorted_entries(s),
{
    assert forall|i: int, j: int| 0 <= i <= j < s.len() implies crate::bytes::bytes_le(
        (#[trigger] s[i]).0,
        (#[trigger] s[j]).0,
    ) by {
        if i < j {
            assert(crate::bytes::bytes_lt(s[i].0, s[j].0));
        }
    }
}

proof fn lemma_items_complete(items: Seq<(Seq<u8>, u64)>, pws: Seq<Seq<u8>>)
    requires
        lists(items, counts_of(pws)),
    ensures
        item_pws(items).no_duplicates(),
        forall|pw: Seq<u8>| #[trigger] item_pws(items).contains(pw) <==> pws.contains(pw),
{
    let d = item_pws(items);
    assert forall|i: int, j: int| 0 <= i < d.len() && 0 <= j < d.len() && i != j implies d[i]
        != d[j] by {
        if i < j {
            assert(items[i].0 != items[j].0);
        } else {
            assert(items[j].0 != items[i].0);
        }
    }
    assert forall|pw: Seq<u8>| #[trigger] d.contains(pw) <==> pws.contains(pw) by {
        if d.contains(pw) {
            let i = choose|i: int| 0 <= i < d.len() && d[i] == pw;
            assert(counts_of(pws).contains_key(items[i].0));
        }
        if pws.contains(pw) {
            assert(counts_of(pws).contains_key(pw));
            let i = choose|i: int| 0 <= i < items.len() && (#[trigger] items[i]).0 == pw;
            assert(d[i] == pw);
        }
    }
}

} // verus!
