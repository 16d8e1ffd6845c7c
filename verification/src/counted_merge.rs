//! Merging counting runs adds up their counts.

use vstd::prelude::*;

use crate::bytes::{bytes_le, bytes_lt};
use crate::codec::{lemma_header_count_bounds, total_headers};
use crate::dedup::{
    gather, lemma_merged_step, lemma_remaining_advance, merged, remaining, step, Step,
};
use crate::heap::MergeOrder;
use crate::index::lemma_listing_len;
use crate::merge::{
    advance, breaks_off, broken_at_start, front, lemma_front, runs_of, Run,
};
use crate::record::Rec;
use crate::sort::{drained, rec_pws};
use crate::tally::{
    add_counts, add_one, lemma_add_counts_laws, lemma_add_one_more, lemma_tally_dom, lists, tally,
    wrap64, Counts,
};

verus! {

broadcast use crate::bytes::group_bytes_le;

/// The passwords of a counting run with their counts.
pub open spec fn rec_entries(s: Seq<Rec>) -> Seq<(Seq<u8>, u64)> {
    s.map_values(|r: Rec| (r.pw, r.key as u64))
}

/// The counts of all runs added up.
pub open spec fn total_counts(runs: Seq<Run>) -> Counts
    decreases runs.len(),
{
    if runs.len() == 0 {
        Map::empty()
    } else {
        add_counts(total_counts(runs.drop_last()), tally(rec_entries(runs.last().recs)))
    }
}

/// The records are sorted by password.
pub open spec fn sorted_by_pw(s: Seq<Rec>) -> bool {
    forall|i: int, j: int|
        0 <= i <= j < s.len() ==> bytes_le((#[trigger] s[i]).pw, (#[trigger] s[j]).pw)
}

/// Each run is undamaged and sorted by password.
pub open spec fn counting_runs(runs: Seq<Run>) -> bool {
    forall|i: int|
        0 <= i < runs.len() ==> !(#[trigger] runs[i]).damaged && sorted_by_pw(runs[i].recs)
}

/// The entries are in strictly rising order of their passwords.
pub open spec fn strictly_rising(s: Seq<(Seq<u8>, u64)>) -> bool {
    forall|i: int, j: int|
        0 <= i < j < s.len() ==> bytes_lt((#[trigger] s[i]).0, (#[trigger] s[j]).0)
}

/// Entries in two parts count as the parts do together.
pub proof fn lemma_tally_concat(a: Seq<(Seq<u8>, u64)>, b: Seq<(Seq<u8>, u64)>)
    ensures
        tally(a + b) == add_counts(tally(a), tally(b)),
    decreases b.len(),
{
    if b.len() == 0 {
        assert(a + b =~= a);
        lemma_add_counts_laws(tally(a), Map::empty(), Map::empty());
    } else {
        lemma_tally_concat(a, b.drop_last());
        assert((a + b).drop_last() =~= a + b.drop_last());
        lemma_add_one_more(tally(a), tally(b.drop_last()), b.last().0, b.last().1);
    }
}

/// One entry counts as itself.
proof fn lemma_tally_one(e: (Seq<u8>, u64))
    ensures
        tally(seq![e]) == Counts::empty().insert(e.0, e.1),
{
    assert(seq![e].drop_last() =~= Seq::<(Seq<u8>, u64)>::empty());
    assert(tally(Seq::<(Seq<u8>, u64)>::empty()) =~= Counts::empty());
    assert(tally(seq![e]) =~= Counts::empty().insert(e.0, e.1));
}

/// An entry in front of others counts as one behind them.
proof fn lemma_tally_front(e: (Seq<u8>, u64), rest: Seq<(Seq<u8>, u64)>)
    ensures
        tally(seq![e] + rest) == add_one(tally(rest), e.0, e.1),
{
    lemma_tally_concat(seq![e], rest);
    lemma_tally_one(e);
    assert(add_counts(tally(seq![e]), tally(rest)) =~= add_one(tally(rest), e.0, e.1));
}

/// Adding to one side of a sum.
proof fn lemma_add_one_left(a: Counts, b: Counts, pw: Seq<u8>, n: u64)
    ensures
        add_counts(add_one(a, pw, n), b) == add_one(add_counts(a, b), pw, n),
{
    assert(add_counts(add_one(a, pw, n), b) =~= add_one(add_counts(a, b), pw, n));
}

/// Taking a record off takes its count away.
proof fn lemma_total_advance(runs: Seq<Run>, f: int)
    requires
        0 <= f < runs.len(),
        runs[f].recs.len() > 0,
    ensures
        total_counts(runs) == add_one(
            total_counts(advance(runs, f)),
            runs[f].recs[0].pw,
            runs[f].recs[0].key as u64,
        ),
    decreases runs.len(),
{
    let next = advance(runs, f);
    let first = runs[f].recs[0];
    let e = (first.pw, first.key as u64);
    if f == runs.len() - 1 {
        assert(next.drop_last() =~= runs.drop_last());
        let rest = rec_entries(next.last().recs);
        assert(rec_entries(runs.last().recs) =~= seq![e] + rest);
        lemma_tally_front(e, rest);
        lemma_add_one_more(total_counts(runs.drop_last()), tally(rest), e.0, e.1);
    } else {
        lemma_total_advance(runs.drop_last(), f);
        assert(next.drop_last() =~= advance(runs.drop_last(), f));
        assert(next.last() == runs.last());
        lemma_add_one_left(
            total_counts(next.drop_last()),
            tally(rec_entries(runs.last().recs)),
            e.0,
            e.1,
        );
    }
}

/// A password with a count is in one of the runs.
proof fn lemma_total_member(runs: Seq<Run>, pw: Seq<u8>)
    requires
        total_counts(runs).contains_key(pw),
    ensures
        exists|i: int, k: int|
            0 <= i < runs.len() && 0 <= k < runs[i].recs.len() && (#[trigger] runs[i].recs[k]).pw
                == pw,
    decreases runs.len(),
{
    if runs.len() > 0 {
        let last = runs.len() - 1;
        let shorter = runs.drop_last();
        if total_counts(shorter).contains_key(pw) {
            lemma_total_member(shorter, pw);
            let (i, k) = choose|i: int, k: int|
                0 <= i < shorter.len() && 0 <= k < shorter[i].recs.len()
                    && (#[trigger] shorter[i].recs[k]).pw == pw;
            assert(runs[i].recs[k].pw == pw);
        } else {
            let entries = rec_entries(runs.last().recs);
            lemma_tally_dom(entries, pw);
            let k = choose|k: int| 0 <= k < entries.len() && (#[trigger] entries[k]).0 == pw;
            assert(runs[last].recs[k].pw == pw);
        }
    }
}

proof fn lemma_total_empty(runs: Seq<Run>)
    requires
        forall|i: int| 0 <= i < runs.len() ==> (#[trigger] runs[i]).recs.len() == 0,
    ensures
        total_counts(runs) == Counts::empty(),
{
    assert forall|pw: Seq<u8>| !(#[trigger] total_counts(runs).contains_key(pw)) by {
        if total_counts(runs).contains_key(pw) {
            lemma_total_member(runs, pw);
            let (i, k) = choose|i: int, k: int|
                0 <= i < runs.len() && 0 <= k < runs[i].recs.len()
                    && (#[trigger] runs[i].recs[k]).pw == pw;
            assert(runs[i].recs.len() == 0);
        }
    }
    assert(total_counts(runs) =~= Counts::empty());
}

/// Runs stay sorted by password when a record is taken off.
proof fn lemma_counting_advance(runs: Seq<Run>, f: int)
    requires
        counting_runs(runs),
        0 <= f < runs.len(),
        runs[f].recs.len() > 0,
    ensures
        counting_runs(advance(runs, f)),
{
    let next = advance(runs, f);
    assert forall|i: int| 0 <= i < next.len() implies !(#[trigger] next[i]).damaged && sorted_by_pw(
        next[i].recs,
    ) by {
        assert(!runs[i].damaged && sorted_by_pw(runs[i].recs));
        if i == f {
            let was = runs[f].recs;
            let now = next[f].recs;
            assert forall|a: int, b: int| 0 <= a <= b < now.len() implies bytes_le(
                (#[trigger] now[a]).pw,
                (#[trigger] now[b]).pw,
            ) by {
                assert(now[a] == was[a + 1]);
                assert(now[b] == was[b + 1]);
            }
        }
    }
}

/// Every password of the runs is at or behind `pw`.
spec fn all_from(runs: Seq<Run>, pw: Seq<u8>) -> bool {
    forall|i: int, k: int|
        0 <= i < runs.len() && 0 <= k < runs[i].recs.len() ==> bytes_le(
            pw,
            (#[trigger] runs[i].recs[k]).pw,
        )
}

/// The password in front is the least of all.
proof fn lemma_front_is_least(runs: Seq<Run>)
    requires
        counting_runs(runs),
        front(MergeOrder::ByPassword, runs) >= 0,
    ensures
        all_from(runs, runs[front(MergeOrder::ByPassword, runs)].recs[0].pw),
{
    let f = front(MergeOrder::ByPassword, runs);
    lemma_front(MergeOrder::ByPassword, runs);
    let pw = runs[f].recs[0].pw;
    assert forall|i: int, k: int| 0 <= i < runs.len() && 0 <= k < runs[i].recs.len() implies bytes_le(
        pw,
        (#[trigger] runs[i].recs[k]).pw,
    ) by {
        assert(sorted_by_pw(runs[i].recs));
        assert(bytes_le(runs[i].recs[0].pw, runs[i].recs[k].pw));
        assert(bytes_le(pw, runs[i].recs[0].pw));
    }
}

proof fn lemma_from_advance(runs: Seq<Run>, f: int, pw: Seq<u8>)
    requires
        all_from(runs, pw),
        0 <= f < runs.len(),
        runs[f].recs.len() > 0,
    ensures
        all_from(advance(runs, f), pw),
{
    let next = advance(runs, f);
    assert forall|i: int, k: int| 0 <= i < next.len() && 0 <= k < next[i].recs.len() implies bytes_le(
        pw,
        (#[trigger] next[i].recs[k]).pw,
    ) by {
        if i == f {
            assert(next[i].recs[k] == runs[f].recs[k + 1]);
        } else {
            assert(next[i].recs[k] == runs[i].recs[k]);
        }
    }
}

/// Adding to the same count twice.
proof fn lemma_add_one_twice(m: Counts, pw: Seq<u8>, a: u64, b: u64)
    ensures
        add_one(add_one(m, pw, a), pw, b) == add_one(m, pw, wrap64(b + a)),
{
    assert(add_one(add_one(m, pw, a), pw, b) =~= add_one(m, pw, wrap64(b + a)));
}

/// Gathering collects all records of the least password, and nothing else.
proof fn lemma_gather_counts(runs: Seq<Run>, pw: Seq<u8>, total: u64)
    requires
        counting_runs(runs),
        all_from(runs, pw),
    ensures
        gather(runs, pw, total).intact,
        counting_runs(gather(runs, pw, total).rest),
        add_one(total_counts(runs), pw, total) == total_counts(
            gather(runs, pw, total).rest,
        ).insert(pw, gather(runs, pw, total).total),
        !total_counts(gather(runs, pw, total).rest).contains_key(pw),
        all_from(gather(runs, pw, total).rest, pw),
    decreases remaining(runs),
{
    let f = front(MergeOrder::ByPassword, runs);
    lemma_front(MergeOrder::ByPassword, runs);
    if f < 0 {
        lemma_total_empty(runs);
        assert(add_one(total_counts(runs), pw, total) =~= total_counts(runs).insert(pw, total));
    } else if runs[f].recs[0].pw != pw {
        lemma_front_is_least(runs);
        let head = runs[f].recs[0].pw;
        assert(bytes_le(pw, runs[f].recs[0].pw));
        if total_counts(runs).contains_key(pw) {
            lemma_total_member(runs, pw);
            let (i, k) = choose|i: int, k: int|
                0 <= i < runs.len() && 0 <= k < runs[i].recs.len()
                    && (#[trigger] runs[i].recs[k]).pw == pw;
            assert(bytes_le(head, runs[i].recs[k].pw));
        }
        assert(add_one(total_counts(runs), pw, total) =~= total_counts(runs).insert(pw, total));
    } else {
        assert(!runs[f].damaged);
        let n = runs[f].recs[0].key as u64;
        let next = advance(runs, f);
        lemma_remaining_advance(runs, f);
        lemma_counting_advance(runs, f);
        lemma_from_advance(runs, f, pw);
        lemma_total_advance(runs, f);
        lemma_gather_counts(next, pw, wrap64(total + n));
        lemma_add_one_twice(total_counts(next), pw, n, total);
    }
}

/// Merging undamaged runs that are sorted by password gives every password of the runs once, in
/// rising order, with its counts in all runs added up.
pub proof fn lemma_merged_counts(runs: Seq<Run>)
    requires
        counting_runs(runs),
    ensures
        merged(runs).intact,
        strictly_rising(merged(runs).items),
        tally(merged(runs).items) == total_counts(runs),
        lists(merged(runs).items, total_counts(runs)),
    decreases remaining(runs),
{
    let f = front(MergeOrder::ByPassword, runs);
    lemma_front(MergeOrder::ByPassword, runs);
    let items = merged(runs).items;
    if f < 0 {
        lemma_total_empty(runs);
        assert(items =~= Seq::<(Seq<u8>, u64)>::empty());
    } else {
        assert(!runs[f].damaged);
        let first = runs[f].recs[0];
        let (pw, n) = (first.pw, first.key as u64);
        let next = advance(runs, f);
        lemma_front_is_least(runs);
        lemma_from_advance(runs, f, pw);
        lemma_counting_advance(runs, f);
        lemma_total_advance(runs, f);
        lemma_gather_counts(next, pw, n);
        lemma_merged_step(runs);
        let g = gather(next, pw, n);
        let tail = merged(g.rest).items;
        lemma_merged_counts(g.rest);
        assert(items == seq![(pw, g.total)] + tail);
        lemma_tally_front((pw, g.total), tail);
        assert(tally(items) =~= total_counts(runs));
        assert forall|i: int| 0 <= i < tail.len() implies bytes_lt(pw, (#[trigger] tail[i]).0) by {
            assert(total_counts(g.rest).contains_key(tail[i].0));
            lemma_total_member(g.rest, tail[i].0);
            let (j, k) = choose|j: int, k: int|
                0 <= j < g.rest.len() && 0 <= k < g.rest[j].recs.len()
                    && (#[trigger] g.rest[j].recs[k]).pw == tail[i].0;
            assert(bytes_le(pw, g.rest[j].recs[k].pw));
        }
        assert forall|i: int, j: int| 0 <= i < j < items.len() implies bytes_lt(
            (#[trigger] items[i]).0,
            (#[trigger] items[j]).0,
        ) by {
            assert(items[j] == tail[j - 1]);
            if i > 0 {
                assert(items[i] == tail[i - 1]);
            }
        }
        lemma_rising_lists(items);
    }
}

/// Entries in strictly rising order list their counts.
pub proof fn lemma_rising_lists(s: Seq<(Seq<u8>, u64)>)
    requires
        strictly_rising(s),
    ensures
        lists(s, tally(s)),
    decreases s.len(),
{
    if s.len() > 0 {
        let last = s.len() - 1;
        let shorter = s.drop_last();
        assert forall|i: int, j: int| 0 <= i < j < shorter.len() implies bytes_lt(
            (#[trigger] shorter[i]).0,
            (#[trigger] shorter[j]).0,
        ) by {
            assert(bytes_lt(s[i].0, s[j].0));
        }
        lemma_rising_lists(shorter);
        let m = tally(s);
        let (pw, n) = s[last];
        lemma_tally_dom(shorter, pw);
        if tally(shorter).contains_key(pw) {
            let i = choose|i: int| 0 <= i < shorter.len() && (#[trigger] shorter[i]).0 == pw;
            assert(bytes_lt(s[i].0, s[last].0));
        }
        assert(m == tally(shorter).insert(pw, n));
        assert forall|i: int| 0 <= i < s.len() implies m.contains_key((#[trigger] s[i]).0)
            && m[s[i].0] == s[i].1 by {
            if i < last {
                assert(s[i] == shorter[i]);
                assert(bytes_lt(s[i].0, s[last].0));
            }
        }
        assert forall|k: Seq<u8>| #[trigger] m.contains_key(k) implies exists|i: int|
            0 <= i < s.len() && (#[trigger] s[i]).0 == k by {
            if k == pw {
                assert(s[last].0 == k);
            } else {
                assert(tally(shorter).contains_key(k));
                let i = choose|i: int| 0 <= i < shorter.len() && (#[trigger] shorter[i]).0 == k;
                assert(s[i].0 == k);
            }
        }
        assert forall|i: int, j: int| 0 <= i < j < s.len() implies (#[trigger] s[i]).0
            != (#[trigger] s[j]).0 by {
            assert(bytes_lt(s[i].0, s[j].0));
        }
    }
}

/// Merging gives no more passwords than the runs have records.
pub proof fn lemma_merged_at_most(runs: Seq<Run>)
    ensures
        merged(runs).items.len() <= remaining(runs),
    decreases remaining(runs),
{
    lemma_merged_step(runs);
    if let Step::Emit { pw, count, rest } = step(runs) {
        lemma_merged_at_most(rest);
    }
}

proof fn lemma_remaining_headers(bytes: Seq<Seq<u8>>)
    ensures
        remaining(runs_of(bytes)) <= total_headers(bytes),
    decreases bytes.len(),
{
    if bytes.len() > 0 {
        lemma_remaining_headers(bytes.drop_last());
        assert(runs_of(bytes).drop_last() =~= runs_of(bytes.drop_last()));
        lemma_header_count_bounds(bytes.last());
    }
}

/// Counting the records of runs by their headers bounds the number of distinct passwords in them.
pub proof fn lemma_headers_bound_passwords(bytes: Seq<Seq<u8>>)
    ensures
        merged(runs_of(bytes)).items.len() <= total_headers(bytes),
{
    lemma_merged_at_most(runs_of(bytes));
    lemma_remaining_headers(bytes);
}

/// Some run is damaged behind a record that is still to come.
spec fn damage_ahead(runs: Seq<Run>) -> bool {
    exists|i: int| 0 <= i < runs.len() && (#[trigger] runs[i]).damaged && runs[i].recs.len() > 0
}

/// Some run is damaged.
pub open spec fn any_damaged(runs: Seq<Run>) -> bool {
    exists|i: int| 0 <= i < runs.len() && (#[trigger] runs[i]).damaged
}

/// Taking a record off without meeting damage leaves the damage ahead.
proof fn lemma_damage_advance(runs: Seq<Run>, f: int)
    requires
        0 <= f < runs.len(),
        runs[f].recs.len() > 0,
        !breaks_off(runs[f]),
    ensures
        damage_ahead(runs) <==> damage_ahead(advance(runs, f)),
{
    let next = advance(runs, f);
    if damage_ahead(runs) {
        let i = choose|i: int|
            0 <= i < runs.len() && (#[trigger] runs[i]).damaged && runs[i].recs.len() > 0;
        assert(next[i].damaged && next[i].recs.len() > 0);
    }
    if damage_ahead(next) {
        let i = choose|i: int|
            0 <= i < next.len() && (#[trigger] next[i]).damaged && next[i].recs.len() > 0;
        assert(runs[i].damaged && runs[i].recs.len() > 0);
    }
}

proof fn lemma_damage_gather(runs: Seq<Run>, pw: Seq<u8>, total: u64)
    ensures
        gather(runs, pw, total).intact ==> (damage_ahead(runs) <==> damage_ahead(
            gather(runs, pw, total).rest,
        )),
        !gather(runs, pw, total).intact ==> damage_ahead(runs),
    decreases remaining(runs),
{
    let f = front(MergeOrder::ByPassword, runs);
    lemma_front(MergeOrder::ByPassword, runs);
    if f < 0 || runs[f].recs[0].pw != pw {
    } else if breaks_off(runs[f]) {
        assert(runs[f].damaged);
    } else {
        lemma_remaining_advance(runs, f);
        lemma_damage_advance(runs, f);
        lemma_damage_gather(advance(runs, f), pw, wrap64(total + (runs[f].recs[0].key as u64)));
    }
}

proof fn lemma_merged_damage(runs: Seq<Run>)
    ensures
        merged(runs).intact <==> !damage_ahead(runs),
    decreases remaining(runs),
{
    let f = front(MergeOrder::ByPassword, runs);
    lemma_front(MergeOrder::ByPassword, runs);
    lemma_merged_step(runs);
    if f >= 0 {
        if breaks_off(runs[f]) {
            assert(runs[f].damaged);
        } else {
            let first = runs[f].recs[0];
            lemma_damage_advance(runs, f);
            lemma_damage_gather(advance(runs, f), first.pw, first.key as u64);
            if let Step::Emit { pw, count, rest } = step(runs) {
                lemma_merged_damage(rest);
            }
        }
    }
}

proof fn lemma_drained_damage(runs: Seq<Run>)
    ensures
        drained(runs).intact <==> !damage_ahead(runs),
    decreases remaining(runs),
{
    let f = front(MergeOrder::ByRecord, runs);
    lemma_front(MergeOrder::ByRecord, runs);
    if f >= 0 {
        if breaks_off(runs[f]) {
            assert(runs[f].damaged);
        } else {
            lemma_remaining_advance(runs, f);
            lemma_damage_advance(runs, f);
            lemma_drained_damage(advance(runs, f));
        }
    }
}

/// A merge that is driven to its end fails exactly if some run is damaged: with a damaged run among
/// them it never comes to a complete result, and without one it does. A run that is damaged before
/// its first record already fails when the merge starts.
pub proof fn lemma_merge_notices_damage(runs: Seq<Run>)
    requires
        !broken_at_start(runs),
    ensures
        merged(runs).intact <==> !any_damaged(runs),
        drained(runs).intact <==> !any_damaged(runs),
{
    lemma_merged_damage(runs);
    lemma_drained_damage(runs);
    if any_damaged(runs) {
        let i = choose|i: int| 0 <= i < runs.len() && (#[trigger] runs[i]).damaged;
        assert(runs[i].recs.len() > 0);
    }
    if damage_ahead(runs) {
        let i = choose|i: int|
            0 <= i < runs.len() && (#[trigger] runs[i]).damaged && runs[i].recs.len() > 0;
        assert(runs[i].damaged);
    }
}

/// The passwords of all records of the runs.
pub open spec fn all_pws(runs: Seq<Run>) -> Seq<Seq<u8>>
    decreases runs.len(),
{
    if runs.len() == 0 {
        Seq::empty()
    } else {
        all_pws(runs.drop_last()) + rec_pws(runs.last().recs)
    }
}

proof fn lemma_all_pws(runs: Seq<Run>)
    ensures
        all_pws(runs).len() == remaining(runs),
        forall|pw: Seq<u8>| #[trigger]
            all_pws(runs).contains(pw) <==> total_counts(runs).contains_key(pw),
    decreases runs.len(),
{
    if runs.len() > 0 {
        let a = all_pws(runs.drop_last());
        let b = rec_pws(runs.last().recs);
        let entries = rec_entries(runs.last().recs);
        lemma_all_pws(runs.drop_last());
        assert forall|pw: Seq<u8>| #[trigger]
            all_pws(runs).contains(pw) <==> total_counts(runs).contains_key(pw) by {
            lemma_tally_dom(entries, pw);
            if all_pws(runs).contains(pw) {
                let i = choose|i: int| 0 <= i < (a + b).len() && (a + b)[i] == pw;
                if i < a.len() {
                    assert(a.contains(a[i]));
                } else {
                    assert(entries[i - a.len()].0 == pw);
                }
            }
            if total_counts(runs.drop_last()).contains_key(pw) {
                assert(a.contains(pw));
                let i = choose|i: int| 0 <= i < a.len() && a[i] == pw;
                assert((a + b)[i] == pw);
            }
            if tally(entries).contains_key(pw) {
                let k = choose|k: int| 0 <= k < entries.len() && (#[trigger] entries[k]).0 == pw;
                assert((a + b)[a.len() + k] == pw);
            }
        }
    }
}

/// Merging gives as many passwords as the runs have records exactly if no password is in two
/// records.
proof fn lemma_merged_len(runs: Seq<Run>)
    requires
        counting_runs(runs),
    ensures
        merged(runs).items.len() == remaining(runs) <==> all_pws(runs).no_duplicates(),
{
    let items = merged(runs).items;
    let pws = all_pws(runs);
    lemma_merged_counts(runs);
    lemma_all_pws(runs);
    lemma_listing_len(items, total_counts(runs));
    assert(pws.to_set() =~= total_counts(runs).dom());
    if pws.no_duplicates() {
        pws.unique_seq_to_set();
    }
    if items.len() == remaining(runs) {
        pws.lemma_no_dup_set_cardinality();
    }
}

proof fn lemma_headers_of_undamaged(bytes: Seq<Seq<u8>>)
    requires
        counting_runs(runs_of(bytes)),
    ensures
        total_headers(bytes) == remaining(runs_of(bytes)),
    decreases bytes.len(),
{
    if bytes.len() > 0 {
        let runs = runs_of(bytes);
        let shorter = runs_of(bytes.drop_last());
        assert(runs.drop_last() =~= shorter);
        assert forall|i: int| 0 <= i < shorter.len() implies !(#[trigger] shorter[i]).damaged
            && sorted_by_pw(shorter[i].recs) by {
            assert(shorter[i] == runs[i]);
        }
        lemma_headers_of_undamaged(bytes.drop_last());
        lemma_header_count_bounds(bytes.last());
        assert(!runs[runs.len() - 1].damaged);
    }
}

/// Counting the records of undamaged, sorted runs by their headers gives the number of records. It
/// is the number of distinct passwords exactly if no password is in two records; without runs it is
/// zero.
pub proof fn lemma_headers_count_records(bytes: Seq<Seq<u8>>)
    requires
        counting_runs(runs_of(bytes)),
    ensures
        total_headers(bytes) == all_pws(runs_of(bytes)).len(),
        total_headers(bytes) >= merged(runs_of(bytes)).items.len(),
        total_headers(bytes) == merged(runs_of(bytes)).items.len() <==> all_pws(
            runs_of(bytes),
        ).no_duplicates(),
        bytes.len() == 0 ==> total_headers(bytes) == 0,
{
    lemma_headers_of_undamaged(bytes);
    lemma_headers_bound_passwords(bytes);
    lemma_all_pws(runs_of(bytes));
    lemma_merged_len(runs_of(bytes));
}

/// The runs as if none were damaged.
pub open spec fn healed(runs: Seq<Run>) -> Seq<Run> {
    runs.map_values(|r: Run| Run { recs: r.recs, damaged: false })
}

proof fn lemma_healed_front(order: MergeOrder, runs: Seq<Run>)
    ensures
        front(order, healed(runs)) == front(order, runs),
    decreases runs.len(),
{
    if runs.len() > 0 {
        lemma_healed_front(order, runs.drop_last());
        lemma_front(order, runs.drop_last());
        assert(healed(runs).drop_last() =~= healed(runs.drop_last()));
    }
}

proof fn lemma_healed_advance(runs: Seq<Run>, f: int)
    requires
        0 <= f < runs.len(),
    ensures
        healed(advance(runs, f)) == advance(healed(runs), f),
{
    assert(healed(advance(runs, f)) =~= advance(healed(runs), f));
}

/// Records were taken off without meeting damage: what is left of a run ends as the run did, and a
/// damaged run still has a record.
spec fn taken_off(runs: Seq<Run>, rest: Seq<Run>) -> bool {
    &&& rest.len() == runs.len()
    &&& forall|i: int|
        0 <= i < runs.len() ==> {
            &&& (#[trigger] rest[i]).damaged == runs[i].damaged
            &&& rest[i].recs.len() > 0 ==> runs[i].recs.len() > 0 && rest[i].recs.last()
                == runs[i].recs.last()
            &&& runs[i].damaged && runs[i].recs.len() > 0 ==> rest[i].recs.len() > 0
        }
}

proof fn lemma_taken_off_one(runs: Seq<Run>, f: int)
    requires
        0 <= f < runs.len(),
        runs[f].recs.len() > 0,
        !breaks_off(runs[f]),
    ensures
        taken_off(runs, advance(runs, f)),
{
}

proof fn lemma_taken_off_more(a: Seq<Run>, b: Seq<Run>, c: Seq<Run>)
    requires
        taken_off(a, b),
        taken_off(b, c),
    ensures
        taken_off(a, c),
{
    assert forall|i: int| 0 <= i < a.len() implies {
        &&& (#[trigger] c[i]).damaged == a[i].damaged
        &&& c[i].recs.len() > 0 ==> a[i].recs.len() > 0 && c[i].recs.last() == a[i].recs.last()
        &&& a[i].damaged && a[i].recs.len() > 0 ==> c[i].recs.len() > 0
    } by {
        assert(b[i].damaged == a[i].damaged);
        assert(c[i].damaged == b[i].damaged);
    }
}

/// A damaged run ends in a record for which `what` holds.
spec fn damage_behind(runs: Seq<Run>, what: spec_fn(Rec) -> bool) -> bool {
    exists|i: int|
        0 <= i < runs.len() && (#[trigger] runs[i]).damaged && runs[i].recs.len() > 0 && what(
            runs[i].recs.last(),
        )
}

/// Every damaged run that has a record ends in one for which `what` holds.
spec fn all_damage_behind(runs: Seq<Run>, what: spec_fn(Rec) -> bool) -> bool {
    forall|i: int|
        0 <= i < runs.len() && (#[trigger] runs[i]).damaged && runs[i].recs.len() > 0 ==> what(
            runs[i].recs.last(),
        )
}

proof fn lemma_damage_carries(runs: Seq<Run>, rest: Seq<Run>, what: spec_fn(Rec) -> bool)
    requires
        taken_off(runs, rest),
    ensures
        damage_behind(rest, what) ==> damage_behind(runs, what),
        all_damage_behind(rest, what) ==> all_damage_behind(runs, what),
{
    if damage_behind(rest, what) {
        let i = choose|i: int|
            0 <= i < rest.len() && (#[trigger] rest[i]).damaged && rest[i].recs.len() > 0 && what(
                rest[i].recs.last(),
            );
        assert(runs[i].damaged && runs[i].recs.len() > 0 && what(runs[i].recs.last()));
    }
    if all_damage_behind(rest, what) {
        assert forall|i: int|
            0 <= i < runs.len() && (#[trigger] runs[i]).damaged && runs[i].recs.len()
                > 0 implies what(runs[i].recs.last()) by {
            assert(rest[i].damaged && rest[i].recs.len() > 0);
        }
    }
}

proof fn lemma_gather_healed(runs: Seq<Run>, pw: Seq<u8>, total: u64)
    ensures
        ({
            let g = gather(runs, pw, total);
            let h = gather(healed(runs), pw, total);
            &&& h.intact
            &&& g.intact ==> h.total == g.total && h.rest == healed(g.rest) && taken_off(
                runs,
                g.rest,
            )
            &&& !g.intact ==> damage_behind(runs, |r: Rec| r.pw == pw)
        }),
    decreases remaining(runs),
{
    let f = front(MergeOrder::ByPassword, runs);
    let what = |r: Rec| r.pw == pw;
    lemma_front(MergeOrder::ByPassword, runs);
    lemma_healed_front(MergeOrder::ByPassword, runs);
    if f >= 0 && runs[f].recs[0].pw == pw {
        let sum = wrap64(total + (runs[f].recs[0].key as u64));
        let next = advance(runs, f);
        lemma_remaining_advance(runs, f);
        lemma_healed_remaining(runs);
        lemma_remaining_advance(healed(runs), f);
        lemma_healed_advance(runs, f);
        lemma_gather_healed(next, pw, sum);
        assert(!breaks_off(healed(runs)[f]));
        if breaks_off(runs[f]) {
            assert(what(runs[f].recs.last()));
        } else {
            lemma_taken_off_one(runs, f);
            lemma_damage_carries(runs, next, what);
            if gather(next, pw, sum).intact {
                lemma_taken_off_more(runs, next, gather(next, pw, sum).rest);
            }
        }
    }
}

proof fn lemma_healed_remaining(runs: Seq<Run>)
    ensures
        remaining(healed(runs)) == remaining(runs),
    decreases runs.len(),
{
    if runs.len() > 0 {
        lemma_healed_remaining(runs.drop_last());
        assert(healed(runs).drop_last() =~= healed(runs.drop_last()));
    }
}

/// The runs are sorted by password, damaged or not.
pub open spec fn runs_by_pw(runs: Seq<Run>) -> bool {
    forall|i: int| 0 <= i < runs.len() ==> sorted_by_pw((#[trigger] runs[i]).recs)
}

/// Up to where damage is met, merging gives what it would give without it: all passwords before the
/// first that is the last whole one of a damaged run, and nothing from there on.
pub proof fn lemma_damaged_merge(runs: Seq<Run>)
    requires
        runs_by_pw(runs),
    ensures
        ({
            let m = merged(runs);
            let all = merged(healed(runs)).items;
            let n = m.items.len() as int;
            &&& n <= all.len()
            &&& m.items == all.take(n)
            &&& m.intact ==> n == all.len()
            &&& !m.intact ==> n < all.len() && (exists|i: int|
                0 <= i < runs.len() && (#[trigger] runs[i]).damaged && runs[i].recs.len() > 0
                    && runs[i].recs.last().pw == all[n].0)
            &&& !m.intact ==> forall|i: int|
                0 <= i < runs.len() && (#[trigger] runs[i]).damaged && runs[i].recs.len() > 0
                    ==> bytes_le(all[n].0, runs[i].recs.last().pw)
        }),
    decreases remaining(runs),
{
    let h = healed(runs);
    let f = front(MergeOrder::ByPassword, runs);
    let m = merged(runs);
    let all = merged(h).items;
    assert(counting_runs(h)) by {
        assert forall|i: int| 0 <= i < h.len() implies !(#[trigger] h[i]).damaged && sorted_by_pw(
            h[i].recs,
        ) by {
            assert(sorted_by_pw(runs[i].recs));
        }
    }
    lemma_front(MergeOrder::ByPassword, runs);
    lemma_healed_front(MergeOrder::ByPassword, runs);
    lemma_merged_step(runs);
    lemma_merged_step(h);
    if f < 0 {
        assert(m.items =~= all.take(0));
    } else {
        let first = runs[f].recs[0];
        let next = advance(runs, f);
        let n0 = first.key as u64;
        let here = |r: Rec| r.pw == first.pw;
        let behind = |r: Rec| bytes_le(first.pw, r.pw);
        lemma_front_is_least(h);
        lemma_healed_advance(runs, f);
        lemma_gather_healed(next, first.pw, n0);
        assert(!breaks_off(h[f]));
        assert(step(h) is Emit);
        assert(all.len() > 0 && all[0].0 == first.pw);
        assert(all_damage_behind(runs, behind)) by {
            assert forall|i: int|
                0 <= i < runs.len() && (#[trigger] runs[i]).damaged && runs[i].recs.len()
                    > 0 implies behind(runs[i].recs.last()) by {
                assert(bytes_le(first.pw, h[i].recs[runs[i].recs.len() - 1].pw));
            }
        }
        if breaks_off(runs[f]) {
            assert(m.items =~= all.take(0));
            assert(runs[f].recs.last().pw == all[0].0);
        } else {
            lemma_taken_off_one(runs, f);
            let g = gather(next, first.pw, n0);
            if !g.intact {
                lemma_damage_carries(runs, next, here);
                assert(damage_behind(runs, here));
                assert(m.items =~= all.take(0));
            } else {
                lemma_taken_off_more(runs, next, g.rest);
                lemma_gather_counts(advance(h, f), first.pw, n0);
                assert(runs_by_pw(g.rest)) by {
                    assert forall|i: int| 0 <= i < g.rest.len() implies sorted_by_pw(
                        (#[trigger] g.rest[i]).recs,
                    ) by {
                        assert(sorted_by_pw(healed(g.rest)[i].recs));
                    }
                }
                lemma_damaged_merge(g.rest);
                let tail = merged(g.rest);
                let rest_all = merged(healed(g.rest)).items;
                let k = tail.items.len() as int;
                assert(all == seq![(first.pw, g.total)] + rest_all);
                assert(m.items == seq![(first.pw, g.total)] + tail.items);
                assert(m.items =~= all.take(k + 1));
                if !m.intact {
                    assert(all[k + 1] == rest_all[k]);
                    let stop = rest_all[k].0;
                    let at = |r: Rec| r.pw == stop;
                    let from = |r: Rec| bytes_le(stop, r.pw);
                    assert(damage_behind(g.rest, at)) by {
                        let i = choose|i: int|
                            0 <= i < g.rest.len() && (#[trigger] g.rest[i]).damaged
                                && g.rest[i].recs.len() > 0 && g.rest[i].recs.last().pw == stop;
                        assert(at(g.rest[i].recs.last()));
                    }
                    assert(all_damage_behind(g.rest, from));
                    lemma_damage_carries(runs, g.rest, at);
                    lemma_damage_carries(runs, g.rest, from);
                    let i = choose|i: int|
                        0 <= i < runs.len() && (#[trigger] runs[i]).damaged && runs[i].recs.len()
                            > 0 && at(runs[i].recs.last());
                    assert(runs[i].recs.last().pw == all[k + 1].0);
                    assert forall|i: int|
                        0 <= i < runs.len() && (#[trigger] runs[i]).damaged && runs[i].recs.len()
                            > 0 implies bytes_le(all[k + 1].0, runs[i].recs.last().pw) by {
                        assert(from(runs[i].recs.last()));
                    }
                }
            }
        }
    }
}

/// Up to where damage is met, handing records out in order gives what it would give without it: the
/// last that comes out is the last whole one of a damaged run, and none comes out behind it.
pub proof fn lemma_damaged_drain(runs: Seq<Run>)
    ensures
        ({
            let d = drained(runs);
            let all = drained(healed(runs)).recs;
            let n = d.recs.len() as int;
            &&& n <= all.len()
            &&& d.recs == all.take(n)
            &&& d.intact ==> n == all.len()
            &&& !d.intact ==> n > 0 && exists|i: int|
                0 <= i < runs.len() && (#[trigger] runs[i]).damaged && runs[i].recs.len() > 0
                    && runs[i].recs.last() == all[n - 1]
        }),
    decreases remaining(runs),
{
    let h = healed(runs);
    let f = front(MergeOrder::ByRecord, runs);
    let d = drained(runs);
    let all = drained(h).recs;
    lemma_front(MergeOrder::ByRecord, runs);
    lemma_healed_front(MergeOrder::ByRecord, runs);
    if f < 0 {
        assert(d.recs =~= all.take(0));
    } else {
        let first = runs[f].recs[0];
        let next = advance(runs, f);
        lemma_remaining_advance(runs, f);
        lemma_remaining_advance(h, f);
        lemma_healed_advance(runs, f);
        assert(!breaks_off(h[f]));
        let rest_all = drained(healed(next)).recs;
        assert(all == seq![first] + rest_all);
        if breaks_off(runs[f]) {
            assert(d.recs =~= all.take(1));
            assert(runs[f].recs.last() == all[0]);
        } else {
            lemma_damaged_drain(next);
            let tail = drained(next);
            let k = tail.recs.len() as int;
            assert(d.recs =~= all.take(k + 1));
            if !d.intact {
                let stop = rest_all[k - 1];
                assert(all[k] == stop);
                let at = |r: Rec| r == stop;
                lemma_taken_off_one(runs, f);
                assert(damage_behind(next, at)) by {
                    let i = choose|i: int|
                        0 <= i < next.len() && (#[trigger] next[i]).damaged && next[i].recs.len()
                            > 0 && next[i].recs.last() == stop;
                    assert(at(next[i].recs.last()));
                }
                lemma_damage_carries(runs, next, at);
                let i = choose|i: int|
                    0 <= i < runs.len() && (#[trigger] runs[i]).damaged && runs[i].recs.len() > 0
                        && at(runs[i].recs.last());
                assert(runs[i].recs.last() == all[k]);
            }
        }
    }
}

} // verus!
