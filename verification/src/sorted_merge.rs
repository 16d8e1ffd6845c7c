//! Merging sorted runs of records gives all their records in sorted order.

use vstd::multiset::Multiset;
use vstd::prelude::*;

use crate::dedup::{lemma_remaining_advance, remaining};
use crate::heap::MergeOrder;
use crate::merge::{advance, front, lemma_front, Run};
use crate::premerge::joined;
use crate::record::{lemma_rec_le_total_order, lemma_sorted_recs_unique, rec_le, sorted_recs, Rec};
use crate::sort::{are_cuts, cut, cut_fits, drained};

verus! {

/// All records of the runs together.
pub open spec fn runs_bag(runs: Seq<Run>) -> Multiset<Rec>
    decreases runs.len(),
{
    if runs.len() == 0 {
        Multiset::empty()
    } else {
        runs_bag(runs.drop_last()).add(runs.last().recs.to_multiset())
    }
}

/// Each run is undamaged and sorted.
pub open spec fn sorted_runs(runs: Seq<Run>) -> bool {
    forall|i: int|
        0 <= i < runs.len() ==> !(#[trigger] runs[i]).damaged && sorted_recs(runs[i].recs)
}

/// A record of the runs is in one of them.
proof fn lemma_bag_member(runs: Seq<Run>, r: Rec)
    requires
        runs_bag(runs).count(r) > 0,
    ensures
        exists|i: int| 0 <= i < runs.len() && (#[trigger] runs[i]).recs.contains(r),
    decreases runs.len(),
{
    broadcast use vstd::seq_lib::group_to_multiset_ensures;
    broadcast use vstd::multiset::group_multiset_axioms;

    if runs.len() > 0 {
        let shorter = runs.drop_last();
        if runs.last().recs.to_multiset().count(r) > 0 {
            assert(runs[runs.len() - 1].recs.contains(r));
        } else {
            lemma_bag_member(shorter, r);
            let i = choose|i: int|
                0 <= i < shorter.len() && (#[trigger] shorter[i]).recs.contains(r);
            assert(runs[i].recs.contains(r));
        }
    }
}

/// Taking a record off a run takes it out of the bag.
proof fn lemma_bag_advance(runs: Seq<Run>, f: int)
    requires
        0 <= f < runs.len(),
        runs[f].recs.len() > 0,
    ensures
        runs_bag(runs) == runs_bag(advance(runs, f)).insert(runs[f].recs[0]),
    decreases runs.len(),
{
    broadcast use vstd::seq_lib::group_to_multiset_ensures;
    broadcast use vstd::multiset::group_multiset_axioms;

    let next = advance(runs, f);
    let first = runs[f].recs[0];
    if f == runs.len() - 1 {
        assert(next.drop_last() =~= runs.drop_last());
        assert(runs[f].recs.remove(0) =~= runs[f].recs.drop_first());
        assert(runs[f].recs.to_multiset().count(first) > 0);
        assert(runs[f].recs.to_multiset() =~= next.last().recs.to_multiset().insert(first));
    } else {
        lemma_bag_advance(runs.drop_last(), f);
        assert(next.drop_last() =~= advance(runs.drop_last(), f));
        assert(next.last() == runs.last());
    }
    assert(runs_bag(runs) =~= runs_bag(next).insert(first));
}

proof fn lemma_bag_empty(runs: Seq<Run>)
    requires
        forall|i: int| 0 <= i < runs.len() ==> (#[trigger] runs[i]).recs.len() == 0,
    ensures
        runs_bag(runs) == Multiset::<Rec>::empty(),
    decreases runs.len(),
{
    broadcast use vstd::multiset::group_multiset_axioms;
    broadcast use vstd::seq_lib::group_to_multiset_ensures;

    if runs.len() > 0 {
        let shorter = runs.drop_last();
        assert forall|i: int| 0 <= i < shorter.len() implies (#[trigger] shorter[i]).recs.len()
            == 0 by {
            assert(shorter[i] == runs[i]);
        }
        lemma_bag_empty(shorter);
        assert(runs[runs.len() - 1].recs =~= Seq::<Rec>::empty());
        assert(runs_bag(runs) =~= Multiset::<Rec>::empty());
    }
}

/// Runs stay sorted when a record is taken off.
proof fn lemma_sorted_advance(runs: Seq<Run>, f: int)
    requires
        sorted_runs(runs),
        0 <= f < runs.len(),
        runs[f].recs.len() > 0,
    ensures
        sorted_runs(advance(runs, f)),
{
    let next = advance(runs, f);
    assert forall|i: int| 0 <= i < next.len() implies !(#[trigger] next[i]).damaged && sorted_recs(
        next[i].recs,
    ) by {
        assert(!runs[i].damaged && sorted_recs(runs[i].recs));
        if i == f {
            let old_recs = runs[f].recs;
            let new_recs = next[f].recs;
            assert forall|a: int, b: int| 0 <= a <= b < new_recs.len() implies rec_le(
                #[trigger] new_recs[a],
                #[trigger] new_recs[b],
            ) by {
                assert(new_recs[a] == old_recs[a + 1]);
                assert(new_recs[b] == old_recs[b + 1]);
            }
        }
    }
}

/// Merging sorted, undamaged runs gives all their records, in sorted order.
pub proof fn lemma_drained_sorted(runs: Seq<Run>)
    requires
        sorted_runs(runs),
    ensures
        drained(runs).intact,
        sorted_recs(drained(runs).recs),
        drained(runs).recs.to_multiset() == runs_bag(runs),
    decreases remaining(runs),
{
    broadcast use vstd::seq_lib::group_to_multiset_ensures;
    broadcast use vstd::multiset::group_multiset_axioms;

    let f = front(MergeOrder::ByRecord, runs);
    lemma_front(MergeOrder::ByRecord, runs);
    if f < 0 {
        lemma_bag_empty(runs);
        assert(drained(runs).recs =~= Seq::<Rec>::empty());
        assert(drained(runs).recs.to_multiset() =~= Multiset::<Rec>::empty());
    } else {
        assert(!runs[f].damaged);
        let first = runs[f].recs[0];
        let next = advance(runs, f);
        lemma_remaining_advance(runs, f);
        lemma_sorted_advance(runs, f);
        lemma_bag_advance(runs, f);
        lemma_drained_sorted(next);
        let tail = drained(next).recs;
        let all = drained(runs).recs;
        assert(all == seq![first] + tail);
        assert(all.remove(0) =~= tail);
        assert(all.to_multiset().count(first) > 0) by {
            assert(all[0] == first);
            assert(all.contains(first));
        }
        assert(all.to_multiset() =~= runs_bag(runs));
        assert forall|r: Rec| #[trigger] runs_bag(next).count(r) > 0 implies rec_le(first, r) by {
            lemma_bag_member(next, r);
            let i = choose|i: int| 0 <= i < next.len() && (#[trigger] next[i]).recs.contains(r);
            let k = choose|k: int| 0 <= k < next[i].recs.len() && next[i].recs[k] == r;
            assert(sorted_recs(runs[i].recs));
            if i == f {
                assert(next[i].recs[k] == runs[f].recs[k + 1]);
                assert(rec_le(runs[f].recs[0], runs[f].recs[k + 1]));
            } else {
                assert(next[i] == runs[i]);
                assert(rec_le(runs[i].recs[0], runs[i].recs[k]));
                lemma_rec_le_total_order(first, runs[i].recs[0], r);
            }
        }
        assert forall|a: int, b: int| 0 <= a <= b < all.len() implies rec_le(
            #[trigger] all[a],
            #[trigger] all[b],
        ) by {
            lemma_rec_le_total_order(first, first, first);
            if a > 0 {
                assert(all[a] == tail[a - 1]);
                assert(all[b] == tail[b - 1]);
            } else if b > 0 {
                assert(all[b] == tail[b - 1]);
                assert(tail.contains(tail[b - 1]));
                assert(tail.to_multiset().count(tail[b - 1]) > 0);
            }
        }
    }
}

/// However records are spread over sorted runs, merging these gives the records as one sort of all
/// of them does.
pub proof fn lemma_merging_is_sorting(runs: Seq<Run>, sorted: Seq<Rec>)
    requires
        sorted_runs(runs),
        sorted_recs(sorted),
        sorted.to_multiset() == runs_bag(runs),
    ensures
        drained(runs).intact,
        drained(runs).recs == sorted,
{
    lemma_drained_sorted(runs);
    lemma_sorted_recs_unique(drained(runs).recs, sorted);
}

/// The runs of the pieces.
pub open spec fn piece_runs(pieces: Seq<Seq<Rec>>) -> Seq<Run> {
    pieces.map_values(|p: Seq<Rec>| Run { recs: p, damaged: false })
}

/// Each piece is sorted and has the records of its counterpart.
pub open spec fn pieces_sorted(sorted: Seq<Seq<Rec>>, pieces: Seq<Seq<Rec>>) -> bool {
    &&& sorted.len() == pieces.len()
    &&& forall|i: int|
        0 <= i < pieces.len() ==> sorted_recs(#[trigger] sorted[i]) && sorted[i].to_multiset()
            == pieces[i].to_multiset()
}

proof fn lemma_pieces_bag(sorted: Seq<Seq<Rec>>, pieces: Seq<Seq<Rec>>)
    requires
        pieces_sorted(sorted, pieces),
    ensures
        runs_bag(piece_runs(sorted)) == joined(pieces).to_multiset(),
    decreases pieces.len(),
{
    broadcast use vstd::seq_lib::group_to_multiset_ensures;
    broadcast use vstd::multiset::group_multiset_axioms;

    if pieces.len() == 0 {
        assert(joined(pieces).to_multiset() =~= Multiset::<Rec>::empty());
    } else {
        let last = pieces.len() - 1;
        let a = sorted.drop_last();
        let b = pieces.drop_last();
        assert forall|i: int| 0 <= i < b.len() implies sorted_recs(#[trigger] a[i])
            && a[i].to_multiset() == b[i].to_multiset() by {
            assert(a[i] == sorted[i]);
        }
        lemma_pieces_bag(a, b);
        assert(piece_runs(sorted).drop_last() =~= piece_runs(a));
        assert(sorted[last].to_multiset() == pieces[last].to_multiset());
        vstd::seq_lib::lemma_multiset_commutative(joined(b), pieces.last());
    }
}

/// Sorting in pieces and merging the pieces is sorting all records.
pub proof fn lemma_external_sort(sorted: Seq<Seq<Rec>>, pieces: Seq<Seq<Rec>>, all: Seq<Rec>)
    requires
        pieces_sorted(sorted, pieces),
        sorted_recs(all),
        all.to_multiset() == joined(pieces).to_multiset(),
    ensures
        drained(piece_runs(sorted)).intact,
        drained(piece_runs(sorted)).recs == all,
{
    lemma_pieces_bag(sorted, pieces);
    let runs = piece_runs(sorted);
    assert forall|i: int| 0 <= i < runs.len() implies !(#[trigger] runs[i]).damaged && sorted_recs(
        runs[i].recs,
    ) by {
        assert(sorted_recs(sorted[i]));
    }
    lemma_merging_is_sorting(runs, all);
}

/// The chunks that cuts make.
pub open spec fn cut_pieces(s: Seq<Rec>, cuts: Seq<usize>) -> Seq<Seq<Rec>> {
    Seq::new((cuts.len() - 1) as nat, |i: int| cut(s, cuts, i))
}

/// Cuts lose nothing: the chunks in a row are all records.
pub proof fn lemma_cuts_join(s: Seq<Rec>, cuts: Seq<usize>, chunk_len: int)
    requires
        chunk_len > 0,
        are_cuts(cuts, s.len() as int, chunk_len),
    ensures
        joined(cut_pieces(s, cuts)) == s,
{
    lemma_cuts_join_prefix(s, cuts, chunk_len, cuts.len() - 1);
    assert(cut_pieces(s, cuts).take(cuts.len() - 1) =~= cut_pieces(s, cuts));
    assert(s.take(s.len() as int) =~= s);
}

proof fn lemma_cuts_join_prefix(s: Seq<Rec>, cuts: Seq<usize>, chunk_len: int, k: int)
    requires
        chunk_len > 0,
        are_cuts(cuts, s.len() as int, chunk_len),
        0 <= k <= cuts.len() - 1,
    ensures
        cuts[k] <= s.len(),
        joined(cut_pieces(s, cuts).take(k)) == s.take(cuts[k] as int),
    decreases k,
{
    let pieces = cut_pieces(s, cuts);
    if k == 0 {
        assert(joined(pieces.take(0)) =~= s.take(0));
    } else {
        lemma_cuts_join_prefix(s, cuts, chunk_len, k - 1);
        assert(cut_fits(cuts, k - 1, s.len() as int, chunk_len));
        assert(pieces.take(k).drop_last() =~= pieces.take(k - 1));
        assert(pieces.take(k).last() == cut(s, cuts, k - 1));
        assert(s.take(cuts[k] as int) =~= s.take(cuts[k - 1] as int) + cut(s, cuts, k - 1));
    }
}

} // verus!
