//! The dictionary does not depend on how it was made: in memory, from spilled runs, or with the
//! runs merged in groups first.

use vstd::prelude::*;

use crate::bytes::{bytes_le, bytes_lt};
use crate::codec::{decode_recs, encode_recs, lemma_decode_encode};
use crate::counted_merge::{
    counting_runs, lemma_merged_counts, rec_entries, sorted_by_pw, strictly_rising, total_counts,
};
use crate::dedup::{item_pws, items_lines, items_run, merged};
use crate::external::{lemma_pieces_are_all, read_pieces};
use crate::index::{dictionary_key, lists_records};
use crate::line::{
    lemma_lines_read_back, lemma_passwords_read_back, passwords_in, reads_back,
};
use crate::merge::{run_of, runs_of, Run};
use crate::premerge::joined;
use crate::record::{lemma_sorted_recs_unique, rec_le, sorted_recs, Rec};
use crate::sort::{are_cuts, cut, drained, rec_pws, recs_lines};
use crate::sorted_merge::{
    cut_pieces, lemma_cuts_join, lemma_external_sort, piece_runs, pieces_sorted,
};
use crate::spill::sorted_entries;
use crate::tally::{
    add_counts, counts_of, entry_rec, entry_recs, freq_key, lemma_add_counts_laws,
    lemma_count_of_key, lemma_most_common_first, lists, tally, Counts,
};

verus! {

broadcast use crate::bytes::group_bytes_le;

/// Two sequences without repetitions that have the same items have them equally often.
proof fn lemma_same_bag<A>(a: Seq<A>, b: Seq<A>)
    requires
        a.no_duplicates(),
        b.no_duplicates(),
        forall|x: A| #[trigger] a.contains(x) <==> b.contains(x),
    ensures
        a.to_multiset() == b.to_multiset(),
{
    broadcast use vstd::seq_lib::group_to_multiset_ensures;
    broadcast use vstd::multiset::group_multiset_axioms;

    a.lemma_multiset_has_no_duplicates();
    b.lemma_multiset_has_no_duplicates();
    assert forall|x: A| a.to_multiset().count(x) == b.to_multiset().count(x) by {
        assert(a.contains(x) <==> b.contains(x));
    }
    assert(a.to_multiset() =~= b.to_multiset());
}

/// The records that counts become in the dictionary.
pub open spec fn dictionary_recs(items: Seq<(Seq<u8>, u64)>, by_frequency: bool) -> Seq<Rec> {
    items.map_values(|e: (Seq<u8>, u64)| Rec { key: dictionary_key(e.1, by_frequency), pw: e.0 })
}

/// Two lists of the same counts become the same records.
proof fn lemma_dictionary_bag(
    s: Seq<Rec>,
    items: Seq<(Seq<u8>, u64)>,
    m: Counts,
    by_frequency: bool,
)
    requires
        lists_records(s, m, by_frequency),
        lists(items, m),
    ensures
        s.to_multiset() == dictionary_recs(items, by_frequency).to_multiset(),
{
    let t = dictionary_recs(items, by_frequency);
    assert forall|r: Rec| #[trigger] s.contains(r) <==> t.contains(r) by {
        if s.contains(r) {
            let i = choose|i: int| 0 <= i < s.len() && s[i] == r;
            assert(m.contains_key(s[i].pw));
            let k = choose|k: int| 0 <= k < items.len() && (#[trigger] items[k]).0 == r.pw;
            assert(t[k] == r);
        }
        if t.contains(r) {
            let k = choose|k: int| 0 <= k < t.len() && t[k] == r;
            assert(m.contains_key(items[k].0));
            let i = choose|i: int| 0 <= i < s.len() && (#[trigger] s[i]).pw == r.pw;
            assert(s[i] == r);
        }
    }
    assert forall|i: int, j: int| 0 <= i < s.len() && 0 <= j < s.len() && i != j implies s[i]
        != s[j] by {
        if i < j {
            assert(s[i].pw != s[j].pw);
        } else {
            assert(s[j].pw != s[i].pw);
        }
    }
    assert forall|i: int, j: int| 0 <= i < t.len() && 0 <= j < t.len() && i != j implies t[i]
        != t[j] by {
        if i < j {
            assert(items[i].0 != items[j].0);
        } else {
            assert(items[j].0 != items[i].0);
        }
    }
    lemma_same_bag(s, t);
}

/// Sorting the records of counts leaves them records of the same counts.
pub proof fn lemma_records_reordered(a: Seq<Rec>, b: Seq<Rec>, m: Counts, by_frequency: bool)
    requires
        lists_records(a, m, by_frequency),
        a.to_multiset() == b.to_multiset(),
    ensures
        lists_records(b, m, by_frequency),
{
    broadcast use vstd::seq_lib::group_to_multiset_ensures;
    broadcast use vstd::multiset::group_multiset_axioms;

    assert forall|r: Rec| a.contains(r) <==> b.contains(r) by {
        assert(a.contains(r) <==> a.to_multiset().count(r) > 0);
        assert(b.contains(r) <==> b.to_multiset().count(r) > 0);
    }
    assert forall|i: int, j: int| 0 <= i < a.len() && 0 <= j < a.len() && i != j implies a[i]
        != a[j] by {
        if i < j {
            assert(a[i].pw != a[j].pw);
        } else {
            assert(a[j].pw != a[i].pw);
        }
    }
    a.lemma_multiset_has_no_duplicates();
    b.lemma_multiset_has_no_duplicates_conv();
    assert forall|i: int| 0 <= i < b.len() implies m.contains_key((#[trigger] b[i]).pw)
        && b[i].key == dictionary_key(m[b[i].pw], by_frequency) by {
        assert(b.contains(b[i]));
        let k = choose|k: int| 0 <= k < a.len() && a[k] == b[i];
        assert(m.contains_key(a[k].pw));
    }
    assert forall|i: int, j: int| 0 <= i < j < b.len() implies (#[trigger] b[i]).pw
        != (#[trigger] b[j]).pw by {
        if b[i].pw == b[j].pw {
            assert(b[i] == b[j]);
        }
    }
    assert forall|pw: Seq<u8>| #[trigger] m.contains_key(pw) implies exists|i: int|
        0 <= i < b.len() && (#[trigger] b[i]).pw == pw by {
        let k = choose|k: int| 0 <= k < a.len() && (#[trigger] a[k]).pw == pw;
        assert(a.contains(a[k]));
        assert(b.contains(a[k]));
        let i = choose|i: int| 0 <= i < b.len() && b[i] == a[k];
        assert(b[i].pw == pw);
    }
}

/// Sorted records of the same counts give the dictionary that merging counting runs gives.
pub proof fn lemma_unique_dictionary(s: Seq<Rec>, items: Seq<(Seq<u8>, u64)>, m: Counts)
    requires
        sorted_recs(s),
        lists_records(s, m, false),
        strictly_rising(items),
        lists(items, m),
    ensures
        recs_lines(s) == items_lines(items),
{
    let t = dictionary_recs(items, false);
    assert forall|i: int, j: int| 0 <= i <= j < t.len() implies rec_le(
        #[trigger] t[i],
        #[trigger] t[j],
    ) by {
        if i < j {
            assert(bytes_lt(items[i].0, items[j].0));
        }
    }
    lemma_dictionary_bag(s, items, m, false);
    lemma_sorted_recs_unique(s, t);
    assert(rec_pws(t) =~= item_pws(items));
}

/// A dictionary sorted by frequency has the more common password first, and passwords that are
/// equally common in rising order, as long as counts are below 2^63.
pub proof fn lemma_frequency_order(s: Seq<Rec>, m: Counts, i: int, j: int)
    requires
        sorted_recs(s),
        lists_records(s, m, true),
        0 <= i < j < s.len(),
        m[s[i].pw] <= i64::MAX,
        m[s[j].pw] <= i64::MAX,
    ensures
        m[s[i].pw] > m[s[j].pw] || (m[s[i].pw] == m[s[j].pw] && bytes_lt(s[i].pw, s[j].pw)),
{
    assert(rec_le(s[i], s[j]));
    assert(s[i].pw != s[j].pw);
    assert(s[i].key == freq_key(m[s[i].pw]));
    assert(s[j].key == freq_key(m[s[j].pw]));
    lemma_most_common_first(m[s[i].pw], m[s[j].pw]);
}

/// A dictionary of unique passwords has them in strictly rising order.
pub proof fn lemma_unique_order(s: Seq<Rec>, m: Counts, i: int, j: int)
    requires
        sorted_recs(s),
        lists_records(s, m, false),
        0 <= i < j < s.len(),
    ensures
        bytes_lt(s[i].pw, s[j].pw),
{
    assert(rec_le(s[i], s[j]));
    assert(s[i].pw != s[j].pw);
}

/// Only one list of the same counts is in strictly rising order.
pub proof fn lemma_rising_listing_unique(
    a: Seq<(Seq<u8>, u64)>,
    b: Seq<(Seq<u8>, u64)>,
    m: Counts,
)
    requires
        strictly_rising(a),
        lists(a, m),
        strictly_rising(b),
        lists(b, m),
    ensures
        a == b,
    decreases a.len(),
{
    lemma_same_listing_bag(a, b, m);
    let leq = |x: (Seq<u8>, u64), y: (Seq<u8>, u64)|
        bytes_lt(x.0, y.0) || (x.0 == y.0 && x.1 <= y.1);
    assert(vstd::relations::sorted_by(a, leq)) by {
        assert forall|i: int, j: int| 0 <= i < j < a.len() implies #[trigger] leq(a[i], a[j]) by {
            assert(bytes_lt(a[i].0, a[j].0));
        }
    }
    assert(vstd::relations::sorted_by(b, leq)) by {
        assert forall|i: int, j: int| 0 <= i < j < b.len() implies #[trigger] leq(b[i], b[j]) by {
            assert(bytes_lt(b[i].0, b[j].0));
        }
    }
    vstd::seq_lib::lemma_sorted_unique(a, b, leq);
}

proof fn lemma_same_listing_bag(
    a: Seq<(Seq<u8>, u64)>,
    b: Seq<(Seq<u8>, u64)>,
    m: Counts,
)
    requires
        lists(a, m),
        lists(b, m),
    ensures
        a.to_multiset() == b.to_multiset(),
{
    lemma_listing_distinct(a, m);
    lemma_listing_distinct(b, m);
    assert forall|e: (Seq<u8>, u64)| #[trigger] a.contains(e) <==> b.contains(e) by {
        if a.contains(e) {
            let i = choose|i: int| 0 <= i < a.len() && a[i] == e;
            assert(m.contains_key(a[i].0));
            let k = choose|k: int| 0 <= k < b.len() && (#[trigger] b[k]).0 == e.0;
            assert(b[k] == e);
        }
        if b.contains(e) {
            let i = choose|i: int| 0 <= i < b.len() && b[i] == e;
            assert(m.contains_key(b[i].0));
            let k = choose|k: int| 0 <= k < a.len() && (#[trigger] a[k]).0 == e.0;
            assert(a[k] == e);
        }
    }
    lemma_same_bag(a, b);
}

proof fn lemma_listing_distinct(a: Seq<(Seq<u8>, u64)>, m: Counts)
    requires
        lists(a, m),
    ensures
        a.no_duplicates(),
{
    assert forall|i: int, j: int| 0 <= i < a.len() && 0 <= j < a.len() && i != j implies a[i]
        != a[j] by {
        if i < j {
            assert(a[i].0 != a[j].0);
        } else {
            assert(a[j].0 != a[i].0);
        }
    }
}

/// Reading a run of counts back gives the counts.
proof fn lemma_counts_read_back(items: Seq<(Seq<u8>, u64)>)
    ensures
        rec_entries(entry_recs(items, false)) == items,
{
    assert forall|i: int| 0 <= i < items.len() implies #[trigger] rec_entries(
        entry_recs(items, false),
    )[i] == items[i] by {
        lemma_count_of_key(items[i].1);
        assert(entry_recs(items, false)[i] == entry_rec(items[i], false));
    }
    assert(rec_entries(entry_recs(items, false)) =~= items);
}

/// Every password is short enough for its length to be stored.
pub open spec fn short_pws(items: Seq<(Seq<u8>, u64)>) -> bool {
    forall|i: int| 0 <= i < items.len() ==> (#[trigger] items[i]).0.len() < 0x1_0000_0000
}

/// Counts that were spilled, one list for each run.
pub open spec fn spilled_counts(jobs: Seq<Seq<(Seq<u8>, u64)>>) -> Counts
    decreases jobs.len(),
{
    if jobs.len() == 0 {
        Map::empty()
    } else {
        add_counts(spilled_counts(jobs.drop_last()), tally(jobs.last()))
    }
}

/// The runs that spilled counts are written to.
pub open spec fn spilled_runs(jobs: Seq<Seq<(Seq<u8>, u64)>>) -> Seq<Seq<u8>> {
    jobs.map_values(|e: Seq<(Seq<u8>, u64)>| items_run(e, false))
}

/// Each list is sorted, and its passwords are short enough.
pub open spec fn spillable(jobs: Seq<Seq<(Seq<u8>, u64)>>) -> bool {
    forall|i: int|
        0 <= i < jobs.len() ==> sorted_entries(#[trigger] jobs[i]) && short_pws(jobs[i])
}

/// A written list of counts is read back as an undamaged run, sorted if the list was.
proof fn lemma_written_run(items: Seq<(Seq<u8>, u64)>)
    requires
        sorted_entries(items),
        short_pws(items),
    ensures
        run_of(items_run(items, false)) == (Run {
            recs: entry_recs(items, false),
            damaged: false,
        }),
        sorted_by_pw(entry_recs(items, false)),
{
    let s = entry_recs(items, false);
    assert forall|i: int| 0 <= i < s.len() implies (#[trigger] s[i]).pw.len() < 0x1_0000_0000 by {
        assert(items[i].0.len() < 0x1_0000_0000);
    }
    lemma_decode_encode(s);
    assert forall|i: int, j: int| 0 <= i <= j < s.len() implies bytes_le(
        (#[trigger] s[i]).pw,
        (#[trigger] s[j]).pw,
    ) by {
        assert(bytes_le(items[i].0, items[j].0));
    }
}

/// Spilled runs can be merged, and have the counts that were spilled.
pub proof fn lemma_spilled_runs(jobs: Seq<Seq<(Seq<u8>, u64)>>)
    requires
        spillable(jobs),
    ensures
        counting_runs(runs_of(spilled_runs(jobs))),
        total_counts(runs_of(spilled_runs(jobs))) == spilled_counts(jobs),
    decreases jobs.len(),
{
    if jobs.len() > 0 {
        let shorter = jobs.drop_last();
        let last = jobs.len() - 1;
        assert forall|i: int| 0 <= i < shorter.len() implies sorted_entries(#[trigger] shorter[i])
            && short_pws(shorter[i]) by {
            assert(shorter[i] == jobs[i]);
        }
        lemma_spilled_runs(shorter);
        assert(sorted_entries(jobs[last]));
        lemma_written_run(jobs[last]);
        lemma_counts_read_back(jobs[last]);
        let runs = runs_of(spilled_runs(jobs));
        let before = runs_of(spilled_runs(shorter));
        assert(runs.drop_last() =~= before);
        assert(runs.last() == run_of(items_run(jobs[last], false)));
        assert forall|i: int| 0 <= i < runs.len() implies !(#[trigger] runs[i]).damaged
            && sorted_by_pw(runs[i].recs) by {
            if i < last {
                assert(runs[i] == before[i]);
            }
        }
    }
}

/// The dictionary of unique passwords that is merged from spilled runs is the one that would have
/// been made from the same counts in memory.
pub proof fn lemma_spilled_unique(jobs: Seq<Seq<(Seq<u8>, u64)>>, s: Seq<Rec>)
    requires
        spillable(jobs),
        sorted_recs(s),
        lists_records(s, spilled_counts(jobs), false),
    ensures
        merged(runs_of(spilled_runs(jobs))).intact,
        items_lines(merged(runs_of(spilled_runs(jobs))).items) == recs_lines(s),
{
    let runs = runs_of(spilled_runs(jobs));
    lemma_spilled_runs(jobs);
    lemma_merged_counts(runs);
    lemma_unique_dictionary(s, merged(runs).items, spilled_counts(jobs));
}

/// The dictionary by frequency that is merged from spilled runs, read back in pieces, sorted and
/// merged again is the one that would have been made from the same counts in memory.
pub proof fn lemma_spilled_frequency(
    jobs: Seq<Seq<(Seq<u8>, u64)>>,
    s: Seq<Rec>,
    chunk_len: nat,
    max_mem: nat,
    sorted: Seq<Seq<Rec>>,
)
    requires
        spillable(jobs),
        sorted_recs(s),
        lists_records(s, spilled_counts(jobs), true),
        chunk_len > 0,
        pieces_sorted(
            sorted,
            read_pieces(
                decode_recs(items_run(merged(runs_of(spilled_runs(jobs))).items, true)),
                chunk_len,
                max_mem,
            ),
        ),
    ensures
        merged(runs_of(spilled_runs(jobs))).intact,
        drained(piece_runs(sorted)).intact,
        drained(piece_runs(sorted)).recs == s,
{
    let runs = runs_of(spilled_runs(jobs));
    let items = merged(runs).items;
    let m = spilled_counts(jobs);
    lemma_spilled_runs(jobs);
    lemma_merged_counts(runs);
    let t = entry_recs(items, true);
    lemma_items_short(jobs);
    assert forall|i: int| 0 <= i < t.len() implies (#[trigger] t[i]).pw.len() < 0x1_0000_0000 by {
        assert(items[i].0.len() < 0x1_0000_0000);
    }
    lemma_decode_encode(t);
    let pieces = read_pieces(t, chunk_len, max_mem);
    lemma_pieces_are_all(t, chunk_len, max_mem);
    lemma_dictionary_bag(s, items, m, true);
    assert(dictionary_recs(items, true) =~= t);
    lemma_external_sort(sorted, pieces, s);
}

/// Passwords stay short.
proof fn lemma_items_short(jobs: Seq<Seq<(Seq<u8>, u64)>>)
    requires
        spillable(jobs),
    ensures
        short_pws(merged(runs_of(spilled_runs(jobs))).items),
{
    let runs = runs_of(spilled_runs(jobs));
    let items = merged(runs).items;
    lemma_spilled_runs(jobs);
    lemma_merged_counts(runs);
    assert forall|i: int| 0 <= i < items.len() implies (#[trigger] items[i]).0.len()
        < 0x1_0000_0000 by {
        assert(spilled_counts(jobs).contains_key(items[i].0));
        lemma_spilled_short(jobs, items[i].0);
    }
}

proof fn lemma_spilled_short(jobs: Seq<Seq<(Seq<u8>, u64)>>, pw: Seq<u8>)
    requires
        spillable(jobs),
        spilled_counts(jobs).contains_key(pw),
    ensures
        pw.len() < 0x1_0000_0000,
    decreases jobs.len(),
{
    if jobs.len() > 0 {
        let shorter = jobs.drop_last();
        let last = jobs[jobs.len() - 1];
        assert(short_pws(last));
        if tally(last).contains_key(pw) {
            crate::tally::lemma_tally_dom(last, pw);
            let i = choose|i: int| 0 <= i < last.len() && (#[trigger] last[i]).0 == pw;
            assert(last[i].0.len() < 0x1_0000_0000);
        } else {
            assert forall|i: int| 0 <= i < shorter.len() implies sorted_entries(
                #[trigger] shorter[i],
            ) && short_pws(shorter[i]) by {
                assert(shorter[i] == jobs[i]);
            }
            lemma_spilled_short(shorter, pw);
        }
    }
}

/// Sorting records in chunks that are spilled and merged gives the dictionary that sorting them all
/// in memory gives.
pub proof fn lemma_spilled_sort(
    before: Seq<Rec>,
    after: Seq<Rec>,
    cuts: Seq<usize>,
    chunk_len: int,
    all: Seq<Rec>,
)
    requires
        chunk_len > 0,
        are_cuts(cuts, before.len() as int, chunk_len),
        forall|i: int| 0 <= i < cuts.len() - 1 ==> sorted_recs(#[trigger] cut(after, cuts, i)),
        forall|i: int|
            0 <= i < cuts.len() - 1 ==> (#[trigger] cut(after, cuts, i)).to_multiset() == cut(
                before,
                cuts,
                i,
            ).to_multiset(),
        sorted_recs(all),
        all.to_multiset() == before.to_multiset(),
    ensures
        drained(piece_runs(cut_pieces(after, cuts))).intact,
        drained(piece_runs(cut_pieces(after, cuts))).recs == all,
{
    let sorted = cut_pieces(after, cuts);
    let pieces = cut_pieces(before, cuts);
    lemma_cuts_join(before, cuts, chunk_len);
    assert forall|i: int| 0 <= i < pieces.len() implies sorted_recs(#[trigger] sorted[i])
        && sorted[i].to_multiset() == pieces[i].to_multiset() by {
        assert(sorted[i] == cut(after, cuts, i));
        assert(pieces[i] == cut(before, cuts, i));
    }
    lemma_external_sort(sorted, pieces, all);
}

/// Pieces that were written as runs are read back as they were.
pub proof fn lemma_pieces_read_back(pieces: Seq<Seq<Rec>>)
    requires
        forall|i: int, k: int|
            0 <= i < pieces.len() && 0 <= k < pieces[i].len() ==> (#[trigger] pieces[i][k]).pw.len()
                < 0x1_0000_0000,
    ensures
        runs_of(pieces.map_values(|p: Seq<Rec>| encode_recs(p))) == piece_runs(pieces),
{
    let runs = runs_of(pieces.map_values(|p: Seq<Rec>| encode_recs(p)));
    assert forall|i: int| 0 <= i < pieces.len() implies #[trigger] runs[i] == piece_runs(
        pieces,
    )[i] by {
        lemma_decode_encode(pieces[i]);
    }
    assert(runs =~= piece_runs(pieces));
}

/// The runs that groups of runs are merged into.
pub open spec fn premerged(groups: Seq<Seq<Run>>) -> Seq<Run> {
    groups.map_values(
        |g: Seq<Run>| Run { recs: entry_recs(merged(g).items, false), damaged: false },
    )
}

/// Runs in two parts count as the parts do together.
proof fn lemma_total_concat(a: Seq<Run>, b: Seq<Run>)
    ensures
        total_counts(a + b) == add_counts(total_counts(a), total_counts(b)),
    decreases b.len(),
{
    if b.len() == 0 {
        assert(a + b =~= a);
        lemma_add_counts_laws(total_counts(a), Map::empty(), Map::empty());
    } else {
        lemma_total_concat(a, b.drop_last());
        assert((a + b).drop_last() =~= a + b.drop_last());
        lemma_add_counts_laws(
            total_counts(a),
            total_counts(b.drop_last()),
            tally(rec_entries(b.last().recs)),
        );
    }
}

proof fn lemma_premerged_counts(groups: Seq<Seq<Run>>)
    requires
        counting_runs(joined(groups)),
    ensures
        counting_runs(premerged(groups)),
        total_counts(premerged(groups)) == total_counts(joined(groups)),
    decreases groups.len(),
{
    if groups.len() > 0 {
        let shorter = groups.drop_last();
        let last = groups.last();
        let all = joined(groups);
        assert forall|i: int| 0 <= i < joined(shorter).len() implies !(#[trigger] joined(
            shorter,
        )[i]).damaged && sorted_by_pw(joined(shorter)[i].recs) by {
            assert(all[i] == joined(shorter)[i]);
        }
        assert forall|i: int| 0 <= i < last.len() implies !(#[trigger] last[i]).damaged
            && sorted_by_pw(last[i].recs) by {
            assert(all[joined(shorter).len() + i] == last[i]);
        }
        lemma_premerged_counts(shorter);
        lemma_merged_counts(last);
        let items = merged(last).items;
        lemma_counts_read_back(items);
        lemma_total_concat(joined(shorter), last);
        let runs = premerged(groups);
        assert(runs.drop_last() =~= premerged(shorter));
        assert(runs.last().recs == entry_recs(items, false));
        assert(sorted_by_pw(entry_recs(items, false))) by {
            let s = entry_recs(items, false);
            assert forall|i: int, j: int| 0 <= i <= j < s.len() implies bytes_le(
                (#[trigger] s[i]).pw,
                (#[trigger] s[j]).pw,
            ) by {
                if i < j {
                    assert(bytes_lt(items[i].0, items[j].0));
                }
            }
        }
        assert forall|i: int| 0 <= i < runs.len() implies !(#[trigger] runs[i]).damaged
            && sorted_by_pw(runs[i].recs) by {
            if i < runs.len() - 1 {
                assert(runs[i] == premerged(shorter)[i]);
            }
        }
    }
}

/// Merging runs in groups first does not change what the final merge gives.
pub proof fn lemma_premerge_changes_nothing(groups: Seq<Seq<Run>>)
    requires
        counting_runs(joined(groups)),
    ensures
        merged(premerged(groups)) == merged(joined(groups)),
{
    lemma_premerged_counts(groups);
    lemma_merged_counts(premerged(groups));
    lemma_merged_counts(joined(groups));
    lemma_rising_listing_unique(
        merged(premerged(groups)).items,
        merged(joined(groups)).items,
        total_counts(joined(groups)),
    );
}

/// The dictionary has every password of the input, each once, and no other.
pub proof fn lemma_dictionary_complete(s: Seq<Rec>, pws: Seq<Seq<u8>>, by_frequency: bool)
    requires
        lists_records(s, counts_of(pws), by_frequency),
    ensures
        rec_pws(s).no_duplicates(),
        forall|pw: Seq<u8>| #[trigger] rec_pws(s).contains(pw) <==> pws.contains(pw),
{
    let d = rec_pws(s);
    assert forall|i: int, j: int| 0 <= i < d.len() && 0 <= j < d.len() && i != j implies d[i]
        != d[j] by {
        if i < j {
            assert(s[i].pw != s[j].pw);
        } else {
            assert(s[j].pw != s[i].pw);
        }
    }
    assert forall|pw: Seq<u8>| #[trigger] d.contains(pw) <==> pws.contains(pw) by {
        if d.contains(pw) {
            let i = choose|i: int| 0 <= i < d.len() && d[i] == pw;
            assert(counts_of(pws).contains_key(s[i].pw));
        }
        if pws.contains(pw) {
            assert(counts_of(pws).contains_key(pw));
            let i = choose|i: int| 0 <= i < s.len() && (#[trigger] s[i]).pw == pw;
            assert(d[i] == pw);
        }
    }
}

/// A dictionary that is read as input again has the passwords it was written with.
pub proof fn lemma_dictionary_reads_back(
    s: Seq<Rec>,
    data: Seq<u8>,
    keep_trailing_colon: bool,
    by_frequency: bool,
)
    requires
        lists_records(s, counts_of(passwords_in(data, keep_trailing_colon)), by_frequency),
    ensures
        passwords_in(recs_lines(s), keep_trailing_colon) == rec_pws(s),
{
    let pws = passwords_in(data, keep_trailing_colon);
    let d = rec_pws(s);
    lemma_dictionary_complete(s, pws, by_frequency);
    lemma_passwords_read_back(data, keep_trailing_colon);
    assert forall|i: int| 0 <= i < d.len() implies reads_back(
        #[trigger] d[i],
        keep_trailing_colon,
    ) by {
        assert(d.contains(d[i]));
        let k = choose|k: int| 0 <= k < pws.len() && pws[k] == d[i];
        assert(reads_back(pws[k], keep_trailing_colon));
    }
    lemma_lines_read_back(d, keep_trailing_colon);
}

} // verus!
