//! Spilling counts: a run holds the counts sorted by password.

use std::cmp::Ordering;

use rayon::slice::ParallelSliceMut;
use vstd::prelude::*;

use crate::bytes::{bytes_le, bytes_lt, compare_bytes, Rank};
use crate::codec::{append_record, encode_recs, lemma_encode_push, write_record};
use crate::record::{recs, Record};
use crate::sort::{lemma_sum_sizes_mono, sum_sizes};
use crate::tally::{entry_rec, entry_recs, entry_views, sort_key};

verus! {

/// The entries are sorted by password.
pub open spec fn sorted_entries(s: Seq<(Seq<u8>, u64)>) -> bool {
    forall|i: int, j: int|
        0 <= i <= j < s.len() ==> bytes_le((#[trigger] s[i]).0, (#[trigger] s[j]).0)
}

/// Orders two entries by password.
pub fn entry_ordering(a: &(Vec<u8>, u64), b: &(Vec<u8>, u64)) -> (r: Ordering)
    ensures
        match r {
            Ordering::Less => bytes_lt(a.0@, b.0@),
            Ordering::Equal => a.0@ == b.0@,
            Ordering::Greater => bytes_lt(b.0@, a.0@),
        },
{
    match compare_bytes(&a.0, &b.0) {
        Rank::Before => Ordering::Less,
        Rank::Same => Ordering::Equal,
        Rank::After => Ordering::Greater,
    }
}

/// Sorts entries by password on the thread pool.
///
/// Calls `rayon`'s `par_sort_unstable_by` with [`entry_ordering`], which is a total preorder: the
/// vector then holds the same entries, sorted by password.
#[verifier::external_body]
fn par_sort_entries(entries: &mut Vec<(Vec<u8>, u64)>)
    ensures
        sorted_entries(entry_views(final(entries)@)),
        entry_views(final(entries)@).to_multiset() == entry_views(old(entries)@).to_multiset(),
{
    entries.par_sort_unstable_by(|a, b| entry_ordering(a, b));
}

/// Sorts entries by password.
pub fn sort_entries(entries: &mut Vec<(Vec<u8>, u64)>)
    ensures
        sorted_entries(entry_views(final(entries)@)),
        entry_views(final(entries)@).to_multiset() == entry_views(old(entries)@).to_multiset(),
{
    par_sort_entries(entries);
}

/// Bytes an entry is taken to need in memory besides its password.
pub const PER_ENTRY_OVERHEAD_BYTES: usize = 48;

/// Size from which on a run is written through a mapping of its file.
pub const MMAP_TEMP_FILE_THRESHOLD: u64 = 0x200_0000;

/// How a run is written.
#[derive(Clone, Copy, Debug, PartialEq, Eq, Structural)]
pub enum RunLayout {
    /// Record by record.
    Buffered,
    /// The file is given its size and filled in place.
    Mapped,
}

/// How a run of so many bytes is written.
pub open spec fn layout_for(total_size: u64) -> RunLayout {
    if total_size >= MMAP_TEMP_FILE_THRESHOLD {
        RunLayout::Mapped
    } else {
        RunLayout::Buffered
    }
}

/// Decides how a run of so many bytes is written.
pub fn plan_run(total_size: u64) -> (r: RunLayout)
    ensures
        r == layout_for(total_size),
{
    if total_size >= MMAP_TEMP_FILE_THRESHOLD {
        RunLayout::Mapped
    } else {
        RunLayout::Buffered
    }
}

/// The sizes of the passwords of `entries`, each with `overhead` bytes on top; `None` if the sum
/// does not fit. With [`PER_ENTRY_OVERHEAD_BYTES`] this is the disk space to ask for before a
/// spill, with [`HEADER_LEN`](crate::codec::HEADER_LEN) the size of the run.
pub fn entries_size(entries: &[(Vec<u8>, u64)], overhead: usize) -> (r: Option<u64>)
    ensures
        match r {
            Some(n) => n == sum_sizes(
                entry_recs(entry_views(entries@), false),
                overhead as nat,
            ),
            None => sum_sizes(entry_recs(entry_views(entries@), false), overhead as nat) > u64::MAX,
        },
{
    let ghost all = entry_recs(entry_views(entries@), false);
    let mut sum: u64 = 0;
    let mut i: usize = 0;
    while i < entries.len()
        invariant
            i <= entries@.len(),
            all == entry_recs(entry_views(entries@), false),
            sum == sum_sizes(all.take(i as int), overhead as nat),
        decreases entries@.len() - i,
    {
        proof {
            assert(all.take(i + 1).drop_last() =~= all.take(i as int));
            lemma_sum_sizes_mono(all, i + 1, overhead as nat, overhead as nat);
        }
        let len: usize = entries[i].0.len();
        match sum.checked_add(len as u64) {
            Some(s) => match s.checked_add(overhead as u64) {
                Some(t) => {
                    sum = t;
                },
                None => {
                    return None;
                },
            },
            None => {
                return None;
            },
        }
        i = i + 1;
    }
    assert(all.take(i as int) =~= all);
    Some(sum)
}

/// Appends the run of the entries to `out`. The key of a record is its count, negated if asked for.
pub fn write_entries_to_temp(entries: &[(Vec<u8>, u64)], negate_key: bool, out: &mut Vec<u8>)
    ensures
        final(out)@ == old(out)@ + encode_recs(entry_recs(entry_views(entries@), negate_key)),
{
    let ghost all = entry_recs(entry_views(entries@), negate_key);
    let mut i: usize = 0;
    assert(out@ =~= old(out)@ + encode_recs(all.take(0)));
    while i < entries.len()
        invariant
            i <= entries@.len(),
            all == entry_recs(entry_views(entries@), negate_key),
            out@ == old(out)@ + encode_recs(all.take(i as int)),
        decreases entries@.len() - i,
    {
        proof {
            let r = all[i as int];
            assert(r == entry_rec((entries@[i as int].0@, entries@[i as int].1), negate_key));
            assert(all.take(i + 1) =~= all.take(i as int).push(r));
            lemma_encode_push(all.take(i as int), r);
        }
        append_record(out, sort_key(entries[i].1, negate_key), &entries[i].0);
        assert(out@ =~= old(out)@ + encode_recs(all.take(i + 1)));
        i = i + 1;
    }
    assert(all.take(i as int) =~= all);
}

/// Appends the run of the records to `out`.
pub fn write_records_to_temp(records: &[Record], out: &mut Vec<u8>)
    ensures
        final(out)@ == old(out)@ + encode_recs(recs(records@)),
{
    let ghost all = recs(records@);
    let mut i: usize = 0;
    assert(out@ =~= old(out)@ + encode_recs(all.take(0)));
    while i < records.len()
        invariant
            i <= records@.len(),
            all == recs(records@),
            out@ == old(out)@ + encode_recs(all.take(i as int)),
        decreases records@.len() - i,
    {
        proof {
            let r = all[i as int];
            assert(all.take(i + 1) =~= all.take(i as int).push(r));
            lemma_encode_push(all.take(i as int), r);
        }
        write_record(out, &records[i]);
        assert(out@ =~= old(out)@ + encode_recs(all.take(i + 1)));
        i = i + 1;
    }
    assert(all.take(i as int) =~= all);
}

/// Entries are sorted exactly if each password is at or before the next.
pub proof fn lemma_sorted_entries_pairwise(s: Seq<(Seq<u8>, u64)>)
    ensures
        sorted_entries(s) <==> forall|i: int, j: int|
            0 <= i && j == i + 1 && j < s.len() ==> bytes_le(
                (#[trigger] s[i]).0,
                (#[trigger] s[j]).0,
            ),
{
    if forall|i: int, j: int|
        0 <= i && j == i + 1 && j < s.len() ==> bytes_le((#[trigger] s[i]).0, (#[trigger] s[j]).0) {
        assert forall|i: int, j: int| 0 <= i <= j < s.len() implies bytes_le(
            (#[trigger] s[i]).0,
            (#[trigger] s[j]).0,
        ) by {
            lemma_entries_reach(s, i, j);
        }
    }
}

proof fn lemma_entries_reach(s: Seq<(Seq<u8>, u64)>, i: int, j: int)
    requires
        forall|a: int, b: int|
            0 <= a && b == a + 1 && b < s.len() ==> bytes_le(
                (#[trigger] s[a]).0,
                (#[trigger] s[b]).0,
            ),
        0 <= i <= j < s.len(),
    ensures
        bytes_le(s[i].0, s[j].0),
    decreases j - i,
{
    broadcast use crate::bytes::group_bytes_le;

    if i < j {
        lemma_entries_reach(s, i, j - 1);
        assert(bytes_le(s[j - 1].0, s[j].0));
    }
}

/// Runs of 32 MiB and more are mapped, and smaller ones are not.
pub proof fn lemma_mapped_runs(total_size: u64)
    ensures
        layout_for(total_size) is Mapped <==> total_size >= 32 * 1024 * 1024,
        layout_for(total_size) is Buffered <==> total_size < 32 * 1024 * 1024,
{
}

} // verus!
