//! Where records and lines go in a file of known size, and filling such a file in place.

use vstd::prelude::*;

use crate::bytes::{put_bytes, put_le32, put_le64};
use crate::codec::{
    encode_rec, encode_recs, lemma_encode_concat, lemma_encode_push, record_encoded_len, HEADER_LEN,
};
use crate::output::NEWLINE;
use crate::record::{recs, Rec, Record};
use crate::sort::{lemma_sum_sizes_mono, rec_pws, recs_lines, sum_sizes};
use crate::tally::{entry_rec, entry_recs, entry_views, sort_key};

verus! {

/// A run has as many bytes as its passwords, and a header for each.
pub proof fn lemma_encoded_len(s: Seq<Rec>)
    ensures
        encode_recs(s).len() == sum_sizes(s, HEADER_LEN as nat),
    decreases s.len(),
{
    if s.len() > 0 {
        lemma_encoded_len(s.drop_last());
    }
}

/// The lines of the dictionary have as many bytes as its passwords, and a line feed for each.
pub proof fn lemma_lines_len(s: Seq<Rec>)
    ensures
        recs_lines(s).len() == sum_sizes(s, 1),
    decreases s.len(),
{
    if s.len() > 0 {
        lemma_lines_len(s.drop_last());
        assert(rec_pws(s).drop_last() =~= rec_pws(s.drop_last()));
    }
}

/// The offsets at which records start, and that at which the last ends, if each takes `overhead`
/// bytes besides its password.
pub open spec fn are_offsets(offsets: Seq<usize>, s: Seq<Rec>, overhead: nat) -> bool {
    &&& offsets.len() == s.len() + 1
    &&& forall|i: int|
        0 <= i <= s.len() ==> #[trigger] offsets[i] == sum_sizes(s.take(i), overhead)
}

/// The offset behind one more password.
fn next_offset(offset: usize, pw_len: usize, overhead: usize) -> (r: Option<usize>)
    ensures
        match r {
            Some(n) => n == offset + pw_len + overhead,
            None => offset + pw_len + overhead > usize::MAX,
        },
{
    match offset.checked_add(pw_len) {
        Some(n) => n.checked_add(overhead),
        None => None,
    }
}

/// Where each record starts and the last ends, with `overhead` bytes besides each password; `None`
/// if that does not fit.
pub fn record_offsets(records: &[Record], overhead: usize) -> (r: Option<Vec<usize>>)
    ensures
        match r {
            Some(offsets) => are_offsets(offsets@, recs(records@), overhead as nat),
            None => sum_sizes(recs(records@), overhead as nat) > usize::MAX,
        },
{
    let ghost all = recs(records@);
    let mut offsets: Vec<usize> = Vec::new();
    offsets.push(0);
    let mut end: usize = 0;
    let mut i: usize = 0;
    while i < records.len()
        invariant
            i <= records@.len(),
            all == recs(records@),
            offsets@.len() == i + 1,
            end == sum_sizes(all.take(i as int), overhead as nat),
            forall|j: int|
                0 <= j <= i ==> #[trigger] offsets@[j] == sum_sizes(all.take(j), overhead as nat),
        decreases records@.len() - i,
    {
        proof {
            assert(all.take(i + 1).drop_last() =~= all.take(i as int));
            lemma_sum_sizes_mono(all, i + 1, overhead as nat, overhead as nat);
        }
        match next_offset(end, records[i].pw.len(), overhead) {
            Some(n) => {
                end = n;
            },
            None => {
                return None;
            },
        }
        offsets.push(end);
        i = i + 1;
    }
    Some(offsets)
}

/// Where each entry starts and the last ends in a run; `None` if that does not fit.
pub fn entry_offsets(entries: &[(Vec<u8>, u64)]) -> (r: Option<Vec<usize>>)
    ensures
        match r {
            Some(offsets) => are_offsets(
                offsets@,
                entry_recs(entry_views(entries@), false),
                HEADER_LEN as nat,
            ),
            None => sum_sizes(entry_recs(entry_views(entries@), false), HEADER_LEN as nat)
                > usize::MAX,
        },
{
    let ghost all = entry_recs(entry_views(entries@), false);
    let mut offsets: Vec<usize> = Vec::new();
    offsets.push(0);
    let mut end: usize = 0;
    let mut i: usize = 0;
    while i < entries.len()
        invariant
            i <= entries@.len(),
            all == entry_recs(entry_views(entries@), false),
            offsets@.len() == i + 1,
            end == sum_sizes(all.take(i as int), HEADER_LEN as nat),
            forall|j: int|
                0 <= j <= i ==> #[trigger] offsets@[j] == sum_sizes(all.take(j), HEADER_LEN as nat),
        decreases entries@.len() - i,
    {
        proof {
            assert(all.take(i + 1).drop_last() =~= all.take(i as int));
            lemma_sum_sizes_mono(all, i + 1, HEADER_LEN as nat, HEADER_LEN as nat);
        }
        match next_offset(end, entries[i].0.len(), HEADER_LEN) {
            Some(n) => {
                end = n;
            },
            None => {
                return None;
            },
        }
        offsets.push(end);
        i = i + 1;
    }
    Some(offsets)
}

/// Writes a record, given by its parts, to its place in a run, and returns where it ends.
pub fn put_record(dst: &mut [u8], start: usize, key: i64, pw: &[u8]) -> (end: usize)
    requires
        start + HEADER_LEN + pw@.len() <= old(dst)@.len(),
    ensures
        end == start + HEADER_LEN + pw@.len(),
        final(dst)@.len() == old(dst)@.len(),
        final(dst)@.take(start as int) == old(dst)@.take(start as int),
        final(dst)@.subrange(start as int, end as int) == encode_rec(Rec { key, pw: pw@ }),
        final(dst)@.skip(end as int) == old(dst)@.skip(end as int),
{
    let size: usize = dst.len();
    let end: usize = start + record_encoded_len(pw.len());
    put_le64(dst, start, key as u64);
    put_le32(dst, start + 8, ((pw.len() as u64) % 0x1_0000_0000) as u32);
    put_bytes(dst, start + HEADER_LEN, pw);
    proof {
        let r = Rec { key, pw: pw@ };
        assert(dst@.subrange(start as int, end as int) =~= encode_rec(r));
        assert(dst@.take(start as int) =~= old(dst)@.take(start as int));
        assert(dst@.skip(end as int) =~= old(dst)@.skip(end as int));
    }
    end
}

/// Writes a password and its line feed to their place, and returns where the line ends.
pub fn put_line(dst: &mut [u8], start: usize, pw: &[u8]) -> (end: usize)
    requires
        start + pw@.len() + 1 <= old(dst)@.len(),
    ensures
        end == start + pw@.len() + 1,
        final(dst)@.len() == old(dst)@.len(),
        final(dst)@.take(start as int) == old(dst)@.take(start as int),
        final(dst)@.subrange(start as int, end as int) == pw@ + seq![NEWLINE],
        final(dst)@.skip(end as int) == old(dst)@.skip(end as int),
{
    let size: usize = dst.len();
    put_bytes(dst, start, pw);
    let last: usize = start + pw.len();
    dst[last] = NEWLINE;
    let end: usize = last + 1;
    proof {
        assert(dst@.subrange(start as int, end as int) =~= pw@ + seq![NEWLINE]);
        assert(dst@.take(start as int) =~= old(dst)@.take(start as int));
        assert(dst@.skip(end as int) =~= old(dst)@.skip(end as int));
    }
    end
}

/// One piece more in a sequence that is filled from the front.
proof fn lemma_filled(before: Seq<u8>, after: Seq<u8>, start: int, end: int, piece: Seq<u8>)
    requires
        0 <= start <= end <= before.len(),
        after.len() == before.len(),
        after.take(start) == before.take(start),
        after.subrange(start, end) == piece,
    ensures
        after.take(end) == before.take(start) + piece,
{
    assert(after.take(end) =~= after.take(start) + after.subrange(start, end));
}

/// Fills `dst` with the run of the entries.
pub fn fill_entries(entries: &[(Vec<u8>, u64)], negate_key: bool, dst: &mut [u8])
    requires
        old(dst)@.len() == sum_sizes(
            entry_recs(entry_views(entries@), negate_key),
            HEADER_LEN as nat,
        ),
    ensures
        final(dst)@ == encode_recs(entry_recs(entry_views(entries@), negate_key)),
{
    let ghost all = entry_recs(entry_views(entries@), negate_key);
    let mut pos: usize = 0;
    let mut i: usize = 0;
    proof {
        assert(dst@.take(0) =~= encode_recs(all.take(0)));
    }
    while i < entries.len()
        invariant
            i <= entries@.len(),
            all == entry_recs(entry_views(entries@), negate_key),
            dst@.len() == sum_sizes(all, HEADER_LEN as nat),
            pos == sum_sizes(all.take(i as int), HEADER_LEN as nat),
            pos <= dst@.len(),
            dst@.take(pos as int) == encode_recs(all.take(i as int)),
        decreases entries@.len() - i,
    {
        let ghost before = dst@;
        let ghost start = pos as int;
        proof {
            let r = all[i as int];
            assert(r == entry_rec((entries@[i as int].0@, entries@[i as int].1), negate_key));
            assert(all.take(i + 1) =~= all.take(i as int).push(r));
            assert(all.take(i + 1).drop_last() =~= all.take(i as int));
            lemma_sum_sizes_mono(all, i + 1, HEADER_LEN as nat, HEADER_LEN as nat);
            lemma_encode_push(all.take(i as int), r);
        }
        let key: i64 = sort_key(entries[i].1, negate_key);
        pos = put_record(dst, pos, key, &entries[i].0);
        proof {
            lemma_filled(before, dst@, start, pos as int, encode_rec(all[i as int]));
        }
        i = i + 1;
    }
    proof {
        assert(all.take(i as int) =~= all);
        assert(dst@.take(pos as int) =~= dst@);
    }
}

/// Fills `dst` with the run of the records.
pub fn fill_records(records: &[Record], dst: &mut [u8])
    requires
        old(dst)@.len() == sum_sizes(recs(records@), HEADER_LEN as nat),
    ensures
        final(dst)@ == encode_recs(recs(records@)),
{
    let ghost all = recs(records@);
    let mut pos: usize = 0;
    let mut i: usize = 0;
    proof {
        assert(dst@.take(0) =~= encode_recs(all.take(0)));
    }
    while i < records.len()
        invariant
            i <= records@.len(),
            all == recs(records@),
            dst@.len() == sum_sizes(all, HEADER_LEN as nat),
            pos == sum_sizes(all.take(i as int), HEADER_LEN as nat),
            pos <= dst@.len(),
            dst@.take(pos as int) == encode_recs(all.take(i as int)),
        decreases records@.len() - i,
    {
        let ghost before = dst@;
        let ghost start = pos as int;
        proof {
            let r = all[i as int];
            assert(all.take(i + 1) =~= all.take(i as int).push(r));
            assert(all.take(i + 1).drop_last() =~= all.take(i as int));
            lemma_sum_sizes_mono(all, i + 1, HEADER_LEN as nat, HEADER_LEN as nat);
            lemma_encode_push(all.take(i as int), r);
        }
        pos = put_record(dst, pos, records[i].key, &records[i].pw);
        proof {
            lemma_filled(before, dst@, start, pos as int, encode_rec(all[i as int]));
        }
        i = i + 1;
    }
    proof {
        assert(all.take(i as int) =~= all);
        assert(dst@.take(pos as int) =~= dst@);
    }
}

/// Fills `dst` with the lines of the records.
pub fn fill_lines(records: &[Record], dst: &mut [u8])
    requires
        old(dst)@.len() == sum_sizes(recs(records@), 1),
    ensures
        final(dst)@ == recs_lines(recs(records@)),
{
    let ghost all = recs(records@);
    let mut pos: usize = 0;
    let mut i: usize = 0;
    proof {
        assert(dst@.take(0) =~= recs_lines(all.take(0)));
    }
    while i < records.len()
        invariant
            i <= records@.len(),
            all == recs(records@),
            dst@.len() == sum_sizes(all, 1),
            pos == sum_sizes(all.take(i as int), 1),
            pos <= dst@.len(),
            dst@.take(pos as int) == recs_lines(all.take(i as int)),
        decreases records@.len() - i,
    {
        let ghost before = dst@;
        let ghost start = pos as int;
        proof {
            let r = all[i as int];
            let taken = all.take(i as int);
            assert(all.take(i + 1) =~= taken.push(r));
            assert(all.take(i + 1).drop_last() =~= taken);
            lemma_sum_sizes_mono(all, i + 1, 1, 1);
            assert(rec_pws(taken.push(r)).drop_last() =~= rec_pws(taken));
        }
        pos = put_line(dst, pos, &records[i].pw);
        proof {
            let piece = all[i as int].pw + seq![NEWLINE];
            lemma_filled(before, dst@, start, pos as int, piece);
            assert(recs_lines(all.take(i + 1)) =~= recs_lines(all.take(i as int)) + piece);
        }
        i = i + 1;
    }
    proof {
        assert(all.take(i as int) =~= all);
        assert(dst@.take(pos as int) =~= dst@);
    }
}

/// Lines in two parts.
proof fn lemma_lines_concat(a: Seq<Rec>, b: Seq<Rec>)
    ensures
        recs_lines(a + b) == recs_lines(a) + recs_lines(b),
    decreases b.len(),
{
    if b.len() == 0 {
        assert(a + b =~= a);
        assert(recs_lines(a) + recs_lines(b) =~= recs_lines(a));
    } else {
        lemma_lines_concat(a, b.drop_last());
        assert((a + b).drop_last() =~= a + b.drop_last());
        assert(rec_pws(a + b).drop_last() =~= rec_pws((a + b).drop_last()));
        assert(rec_pws(b).drop_last() =~= rec_pws(b.drop_last()));
        assert(recs_lines(a + b) =~= recs_lines(a) + recs_lines(b));
    }
}

/// The records from `i` up to `j` are between their offsets in the run of all records, and in the
/// lines of all records: the parts can be filled apart from each other.
pub proof fn lemma_parts_fill_apart(s: Seq<Rec>, i: int, j: int)
    requires
        0 <= i <= j <= s.len(),
    ensures
        encode_recs(s).subrange(
            sum_sizes(s.take(i), HEADER_LEN as nat) as int,
            sum_sizes(s.take(j), HEADER_LEN as nat) as int,
        ) == encode_recs(s.subrange(i, j)),
        recs_lines(s).subrange(
            sum_sizes(s.take(i), 1) as int,
            sum_sizes(s.take(j), 1) as int,
        ) == recs_lines(s.subrange(i, j)),
{
    let a = s.take(i);
    let b = s.subrange(i, j);
    let c = s.skip(j);
    assert(s.take(j) =~= a + b);
    assert(s =~= (a + b) + c);
    lemma_encode_concat(a, b);
    lemma_encode_concat(a + b, c);
    lemma_lines_concat(a, b);
    lemma_lines_concat(a + b, c);
    lemma_encoded_len(a);
    lemma_encoded_len(b);
    lemma_encoded_len(a + b);
    lemma_lines_len(a);
    lemma_lines_len(b);
    lemma_lines_len(a + b);
    let x = sum_sizes(a, HEADER_LEN as nat) as int;
    let y = sum_sizes(a + b, HEADER_LEN as nat) as int;
    assert(encode_recs(s).subrange(x, y) =~= encode_recs(b));
    let p = sum_sizes(a, 1) as int;
    let q = sum_sizes(a + b, 1) as int;
    assert(recs_lines(s).subrange(p, q) =~= recs_lines(b));
}

/// Items that are filled in together, and the bytes they take.
#[derive(Clone, Copy, Debug, PartialEq, Eq, Structural)]
pub struct Part {
    pub from: usize,
    pub to: usize,
    pub bytes: usize,
}

/// The part goes on where `start` is, has `part_len` items or all that are left, and takes the
/// bytes between its offsets.
pub open spec fn is_part(p: Part, start: int, offsets: Seq<usize>, part_len: int) -> bool {
    let n = offsets.len() - 1;
    &&& p.from == start
    &&& start < n
    &&& p.to == (if start + part_len < n {
        start + part_len
    } else {
        n
    })
    &&& p.bytes == offsets[p.to as int] - offsets[p.from as int]
}

/// Where the parts taken so far end.
pub open spec fn parts_end(parts: Seq<Part>) -> int {
    if parts.len() == 0 {
        0
    } else {
        parts.last().to as int
    }
}

/// The parts follow each other from the first item on.
pub open spec fn are_parts(parts: Seq<Part>, offsets: Seq<usize>, part_len: int) -> bool
    decreases parts.len(),
{
    parts.len() > 0 ==> {
        &&& are_parts(parts.drop_last(), offsets, part_len)
        &&& is_part(parts.last(), parts_end(parts.drop_last()), offsets, part_len)
    }
}

/// The offsets of items never fall.
pub open spec fn offsets_rise(offsets: Seq<usize>) -> bool {
    forall|i: int, j: int| 0 <= i <= j < offsets.len() ==> offsets[i] <= offsets[j]
}

/// Cuts items into parts of `part_len` that are filled apart from each other. The offsets say where
/// the items are: one for each, and the end of the last.
pub fn plan_parts(offsets: &[usize], part_len: usize) -> (parts: Vec<Part>)
    requires
        offsets@.len() > 0,
        offsets_rise(offsets@),
        part_len > 0,
    ensures
        are_parts(parts@, offsets@, part_len as int),
        parts_end(parts@) == offsets@.len() - 1,
{
    let n: usize = offsets.len() - 1;
    let mut parts: Vec<Part> = Vec::new();
    let mut from: usize = 0;
    while from < n
        invariant
            n == offsets@.len() - 1,
            from <= n,
            part_len > 0,
            offsets_rise(offsets@),
            are_parts(parts@, offsets@, part_len as int),
            parts_end(parts@) == from,
        decreases n - from,
    {
        let to: usize = if part_len < n - from {
            from + part_len
        } else {
            n
        };
        let ghost before = parts@;
        parts.push(Part { from, to, bytes: offsets[to] - offsets[from] });
        assert(parts@.drop_last() =~= before);
        from = to;
    }
    parts
}

/// The bytes of a part are those that its items take, so that each part is filled exactly.
pub proof fn lemma_part_size(offsets: Seq<usize>, s: Seq<Rec>, overhead: nat, from: int, to: int)
    requires
        are_offsets(offsets, s, overhead),
        0 <= from <= to <= s.len(),
    ensures
        offsets[to] - offsets[from] == sum_sizes(s.subrange(from, to), overhead),
    decreases to,
{
    assert(offsets[to] == sum_sizes(s.take(to), overhead));
    assert(offsets[from] == sum_sizes(s.take(from), overhead));
    if from == to {
        assert(s.subrange(from, to).len() == 0);
    } else {
        lemma_part_size(offsets, s, overhead, from, to - 1);
        assert(offsets[to - 1] == sum_sizes(s.take(to - 1), overhead));
        assert(s.take(to).drop_last() =~= s.take(to - 1));
        assert(s.subrange(from, to).drop_last() =~= s.subrange(from, to - 1));
    }
}

/// Offsets of items can be planned with.
pub proof fn lemma_offsets_rise(offsets: Seq<usize>, s: Seq<Rec>, overhead: nat)
    requires
        are_offsets(offsets, s, overhead),
    ensures
        offsets_rise(offsets),
        offsets.len() > 0,
{
    assert forall|i: int, j: int| 0 <= i <= j < offsets.len() implies offsets[i] <= offsets[j] by {
        lemma_part_size(offsets, s, overhead, i, j);
    }
}

/// Each item starts where the one before ends, behind its password and the overhead; the first
/// starts at zero.
pub proof fn lemma_offsets_step(offsets: Seq<usize>, s: Seq<Rec>, overhead: nat, i: int)
    requires
        are_offsets(offsets, s, overhead),
        0 <= i < s.len(),
    ensures
        offsets.len() == s.len() + 1,
        offsets[0] == 0,
        offsets[i + 1] == offsets[i] + s[i].pw.len() + overhead,
{
    assert(s.take(0).len() == 0);
    assert(offsets[i] == sum_sizes(s.take(i), overhead));
    assert(offsets[i + 1] == sum_sizes(s.take(i + 1), overhead));
    assert(s.take(i + 1).drop_last() =~= s.take(i));
}

/// Parts cover all items: each goes on where the one before ends, none is empty or has more than
/// `part_len` items, and only the last may have fewer.
pub proof fn lemma_parts_cover(parts: Seq<Part>, offsets: Seq<usize>, part_len: int, i: int)
    requires
        are_parts(parts, offsets, part_len),
        part_len > 0,
        0 <= i < parts.len(),
    ensures
        parts[0].from == 0,
        parts[i].from < parts[i].to,
        parts[i].to - parts[i].from <= part_len,
        parts[i].bytes == offsets[parts[i].to as int] - offsets[parts[i].from as int],
        i + 1 < parts.len() ==> parts[i + 1].from == parts[i].to && parts[i].to - parts[i].from
            == part_len,
    decreases parts.len(),
{
    let shorter = parts.drop_last();
    let last = parts.len() - 1;
    if i < last {
        lemma_parts_cover(shorter, offsets, part_len, i);
        assert(shorter[i] == parts[i]);
        if i + 1 < last {
            assert(shorter[i + 1] == parts[i + 1]);
        } else {
            lemma_part_is_last(shorter, offsets, part_len);
        }
    } else if last > 0 {
        lemma_parts_cover(shorter, offsets, part_len, 0);
    }
}

proof fn lemma_part_is_last(parts: Seq<Part>, offsets: Seq<usize>, part_len: int)
    requires
        are_parts(parts, offsets, part_len),
        parts.len() > 0,
        parts_end(parts) < offsets.len() - 1,
    ensures
        parts.last().to - parts.last().from == part_len,
{
}

} // verus!
