//! The dictionary as it is written: one password per line.

use vstd::prelude::*;

use crate::record::{recs, Rec, Record};
use crate::sort::{
    is_sort_plan, lemma_sum_sizes_mono, plan_sort, rec_pws, recs_lines, sum_sizes, total_size, SortPlan,
};

verus! {

/// The byte that ends a line.
pub const NEWLINE: u8 = 10;

/// Passwords written one per line.
pub open spec fn lines_bytes(pws: Seq<Seq<u8>>) -> Seq<u8>
    decreases pws.len(),
{
    if pws.len() == 0 {
        Seq::empty()
    } else {
        lines_bytes(pws.drop_last()) + pws.last() + seq![NEWLINE]
    }
}

/// Appends one line.
pub fn push_line(out: &mut Vec<u8>, pw: &[u8])
    ensures
        final(out)@ == old(out)@ + pw@ + seq![NEWLINE],
{
    out.extend_from_slice(pw);
    out.push(NEWLINE);
    assert(out@ =~= old(out)@ + pw@ + seq![NEWLINE]);
}

/// Appends the records from `from` on as lines to `out` until it has `limit` bytes or no record is
/// left. Returns the first record that was not written.
pub fn write_lines(records: &[Record], from: usize, out: &mut Vec<u8>, limit: usize) -> (next:
    usize)
    requires
        from <= records@.len(),
    ensures
        from <= next <= records@.len(),
        final(out)@ == old(out)@ + recs_lines(
            recs(records@).subrange(from as int, next as int),
        ),
        next < records@.len() ==> final(out)@.len() >= limit,
        forall|j: int|
            from <= j < next ==> old(out)@.len() + (#[trigger] recs_lines(
                recs(records@).subrange(from as int, j),
            )).len() < limit,
{
    let ghost all = recs(records@);
    let mut next: usize = from;
    assert(all.subrange(from as int, from as int).len() == 0);
    assert(out@ =~= old(out)@ + recs_lines(all.subrange(from as int, from as int)));
    while next < records.len() && out.len() < limit
        invariant
            from <= next <= records@.len(),
            all == recs(records@),
            out@ == old(out)@ + recs_lines(all.subrange(from as int, next as int)),
            forall|j: int|
                from <= j < next ==> old(out)@.len() + (#[trigger] recs_lines(
                    all.subrange(from as int, j),
                )).len() < limit,
        decreases records@.len() - next,
    {
        push_line(out, &records[next].pw);
        proof {
            let taken = all.subrange(from as int, next as int);
            let more = all.subrange(from as int, next + 1);
            assert(rec_pws(more).drop_last() =~= rec_pws(taken));
            assert(rec_pws(more).last() == records@[next as int].pw@);
            assert(out@ =~= old(out)@ + recs_lines(more));
        }
        next = next + 1;
    }
    next
}

/// Size above which the dictionary may be written through a mapping of its file.
pub const MMAP_OUTPUT_THRESHOLD: u64 = 0x2_8000_0000;

/// A dictionary with so many passwords is not written through a mapping.
pub const MMAP_OUTPUT_MAX_RECORDS: usize = 100_000_000;

/// How the dictionary is sorted and written.
#[derive(Clone, Copy, Debug, PartialEq, Eq, Structural)]
pub enum OutputPlan {
    /// Sorted in memory; the output file is given its size and filled in place.
    Mapped,
    /// Sorted as planned and written line by line.
    Streamed { sort: SortPlan },
}

/// The plan for sorting and writing records, if a mapping may be used or not.
pub open spec fn is_output_plan(
    s: Seq<Rec>,
    may_map: bool,
    max_mem: int,
    estimated: int,
    plan: OutputPlan,
) -> bool {
    let mapped = may_map && sum_sizes(s, 1) > MMAP_OUTPUT_THRESHOLD && s.len()
        < MMAP_OUTPUT_MAX_RECORDS && estimated <= max_mem;
    &&& estimated == sum_sizes(s, 40)
    &&& match plan {
        OutputPlan::Mapped => mapped,
        OutputPlan::Streamed { sort } => !mapped && is_sort_plan(s, max_mem, estimated, sort),
    }
}

/// Decides how to sort and write the dictionary, with the estimated memory for sorting in place;
/// `None` if that estimate does not fit. A mapping is used only if it is asked for, the output is a
/// file, the dictionary is large but has not too many passwords, and it is sorted in memory.
pub fn plan_output(
    records: &[Record],
    to_file: bool,
    mmap_output: bool,
    max_mem_bytes: usize,
) -> (r: Option<(usize, OutputPlan)>)
    ensures
        match r {
            Some((estimated, plan)) => is_output_plan(
                recs(records@),
                to_file && mmap_output,
                max_mem_bytes as int,
                estimated as int,
                plan,
            ),
            None => sum_sizes(recs(records@), 40) > usize::MAX,
        },
{
    let ghost all = recs(records@);
    let (estimated, sort) = match plan_sort(records, max_mem_bytes) {
        Some(p) => p,
        None => {
            return None;
        },
    };
    proof {
        lemma_sum_sizes_mono(all, all.len() as int, 1, 40);
        assert(all.take(all.len() as int) =~= all);
    }
    let large = match total_size(records, 1) {
        Some(n) => n as u64 > MMAP_OUTPUT_THRESHOLD,
        None => false,
    };
    let few = records.len() < MMAP_OUTPUT_MAX_RECORDS;
    let mapped = to_file && mmap_output && large && few && estimated <= max_mem_bytes;
    if mapped {
        Some((estimated, OutputPlan::Mapped))
    } else {
        Some((estimated, OutputPlan::Streamed { sort }))
    }
}

/// Lines are written password by password, each with byte 10 behind it.
pub proof fn lemma_line_by_line(pws: Seq<Seq<u8>>, pw: Seq<u8>)
    ensures
        lines_bytes(Seq::empty()) == Seq::<u8>::empty(),
        lines_bytes(pws.push(pw)) == lines_bytes(pws) + pw + seq![10u8],
{
    assert(pws.push(pw).drop_last() =~= pws);
}

/// From where on output is large, and how many passwords are too many for a mapping: more than 10
/// GiB, and a hundred million.
pub proof fn lemma_mapped_output_limits()
    ensures
        MMAP_OUTPUT_THRESHOLD == 10 * 1024 * 1024 * 1024,
        MMAP_OUTPUT_MAX_RECORDS == 100 * 1000 * 1000,
{
}

/// The dictionary is written through a mapping exactly if that is allowed, its lines have more than
/// 10 GiB, it has fewer than a hundred million passwords, and it is sorted in memory. Otherwise it
/// is sorted as without a mapping.
pub proof fn lemma_output_plan(
    s: Seq<Rec>,
    may_map: bool,
    max_mem: int,
    estimated: int,
    plan: OutputPlan,
)
    requires
        is_output_plan(s, may_map, max_mem, estimated, plan),
    ensures
        plan is Mapped <==> may_map && sum_sizes(s, 1) > 10 * 1024 * 1024 * 1024 && s.len()
            < 100 * 1000 * 1000 && sum_sizes(s, 40) <= max_mem,
        plan matches OutputPlan::Streamed { sort } ==> is_sort_plan(s, max_mem, estimated, sort),
{
}

} // verus!
