//! Sorting a merged run by frequency when it does not fit in memory: it is read back in chunks,
//! each chunk is sorted, and the sorted chunks are merged.

use vstd::prelude::*;

use crate::codec::{decode_recs, run_damaged, RunError, RunReader};
use crate::premerge::{joined, lemma_joined_front};
use crate::record::{recs, sorted_recs, Rec, Record};
use crate::sort::{lemma_equal_sizes, max_int, sort_records, sum_sizes};

verus! {

/// Bytes a record is taken to need in memory besides its password.
pub const RECORD_OVERHEAD: usize = 24;

/// How many records a chunk may have: as many of the size of the first record as the budget holds,
/// at least one.
pub open spec fn chunk_limit(s: Seq<Rec>, max_mem: int) -> int {
    let size = if s.len() == 0 {
        32
    } else {
        max_int(s[0].pw.len() + RECORD_OVERHEAD, 1)
    };
    max_int(1, max_mem / size)
}

/// A chunk that has the first `n` records of `s` may have one more: it has less than `chunk_len`,
/// and their sizes are below the budget. One record fits any budget.
pub open spec fn chunk_has_room(s: Seq<Rec>, n: nat, chunk_len: nat, max_mem: nat) -> bool {
    n < chunk_len && (n == 0 || sum_sizes(s.take(n as int), RECORD_OVERHEAD as nat) < max_mem)
}

/// Where the chunk ends that has `n` records so far: it grows until no record is left or it has no
/// room for another.
pub open spec fn chunk_end(s: Seq<Rec>, n: nat, chunk_len: nat, max_mem: nat) -> nat
    decreases s.len() - n,
{
    if n < s.len() && chunk_has_room(s, n, chunk_len, max_mem) {
        chunk_end(s, n + 1, chunk_len, max_mem)
    } else {
        n
    }
}

/// The chunk still has room when it has all records of `s`, so that reading goes on behind them.
pub open spec fn reads_past_end(s: Seq<Rec>, chunk_len: nat, max_mem: nat) -> bool {
    &&& chunk_end(s, 0, chunk_len, max_mem) == s.len()
    &&& chunk_has_room(s, s.len(), chunk_len, max_mem)
}

/// As long as records are left a chunk has at least one of them, whatever the budget.
pub proof fn lemma_chunk_not_empty(s: Seq<Rec>, chunk_len: nat, max_mem: nat)
    requires
        s.len() > 0,
        chunk_len > 0,
    ensures
        0 < chunk_end(s, 0, chunk_len, max_mem) <= s.len(),
        chunk_end(s, 0, chunk_len, max_mem) <= chunk_len,
{
    lemma_chunk_end_bounds(s, 1, chunk_len, max_mem);
}

/// A chunk ends at or behind what it has, and within the records and the limit.
pub proof fn lemma_chunk_end_bounds(s: Seq<Rec>, n: nat, chunk_len: nat, max_mem: nat)
    requires
        n <= s.len(),
        n <= chunk_len,
    ensures
        n <= chunk_end(s, n, chunk_len, max_mem) <= s.len(),
        chunk_end(s, n, chunk_len, max_mem) <= chunk_len,
    decreases s.len() - n,
{
    if n < s.len() && chunk_has_room(s, n, chunk_len, max_mem) {
        lemma_chunk_end_bounds(s, n + 1, chunk_len, max_mem);
    }
}

/// A piece of more than one record is within the memory budget without its last.
pub proof fn lemma_piece_fits(s: Seq<Rec>, chunk_len: nat, max_mem: nat)
    ensures
        ({
            let n = chunk_end(s, 0, chunk_len, max_mem) as int;
            n > 1 ==> sum_sizes(s.take(n - 1), RECORD_OVERHEAD as nat) < max_mem
        }),
{
    lemma_piece_fits_from(s, 0, chunk_len, max_mem);
}

proof fn lemma_piece_fits_from(s: Seq<Rec>, n: nat, chunk_len: nat, max_mem: nat)
    requires
        n > 1 ==> sum_sizes(s.take(n - 1), RECORD_OVERHEAD as nat) < max_mem,
    ensures
        ({
            let end = chunk_end(s, n, chunk_len, max_mem) as int;
            end > 1 ==> sum_sizes(s.take(end - 1), RECORD_OVERHEAD as nat) < max_mem
        }),
    decreases s.len() - n,
{
    if n < s.len() && chunk_has_room(s, n, chunk_len, max_mem) {
        lemma_piece_fits_from(s, n + 1, chunk_len, max_mem);
    }
}

/// Decides how many records the chunks of a run may have, from its first record.
pub fn plan_chunks(run: &[u8], max_mem_bytes: usize) -> (r: Result<usize, RunError>)
    ensures
        match r {
            Ok(n) => {
                &&& n == chunk_limit(decode_recs(run@), max_mem_bytes as int)
                &&& !(decode_recs(run@).len() == 0 && run_damaged(run@))
            },
            Err(RunError::UnexpectedEof) => decode_recs(run@).len() == 0 && run_damaged(run@),
        },
{
    let mut reader = RunReader::new(run);
    let first = match reader.read_record() {
        Ok(first) => first,
        Err(e) => {
            return Err(e);
        },
    };
    let fitting: usize = match first {
        Some(rec) => {
            assert(decode_recs(run@)[0] == rec@);
            let len: usize = rec.pw.len();
            match len.checked_add(RECORD_OVERHEAD) {
                Some(size) => max_mem_bytes / size,
                None => {
                    assert(max_mem_bytes as int / (len + RECORD_OVERHEAD) == 0) by (nonlinear_arith)
                        requires
                            0 <= max_mem_bytes < len + RECORD_OVERHEAD,
                    ;
                    0
                },
            }
        },
        None => max_mem_bytes / 32,
    };
    if fitting < 1 {
        Ok(1)
    } else {
        Ok(fitting)
    }
}

/// A chunk of records, sorted, and the memory they are taken to need, cut off at the largest
/// number.
pub struct SortedChunk {
    pub records: Vec<Record>,
    pub bytes: usize,
}

/// Reads the next chunk of a run and sorts it.
pub fn read_sorted_chunk(
    reader: &mut RunReader<'_>,
    chunk_len: usize,
    max_mem_bytes: usize,
) -> (r: Result<SortedChunk, RunError>)
    ensures
        ({
            let all = decode_recs(old(reader)@);
            let n = chunk_end(all, 0, chunk_len as nat, max_mem_bytes as nat) as int;
            match r {
                Ok(chunk) => {
                    &&& sorted_recs(recs(chunk.records@))
                    &&& recs(chunk.records@).to_multiset() == all.take(n).to_multiset()
                    &&& chunk.records@.len() == n
                    &&& chunk.bytes == (if sum_sizes(all.take(n), RECORD_OVERHEAD as nat)
                        <= usize::MAX {
                        sum_sizes(all.take(n), RECORD_OVERHEAD as nat)
                    } else {
                        usize::MAX as nat
                    })
                    &&& decode_recs(final(reader)@) == all.skip(n)
                    &&& run_damaged(final(reader)@) == run_damaged(old(reader)@)
                    &&& !(reads_past_end(all, chunk_len as nat, max_mem_bytes as nat)
                        && run_damaged(old(reader)@))
                },
                Err(RunError::UnexpectedEof) => {
                    &&& reads_past_end(all, chunk_len as nat, max_mem_bytes as nat)
                    &&& run_damaged(old(reader)@)
                    &&& decode_recs(final(reader)@).len() == 0
                    &&& run_damaged(final(reader)@)
                },
            }
        }),
{
    let ghost all = decode_recs(reader@);
    let mut records: Vec<Record> = Vec::new();
    let mut bytes: usize = 0;
    let mut more = true;
    proof {
        assert(all.skip(0) =~= all);
        assert(recs(records@) =~= all.take(0));
    }
    while more && records.len() < chunk_len && (records.len() == 0 || bytes < max_mem_bytes)
        invariant
            all == decode_recs(old(reader)@),
            records@.len() <= all.len(),
            records@.len() <= chunk_len,
            recs(records@) == all.take(records@.len() as int),
            bytes == (if sum_sizes(recs(records@), RECORD_OVERHEAD as nat) <= usize::MAX {
                sum_sizes(recs(records@), RECORD_OVERHEAD as nat)
            } else {
                usize::MAX as nat
            }),
            decode_recs(reader@) == all.skip(records@.len() as int),
            run_damaged(reader@) == run_damaged(old(reader)@),
            chunk_end(all, records@.len(), chunk_len as nat, max_mem_bytes as nat) == chunk_end(
                all,
                0,
                chunk_len as nat,
                max_mem_bytes as nat,
            ),
            !more ==> records@.len() == all.len() && !run_damaged(old(reader)@),
        decreases all.len() - records@.len(), if more { 1int } else { 0int },
    {
        let ghost n = records@.len() as int;
        let ghost b = reader@;
        match reader.read_record() {
            Ok(Some(rec)) => {
                proof {
                    assert(decode_recs(b)[0] == rec@);
                    assert(decode_recs(b).drop_first() =~= decode_recs(reader@));
                    assert(all.skip(n).drop_first() =~= all.skip(n + 1));
                    assert(all.skip(n)[0] == all[n]);
                    assert(all.take(n + 1) =~= all.take(n).push(all[n]));
                    assert(all.take(n + 1).drop_last() =~= all.take(n));
                }
                bytes = bytes.saturating_add(rec.pw.len()).saturating_add(RECORD_OVERHEAD);
                records.push(rec);
                assert(recs(records@) =~= all.take(n).push(rec@));
            },
            Ok(None) => {
                assert(all.skip(n).len() == 0);
                more = false;
            },
            Err(e) => {
                assert(all.skip(n).len() == 0);
                assert(all.take(n) =~= all);
                return Err(e);
            },
        }
    }
    proof {
        let n = records@.len() as int;
        assert(chunk_end(all, records@.len(), chunk_len as nat, max_mem_bytes as nat) == n);
        if n == all.len() {
            assert(all.take(n) =~= all);
        }
    }
    sort_records(&mut records);
    Ok(SortedChunk { records, bytes })
}

/// The pieces that a merged run is read back in, for sorting.
pub open spec fn read_pieces(all: Seq<Rec>, chunk_len: nat, max_mem: nat) -> Seq<Seq<Rec>>
    decreases all.len(),
{
    let n = chunk_end(all, 0, chunk_len, max_mem) as int;
    if 0 < n <= all.len() {
        seq![all.take(n)] + read_pieces(all.skip(n), chunk_len, max_mem)
    } else {
        Seq::empty()
    }
}

/// Reading a run back in pieces reads all of it, whatever the memory budget.
pub proof fn lemma_pieces_are_all(all: Seq<Rec>, chunk_len: nat, max_mem: nat)
    requires
        chunk_len > 0,
    ensures
        joined(read_pieces(all, chunk_len, max_mem)) == all,
    decreases all.len(),
{
    if all.len() == 0 {
        lemma_chunk_end_bounds(all, 0, chunk_len, max_mem);
        assert(joined(read_pieces(all, chunk_len, max_mem)) =~= all);
    } else {
        lemma_chunk_not_empty(all, chunk_len, max_mem);
        let n = chunk_end(all, 0, chunk_len, max_mem) as int;
        lemma_pieces_are_all(all.skip(n), chunk_len, max_mem);
        lemma_joined_front(all.take(n), read_pieces(all.skip(n), chunk_len, max_mem));
        assert(all.take(n) + all.skip(n) =~= all);
    }
}

/// A run that is sorted in pieces: it hands out one sorted piece after another, each to be written
/// as a run of its own, and the pieces are merged when there are no more.
pub struct ExternalSort<'a> {
    reader: RunReader<'a>,
    chunk_len: usize,
    max_mem: usize,
}

impl<'a> ExternalSort<'a> {
    /// The records not handed out yet.
    pub closed spec fn rest(&self) -> Seq<Rec> {
        decode_recs(self.reader@)
    }

    /// How many records a piece may have.
    pub closed spec fn piece_limit(&self) -> nat {
        self.chunk_len as nat
    }

    /// The memory budget.
    pub closed spec fn budget(&self) -> nat {
        self.max_mem as nat
    }

    /// The run is cut short behind its last whole record.
    pub closed spec fn damaged(&self) -> bool {
        run_damaged(self.reader@)
    }

    /// The pieces not handed out yet, unsorted.
    pub open spec fn pieces_left(&self) -> Seq<Seq<Rec>> {
        read_pieces(self.rest(), self.piece_limit(), self.budget())
    }

    /// The next piece still has room when it has all that is left, so that reading goes on behind
    /// it.
    pub open spec fn reaches_end(&self) -> bool {
        reads_past_end(self.rest(), self.piece_limit(), self.budget())
    }

    /// The next piece, sorted; `None` if there are no more. A run that is cut short is an error
    /// when reading gets there.
    pub fn next_piece(&mut self) -> (r: Result<Option<SortedChunk>, RunError>)
        ensures
            final(self).damaged() == old(self).damaged(),
            final(self).piece_limit() == old(self).piece_limit(),
            final(self).budget() == old(self).budget(),
            r is Err <==> old(self).damaged() && old(self).reaches_end(),
            match r {
                Ok(Some(chunk)) => {
                    &&& old(self).pieces_left().len() > 0
                    &&& sorted_recs(recs(chunk.records@))
                    &&& recs(chunk.records@).to_multiset()
                        == old(self).pieces_left()[0].to_multiset()
                    &&& chunk.records@.len() == old(self).pieces_left()[0].len()
                    &&& chunk.bytes == (if sum_sizes(
                        old(self).pieces_left()[0],
                        RECORD_OVERHEAD as nat,
                    ) <= usize::MAX {
                        sum_sizes(old(self).pieces_left()[0], RECORD_OVERHEAD as nat)
                    } else {
                        usize::MAX as nat
                    })
                    &&& final(self).rest() == old(self).rest().skip(chunk.records@.len() as int)
                    &&& final(self).pieces_left() == old(self).pieces_left().drop_first()
                },
                Ok(None) => {
                    &&& old(self).pieces_left().len() == 0
                    &&& final(self).rest() == old(self).rest()
                },
                Err(RunError::UnexpectedEof) => {
                    &&& old(self).pieces_left().len() <= 1
                    &&& final(self).rest().len() == 0
                },
            },
    {
        let ghost all = decode_recs(self.reader@);
        let ghost n = chunk_end(all, 0, self.chunk_len as nat, self.max_mem as nat) as int;
        proof {
            lemma_chunk_end_bounds(all, 0, self.chunk_len as nat, self.max_mem as nat);
        }
        let chunk = match read_sorted_chunk(&mut self.reader, self.chunk_len, self.max_mem) {
            Ok(chunk) => chunk,
            Err(e) => {
                proof {
                    let none = all.skip(n);
                    assert(none.len() == 0);
                    lemma_chunk_end_bounds(none, 0, self.chunk_len as nat, self.max_mem as nat);
                    assert(read_pieces(none, self.chunk_len as nat, self.max_mem as nat).len()
                        == 0);
                }
                return Err(e);
            },
        };
        if chunk.records.len() == 0 {
            proof {
                assert(all.skip(0) =~= all);
            }
            return Ok(None);
        }
        proof {
            let rest = read_pieces(all.skip(n), self.chunk_len as nat, self.max_mem as nat);
            assert((seq![all.take(n)] + rest).drop_first() =~= rest);
        }
        Ok(Some(chunk))
    }
}

/// Starts sorting a run of negated counts in pieces that fit the memory budget.
pub fn external_sort_spilled_runs<'a>(run: &'a [u8], max_mem_bytes: usize) -> (r: Result<
    ExternalSort<'a>,
    RunError,
>)
    ensures
        match r {
            Ok(s) => {
                &&& !(decode_recs(run@).len() == 0 && run_damaged(run@))
                &&& s.damaged() == run_damaged(run@)
                &&& s.rest() == decode_recs(run@)
                &&& s.piece_limit() == chunk_limit(decode_recs(run@), max_mem_bytes as int)
                &&& s.piece_limit() > 0
                &&& s.budget() == max_mem_bytes
            },
            Err(RunError::UnexpectedEof) => decode_recs(run@).len() == 0 && run_damaged(run@),
        },
{
    match plan_chunks(run, max_mem_bytes) {
        Ok(chunk_len) => Ok(
            ExternalSort { reader: RunReader::new(run), chunk_len, max_mem: max_mem_bytes },
        ),
        Err(e) => Err(e),
    }
}

/// Sorting a run that is cut short never comes to a regular end: when no piece is left, reading
/// reaches the damage.
pub proof fn lemma_damage_is_reached(s: Seq<Rec>, chunk_len: nat, max_mem: nat)
    requires
        chunk_len > 0,
        read_pieces(s, chunk_len, max_mem).len() == 0,
    ensures
        s.len() == 0,
        reads_past_end(s, chunk_len, max_mem),
{
    if s.len() > 0 {
        lemma_chunk_not_empty(s, chunk_len, max_mem);
    }
}

/// How many records of the size of the first fill the budget: so many fit, unless it is one alone,
/// and one more does not.
pub proof fn lemma_limit_fills_budget(s: Seq<Rec>, max_mem: int)
    requires
        s.len() > 0,
        max_mem >= 0,
    ensures
        chunk_limit(s, max_mem) >= 1,
        chunk_limit(s, max_mem) > 1 ==> chunk_limit(s, max_mem) * (s[0].pw.len() + 24) <= max_mem,
        (chunk_limit(s, max_mem) + 1) * (s[0].pw.len() + 24) > max_mem,
{
    let z = s[0].pw.len() as int + 24;
    let q = max_mem / z;
    vstd::arithmetic::div_mod::lemma_fundamental_div_mod(max_mem, z);
    assert(z * q <= max_mem < z * q + z);
    assert(q * z == z * q) by (nonlinear_arith);
    assert((q + 1) * z == z * q + z) by (nonlinear_arith);
    assert(q >= 0) by (nonlinear_arith)
        requires
            z > 0,
            0 <= max_mem < z * q + z,
    ;
    if q < 1 {
        assert(2 * z > max_mem) by (nonlinear_arith)
            requires
                q == 0,
                z > 0,
                max_mem < z * q + z,
        ;
    }
}

proof fn lemma_chunk_end_stops(s: Seq<Rec>, n: nat, chunk_len: nat, max_mem: nat)
    requires
        n <= s.len(),
    ensures
        ({
            let end = chunk_end(s, n, chunk_len, max_mem);
            &&& n <= end <= s.len()
            &&& end < s.len() ==> end >= chunk_len || (end > 0 && sum_sizes(s.take(end as int), 24)
                >= max_mem)
        }),
    decreases s.len() - n,
{
    if n < s.len() && chunk_has_room(s, n, chunk_len, max_mem) {
        lemma_chunk_end_stops(s, n + 1, chunk_len, max_mem);
    }
}

/// A piece stops short of the records that are left only when the budget is used up: it then has as
/// many records of the size of the first as the budget holds, or their sizes reach the budget. And
/// it goes no further than that.
pub proof fn lemma_piece_fills_budget(s: Seq<Rec>, max_mem: nat)
    requires
        s.len() > 0,
    ensures
        ({
            let n = chunk_end(s, 0, chunk_limit(s, max_mem as int) as nat, max_mem) as int;
            &&& 1 <= n <= s.len()
            &&& n < s.len() ==> n >= max_mem as int / (s[0].pw.len() as int + 24) || sum_sizes(
                s.take(n),
                24,
            ) >= max_mem
            &&& n > 1 ==> n * (s[0].pw.len() + 24) <= max_mem && sum_sizes(s.take(n - 1), 24)
                < max_mem
        }),
{
    let len = chunk_limit(s, max_mem as int) as nat;
    let z = s[0].pw.len() as int + 24;
    let n = chunk_end(s, 0, len, max_mem) as int;
    lemma_limit_fills_budget(s, max_mem as int);
    lemma_chunk_not_empty(s, len, max_mem);
    lemma_chunk_end_stops(s, 0, len, max_mem);
    lemma_piece_fits(s, len, max_mem);
    if n < s.len() && n >= len {
        assert(n >= max_mem as int / z) by {
            vstd::arithmetic::div_mod::lemma_fundamental_div_mod(max_mem as int, z);
            let q = max_mem as int / z;
            if q > len {
                assert((len + 1) * z <= z * q) by (nonlinear_arith)
                    requires
                        q >= len + 1,
                        z > 0,
                ;
            }
        }
    }
    if n > 1 {
        assert(n * z <= len * z) by (nonlinear_arith)
            requires
                n <= len,
                z > 0,
        ;
    }
}

/// A later piece, too, stops short of what is left only when it has as many records as the first
/// may have, or their sizes reach the budget.
pub proof fn lemma_later_piece_fills_budget(s: Seq<Rec>, chunk_len: nat, max_mem: nat)
    requires
        s.len() > 0,
        chunk_len > 0,
    ensures
        ({
            let n = chunk_end(s, 0, chunk_len, max_mem) as int;
            &&& 1 <= n <= s.len()
            &&& n <= chunk_len
            &&& n < s.len() ==> n == chunk_len || sum_sizes(s.take(n), 24) >= max_mem
            &&& n > 1 ==> sum_sizes(s.take(n - 1), 24) < max_mem
        }),
{
    lemma_chunk_not_empty(s, chunk_len, max_mem);
    lemma_chunk_end_stops(s, 0, chunk_len, max_mem);
    lemma_piece_fits(s, chunk_len, max_mem);
}

/// Records of one size that fit the budget together come out as one piece.
pub proof fn lemma_fitting_records_are_one_piece(s: Seq<Rec>, max_mem: nat)
    requires
        s.len() > 0,
        forall|i: int| 0 <= i < s.len() ==> (#[trigger] s[i]).pw.len() == s[0].pw.len(),
        s.len() * (s[0].pw.len() + 24) <= max_mem,
    ensures
        read_pieces(s, chunk_limit(s, max_mem as int) as nat, max_mem) == seq![s],
{
    let z = s[0].pw.len() as int + 24;
    let len = chunk_limit(s, max_mem as int) as nat;
    let n = chunk_end(s, 0, len, max_mem) as int;
    lemma_piece_fills_budget(s, max_mem);
    if n < s.len() {
        lemma_equal_sizes(s.take(n), 24, z);
        assert(n * z < s.len() * z) by (nonlinear_arith)
            requires
                n < s.len(),
                z > 0,
        ;
        assert(n >= max_mem as int / z);
        vstd::arithmetic::div_mod::lemma_fundamental_div_mod(max_mem as int, z);
        let q = max_mem as int / z;
        assert(z * q + z <= n * z + z && n * z + z <= s.len() * z) by (nonlinear_arith)
            requires
                q <= n,
                n + 1 <= s.len(),
                z > 0,
        ;
    }
    assert(s.take(n) =~= s);
    let none = s.skip(n);
    assert(none.len() == 0);
    lemma_chunk_end_stops(none, 0, len, max_mem);
    assert(read_pieces(none, len, max_mem) =~= Seq::<Seq<Rec>>::empty());
    assert(read_pieces(s, len, max_mem) =~= seq![s]);
}

proof fn lemma_chunk_end_grows(s: Seq<Rec>, n: nat, l1: nat, m1: nat, l2: nat, m2: nat)
    requires
        n <= s.len(),
        l1 <= l2,
        m1 <= m2,
    ensures
        chunk_end(s, n, l1, m1) <= chunk_end(s, n, l2, m2),
    decreases s.len() - n,
{
    if n < s.len() && chunk_has_room(s, n, l1, m1) {
        lemma_chunk_end_grows(s, n + 1, l1, m1, l2, m2);
    } else {
        lemma_chunk_end_stops(s, n, l2, m2);
    }
}

/// A larger budget never gives smaller pieces.
pub proof fn lemma_larger_budget(s: Seq<Rec>, small: nat, large: nat)
    requires
        s.len() > 0,
        small <= large,
    ensures
        chunk_limit(s, small as int) <= chunk_limit(s, large as int),
        chunk_end(s, 0, chunk_limit(s, small as int) as nat, small) <= chunk_end(
            s,
            0,
            chunk_limit(s, large as int) as nat,
            large,
        ),
{
    let z = s[0].pw.len() as int + 24;
    vstd::arithmetic::div_mod::lemma_div_is_ordered(small as int, large as int, z);
    lemma_limit_fills_budget(s, small as int);
    lemma_chunk_end_grows(
        s,
        0,
        chunk_limit(s, small as int) as nat,
        small,
        chunk_limit(s, large as int) as nat,
        large,
    );
}

/// Reading goes on behind the last record exactly if the piece has room left: it has fewer records
/// than it may have, and it is empty or below the budget.
pub proof fn lemma_when_reading_goes_on(s: Seq<Rec>, chunk_len: nat, max_mem: nat)
    requires
        chunk_len > 0,
    ensures
        reads_past_end(s, chunk_len, max_mem) <==> s.len() < chunk_len && (s.len() == 0
            || sum_sizes(s, 24) < max_mem),
{
    assert(s.take(s.len() as int) =~= s);
    lemma_chunk_end_stops(s, 0, chunk_len, max_mem);
    let n = chunk_end(s, 0, chunk_len, max_mem);
    if s.len() < chunk_len && (s.len() == 0 || sum_sizes(s, 24) < max_mem) && n < s.len() {
        crate::sort::lemma_sum_sizes_mono(s, n as int, 24, 24);
    }
}

} // verus!
