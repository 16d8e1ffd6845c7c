//! The layout of spill runs: records one after another, each a key, a length and a password.

use rayon::iter::{IntoParallelRefIterator, ParallelIterator};
use vstd::prelude::*;

use crate::bytes::{
    from_le32, from_le64, get_le32, get_le64, le32, le64, lemma_le32_is_positional, lemma_le32_roundtrip,
    lemma_le64_is_positional,
    lemma_le64_roundtrip, push_le32, push_le64,
};
use crate::record::{Rec, Record};
use crate::tally::wrap64;

verus! {

/// Bytes in front of the password in an encoded record.
pub const HEADER_LEN: usize = 12;

/// Why a run could not be read to its end.
#[derive(Clone, Copy, Debug, PartialEq, Eq, Structural)]
pub enum RunError {
    /// The run ends inside a record.
    UnexpectedEof,
}

/// The length as it is stored: its low 32 bits.
pub open spec fn stored_len(n: nat) -> u32 {
    (n % 0x1_0000_0000) as u32
}

/// The bytes of one record.
pub open spec fn encode_rec(r: Rec) -> Seq<u8> {
    le64(r.key as u64) + le32(stored_len(r.pw.len())) + r.pw
}

/// The bytes of a sequence of records.
pub open spec fn encode_recs(s: Seq<Rec>) -> Seq<u8>
    decreases s.len(),
{
    if s.len() == 0 {
        Seq::empty()
    } else {
        encode_recs(s.drop_last()) + encode_rec(s.last())
    }
}

/// How many bytes the record at the front of `b` claims to have.
pub open spec fn front_size(b: Seq<u8>) -> int {
    12 + from_le32(b.skip(8))
}

/// A whole record is at the front of `b`.
pub open spec fn has_record(b: Seq<u8>) -> bool {
    b.len() >= 12 && b.len() >= front_size(b)
}

/// The record at the front of `b`.
pub open spec fn front_rec(b: Seq<u8>) -> Rec {
    Rec { key: (from_le64(b) as u64) as i64, pw: b.subrange(12, front_size(b)) }
}

/// The records that can be read from `b`, up to its end or to the first that is cut short.
pub open spec fn decode_recs(b: Seq<u8>) -> Seq<Rec>
    decreases b.len(),
{
    if has_record(b) && 12 <= front_size(b) {
        seq![front_rec(b)] + decode_recs(b.skip(front_size(b)))
    } else {
        Seq::empty()
    }
}

/// Reading `b` ends in a record that is cut short. Fewer than eight bytes at the end, too few for a
/// key, are no damage: they are ignored.
pub open spec fn run_damaged(b: Seq<u8>) -> bool
    decreases b.len(),
{
    if has_record(b) && 12 <= front_size(b) {
        run_damaged(b.skip(front_size(b)))
    } else {
        b.len() >= 8
    }
}

/// How many record headers are met on the way through `b`, the passwords being skipped unread.
pub open spec fn header_count(b: Seq<u8>) -> nat
    decreases b.len(),
{
    if b.len() < 12 {
        0
    } else if 12 <= front_size(b) <= b.len() {
        1 + header_count(b.skip(front_size(b)))
    } else {
        1
    }
}

/// The bytes of a sequence of records, one record longer.
pub proof fn lemma_encode_push(s: Seq<Rec>, r: Rec)
    ensures
        encode_recs(s.push(r)) == encode_recs(s) + encode_rec(r),
{
    assert(s.push(r).drop_last() =~= s);
}

/// The bytes of two sequences of records in a row.
pub proof fn lemma_encode_concat(s: Seq<Rec>, t: Seq<Rec>)
    ensures
        encode_recs(s + t) == encode_recs(s) + encode_recs(t),
    decreases t.len(),
{
    if t.len() == 0 {
        assert(s + t =~= s);
        assert(encode_recs(s) + encode_recs(t) =~= encode_recs(s));
    } else {
        lemma_encode_concat(s, t.drop_last());
        assert((s + t).drop_last() =~= s + t.drop_last());
        assert(encode_recs(s + t) =~= encode_recs(s) + encode_recs(t));
    }
}

proof fn lemma_front_of_encoded(r: Rec, tail: Seq<u8>)
    requires
        r.pw.len() < 0x1_0000_0000,
    ensures
        has_record(encode_rec(r) + tail),
        front_size(encode_rec(r) + tail) == encode_rec(r).len(),
        front_rec(encode_rec(r) + tail) == r,
        (encode_rec(r) + tail).skip(encode_rec(r).len() as int) == tail,
{
    let n = stored_len(r.pw.len());
    let k = r.key;
    lemma_le64_roundtrip(k as u64);
    lemma_le32_roundtrip(n);
    let b = encode_rec(r) + tail;
    assert(forall|i: int| 0 <= i < 8 ==> b[i] == le64(k as u64)[i]);
    assert(from_le64(b) == from_le64(le64(k as u64)));
    assert(forall|i: int| 0 <= i < 4 ==> b.skip(8)[i] == le32(n)[i]);
    assert(from_le32(b.skip(8)) == from_le32(le32(n)));
    assert((k as u64) as i64 == k) by (bit_vector);
    assert(b.subrange(12, front_size(b)) =~= r.pw);
    assert(b.skip(encode_rec(r).len() as int) =~= tail);
}

proof fn lemma_decode_front(r: Rec, tail: Seq<u8>)
    requires
        r.pw.len() < 0x1_0000_0000,
    ensures
        decode_recs(encode_rec(r) + tail) == seq![r] + decode_recs(tail),
        run_damaged(encode_rec(r) + tail) == run_damaged(tail),
        header_count(encode_rec(r) + tail) == 1 + header_count(tail),
{
    lemma_front_of_encoded(r, tail);
    assert(encode_rec(r).len() >= 12);
}

proof fn lemma_encode_first(s: Seq<Rec>)
    requires
        s.len() > 0,
    ensures
        encode_recs(s) == encode_rec(s[0]) + encode_recs(s.drop_first()),
{
    let first = seq![s[0]];
    assert(s =~= first + s.drop_first());
    lemma_encode_concat(first, s.drop_first());
    assert(first.drop_last() =~= Seq::<Rec>::empty());
    assert(encode_recs(first.drop_last()) =~= Seq::<u8>::empty());
    assert(encode_recs(first) =~= encode_rec(s[0]));
}

/// A run that was written can be read back: its records come out as they went in, and nothing is
/// damaged. A stored length has 32 bits, so this is for passwords shorter than 4 GiB.
pub proof fn lemma_decode_encode(s: Seq<Rec>)
    requires
        forall|i: int| 0 <= i < s.len() ==> (#[trigger] s[i]).pw.len() < 0x1_0000_0000,
    ensures
        decode_recs(encode_recs(s)) == s,
        !run_damaged(encode_recs(s)),
        header_count(encode_recs(s)) == s.len(),
    decreases s.len(),
{
    if s.len() > 0 {
        let rest = s.drop_first();
        assert forall|i: int| 0 <= i < rest.len() implies (#[trigger] rest[i]).pw.len()
            < 0x1_0000_0000 by {
            assert(rest[i] == s[i + 1]);
        }
        lemma_decode_encode(rest);
        lemma_encode_first(s);
        lemma_decode_front(s[0], encode_recs(rest));
        assert(seq![s[0]] + rest =~= s);
    } else {
        assert(decode_recs(encode_recs(s)) =~= s);
    }
}

/// An undamaged run has as many headers as records; a damaged one has at most one more.
pub proof fn lemma_header_count_bounds(b: Seq<u8>)
    ensures
        decode_recs(b).len() <= header_count(b) <= decode_recs(b).len() + 1,
        !run_damaged(b) ==> header_count(b) == decode_recs(b).len(),
        12 * header_count(b) <= b.len(),
    decreases b.len(),
{
    if has_record(b) && 12 <= front_size(b) {
        lemma_header_count_bounds(b.skip(front_size(b)));
    }
}

/// Encoded size of a record whose password has `pw_len` bytes.
pub fn record_encoded_len(pw_len: usize) -> (r: usize)
    requires
        12 + pw_len <= usize::MAX,
    ensures
        r == 12 + pw_len,
        forall|rec: Rec| rec.pw.len() == pw_len ==> (#[trigger] encode_rec(rec)).len() == r,
{
    8 + 4 + pw_len
}

/// Appends an encoded record, given by its parts, to `out`.
pub fn append_record(out: &mut Vec<u8>, key: i64, pw: &[u8])
    ensures
        final(out)@ == old(out)@ + encode_rec(Rec { key, pw: pw@ }),
{
    push_le64(out, key as u64);
    push_le32(out, ((pw.len() as u64) % 0x1_0000_0000) as u32);
    out.extend_from_slice(pw);
    assert(out@ =~= old(out)@ + encode_rec(Rec { key, pw: pw@ }));
}

/// Appends one encoded record to `out`.
pub fn write_record(out: &mut Vec<u8>, r: &Record)
    ensures
        final(out)@ == old(out)@ + encode_rec(r@),
{
    append_record(out, r.key, &r.pw);
}

/// Reads the records of a run one after another.
pub struct RunReader<'a> {
    rest: &'a [u8],
}

impl<'a> View for RunReader<'a> {
    type V = Seq<u8>;

    /// The bytes not read yet.
    closed spec fn view(&self) -> Seq<u8> {
        self.rest@
    }
}

impl<'a> RunReader<'a> {
    /// A reader at the front of a run.
    pub fn new(data: &'a [u8]) -> (r: RunReader<'a>)
        ensures
            r@ == data@,
    {
        RunReader { rest: data }
    }

    /// Reads the next record. At the end, or with fewer bytes left than a key has, there is none;
    /// a record that is cut short after its key is an error. Only a record that was read is
    /// consumed.
    pub fn read_record(&mut self) -> (r: Result<Option<Record>, RunError>)
        ensures
            match r {
                Ok(Some(rec)) => {
                    &&& has_record(old(self)@)
                    &&& rec@ == front_rec(old(self)@)
                    &&& final(self)@ == old(self)@.skip(front_size(old(self)@))
                },
                Ok(None) => old(self)@.len() < 8 && final(self)@ == old(self)@,
                Err(RunError::UnexpectedEof) => {
                    &&& old(self)@.len() >= 8
                    &&& !has_record(old(self)@)
                    &&& final(self)@ == old(self)@
                },
            },
    {
        let rest = self.rest;
        if rest.len() < 8 {
            return Ok(None);
        }
        if rest.len() < HEADER_LEN {
            return Err(RunError::UnexpectedEof);
        }
        let key = get_le64(rest, 0) as i64;
        let len: u32 = get_le32(rest, 8);
        assert(rest@.skip(0) =~= rest@);
        if rest.len() - HEADER_LEN < len as usize {
            return Err(RunError::UnexpectedEof);
        }
        let end: usize = HEADER_LEN + len as usize;
        let mut pw: Vec<u8> = Vec::new();
        pw.extend_from_slice(&rest[HEADER_LEN..end]);
        assert(pw@ =~= rest@.subrange(12, end as int));
        self.rest = &rest[end..rest.len()];
        assert(self.rest@ =~= rest@.skip(end as int));
        Ok(Some(Record { key, pw }))
    }
}

/// Counts the record headers of one run, skipping over the passwords.
pub fn count_records(run: &[u8]) -> (r: u64)
    ensures
        r == header_count(run@),
{
    let mut rest = run;
    let mut count: u64 = 0;
    let room: usize = run.len();
    proof {
        lemma_header_count_bounds(run@);
        assert(header_count(run@) <= room);
    }
    while rest.len() >= HEADER_LEN
        invariant
            count + header_count(rest@) == header_count(run@),
            header_count(run@) <= usize::MAX,
        decreases rest@.len(),
    {
        let len: u32 = get_le32(rest, 8);
        assert(header_count(rest@) >= 1);
        count = count + 1;
        if rest.len() - HEADER_LEN < len as usize {
            return count;
        }
        let end: usize = HEADER_LEN + len as usize;
        let ghost before = rest@;
        rest = &rest[end..rest.len()];
        assert(rest@ =~= before.skip(end as int));
    }
    count
}

/// The sum of the header counts of several runs.
pub open spec fn total_headers(runs: Seq<Seq<u8>>) -> nat
    decreases runs.len(),
{
    if runs.len() == 0 {
        0
    } else {
        total_headers(runs.drop_last()) + header_count(runs.last())
    }
}

/// The bytes of several runs.
pub open spec fn run_bytes(runs: Seq<&[u8]>) -> Seq<Seq<u8>> {
    runs.map_values(|r: &[u8]| r@)
}

/// Counts each run on the thread pool.
///
/// Calls `rayon`'s `par_iter().map(..).collect()`: the result holds what [`count_records`] returns
/// for each run, in the order of the runs.
#[verifier::external_body]
fn par_count_records(runs: &[&[u8]]) -> (r: Vec<u64>)
    ensures
        r@.len() == runs@.len(),
        forall|i: int| 0 <= i < r@.len() ==> #[trigger] r@[i] == header_count(runs@[i]@),
{
    runs.par_iter().map(|run| count_records(run)).collect()
}

/// Counts the records of all runs together, modulo 2^64, without reading the passwords. There are
/// at least as many as distinct passwords in the runs.
pub fn count_records_in_runs(runs: &[&[u8]]) -> (r: u64)
    ensures
        r == wrap64(total_headers(run_bytes(runs@)) as int),
{
    let counts = par_count_records(runs);
    let ghost all = run_bytes(runs@);
    let mut total: u64 = 0;
    let mut i: usize = 0;
    while i < counts.len()
        invariant
            i <= counts@.len(),
            counts@.len() == all.len(),
            forall|j: int| 0 <= j < counts@.len() ==> #[trigger] counts@[j] == header_count(all[j]),
            total == wrap64(total_headers(all.take(i as int)) as int),
        decreases counts@.len() - i,
    {
        assert(all.take(i + 1).drop_last() =~= all.take(i as int));
        assert(counts@[i as int] == header_count(all[i as int]));
        total = total.wrapping_add(counts[i]);
        i = i + 1;
    }
    assert(all.take(i as int) =~= all);
    total
}

/// The layout of a record: eight bytes for the key and four for the length of the password, both as
/// digits to the base 256 with the least significant first, and then the password.
pub proof fn lemma_record_layout(r: Rec)
    requires
        r.pw.len() < 0x1_0000_0000,
    ensures
        ({
            let b = encode_rec(r);
            &&& b.len() == 12 + r.pw.len()
            &&& r.key as u64 == b[0] + 256 * (b[1] + 256 * (b[2] + 256 * (b[3] + 256 * (b[4] + 256
                * (b[5] + 256 * (b[6] + 256 * b[7]))))))
            &&& r.pw.len() == b[8] + 256 * (b[9] + 256 * (b[10] + 256 * b[11]))
            &&& forall|i: int| 0 <= i < r.pw.len() ==> b[12 + i] == r.pw[i]
        }),
{
    let b = encode_rec(r);
    let k = le64(r.key as u64);
    let n = le32(stored_len(r.pw.len()));
    lemma_le64_is_positional(r.key as u64);
    lemma_le32_is_positional(stored_len(r.pw.len()));
    assert(forall|i: int| 0 <= i < 8 ==> b[i] == k[i]);
    assert(forall|i: int| 0 <= i < 4 ==> b[8 + i] == #[trigger] n[i]);
    assert(b[8] == n[0] && b[9] == n[1] && b[10] == n[2] && b[11] == n[3]);
}

proof fn lemma_concat_associative<A>(a: Seq<A>, b: Seq<A>, c: Seq<A>)
    ensures
        (a + b) + c == a + (b + c),
{
    assert((a + b) + c =~= a + (b + c));
}

/// What is read from the bytes of one record and more.
proof fn lemma_decode_one_before(r: Rec, more: Seq<u8>, recs: Seq<Rec>, damaged: bool, n: nat)
    requires
        r.pw.len() < 0x1_0000_0000,
        decode_recs(more) == recs,
        run_damaged(more) == damaged,
        header_count(more) == n,
    ensures
        decode_recs(encode_rec(r) + more) == seq![r] + recs,
        run_damaged(encode_rec(r) + more) == damaged,
        header_count(encode_rec(r) + more) == n + 1,
{
    lemma_decode_front(r, more);
}

/// Written records can be read whatever is behind them.
proof fn lemma_decode_before(s: Seq<Rec>, tail: Seq<u8>, recs: Seq<Rec>, damaged: bool, n: nat)
    requires
        forall|i: int| 0 <= i < s.len() ==> (#[trigger] s[i]).pw.len() < 0x1_0000_0000,
        decode_recs(tail) == recs,
        run_damaged(tail) == damaged,
        header_count(tail) == n,
    ensures
        decode_recs(encode_recs(s) + tail) == s + recs,
        run_damaged(encode_recs(s) + tail) == damaged,
        header_count(encode_recs(s) + tail) == s.len() + n,
    decreases s.len(),
{
    if s.len() > 0 {
        let rest = s.drop_first();
        let r = s[0];
        assert forall|i: int| 0 <= i < rest.len() implies (#[trigger] rest[i]).pw.len()
            < 0x1_0000_0000 by {
            assert(rest[i] == s[i + 1]);
        }
        lemma_decode_before(rest, tail, recs, damaged, n);
        assert(encode_recs(s) + tail == encode_rec(r) + (encode_recs(rest) + tail)) by {
            lemma_encode_first(s);
            lemma_concat_associative(encode_rec(r), encode_recs(rest), tail);
        }
        assert(s + recs == seq![r] + (rest + recs)) by {
            assert(s =~= seq![r] + rest);
            lemma_concat_associative(seq![r], rest, recs);
        }
        lemma_decode_one_before(
            r,
            encode_recs(rest) + tail,
            rest + recs,
            damaged,
            (rest.len() + n) as nat,
        );
    } else {
        assert(encode_recs(s) + tail =~= tail);
        assert(s + recs =~= recs);
    }
}

/// A run that is cut off inside a record still gives all records before it. The cut is damage
/// exactly if the key of the record is whole, and the record is met when counting headers exactly
/// if its header is whole.
pub proof fn lemma_cut_run(s: Seq<Rec>, r: Rec, n: int)
    requires
        forall|i: int| 0 <= i < s.len() ==> (#[trigger] s[i]).pw.len() < 0x1_0000_0000,
        r.pw.len() < 0x1_0000_0000,
        0 <= n < 12 + r.pw.len(),
    ensures
        ({
            let b = encode_recs(s) + encode_rec(r).take(n);
            &&& decode_recs(b) == s
            &&& run_damaged(b) <==> n >= 8
            &&& header_count(b) == s.len() + (if n >= 12 {
                1nat
            } else {
                0nat
            })
        }),
{
    let tail = encode_rec(r).take(n);
    if n >= 12 {
        lemma_front_of_encoded(r, Seq::empty());
        let full = encode_rec(r) + Seq::<u8>::empty();
        assert(full =~= encode_rec(r));
        assert(forall|i: int| 0 <= i < 4 ==> tail.skip(8)[i] == full.skip(8)[i]);
        assert(front_size(tail) == front_size(full));
    }
    let heads: nat = if n >= 12 {
        1
    } else {
        0
    };
    lemma_decode_before(s, tail, Seq::empty(), n >= 8, heads);
    assert(s + Seq::<Rec>::empty() =~= s);
}

/// Runs are counted one after another.
pub proof fn lemma_headers_one_more(runs: Seq<Seq<u8>>, run: Seq<u8>)
    ensures
        total_headers(Seq::empty()) == 0,
        total_headers(runs.push(run)) == total_headers(runs) + header_count(run),
{
    assert(runs.push(run).drop_last() =~= runs);
}

/// What the runs of a slice mean.
pub proof fn lemma_run_bytes(runs: Seq<&[u8]>)
    ensures
        run_bytes(runs).len() == runs.len(),
        forall|i: int| 0 <= i < runs.len() ==> #[trigger] run_bytes(runs)[i] == runs[i]@,
{
}

/// A length below 2^32 is stored as it is, and a longer one goes round from there.
pub proof fn lemma_stored_length(n: nat)
    ensures
        n < 0x1_0000_0000 ==> stored_len(n) == n,
        stored_len(n + 0x1_0000_0000) == stored_len(n),
{
}

} // verus!
