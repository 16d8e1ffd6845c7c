//! Byte strings: their lexicographic order, and little-endian numbers in them.

use vstd::prelude::*;

verus! {

/// Where one value stands relative to another.
#[derive(Clone, Copy, Debug, PartialEq, Eq, Structural)]
pub enum Rank {
    Before,
    Same,
    After,
}

/// `a` is at or before `b` in lexicographic byte order.
pub open spec fn bytes_le(a: Seq<u8>, b: Seq<u8>) -> bool
    decreases a.len(),
{
    if a.len() == 0 {
        true
    } else if b.len() == 0 {
        false
    } else if a[0] != b[0] {
        a[0] < b[0]
    } else {
        bytes_le(a.drop_first(), b.drop_first())
    }
}

/// `a` is strictly before `b` in lexicographic byte order.
pub open spec fn bytes_lt(a: Seq<u8>, b: Seq<u8>) -> bool {
    bytes_le(a, b) && a != b
}

/// Every byte string is at or before itself.
pub broadcast proof fn lemma_bytes_le_reflexive(a: Seq<u8>)
    ensures
        #[trigger] bytes_le(a, a),
    decreases a.len(),
{
    if a.len() > 0 {
        lemma_bytes_le_reflexive(a.drop_first());
    }
}

/// Two byte strings that are at or before each other are equal.
pub broadcast proof fn lemma_bytes_le_antisymmetric(a: Seq<u8>, b: Seq<u8>)
    requires
        #[trigger] bytes_le(a, b),
        #[trigger] bytes_le(b, a),
    ensures
        a == b,
    decreases a.len(),
{
    if a.len() > 0 && b.len() > 0 {
        lemma_bytes_le_antisymmetric(a.drop_first(), b.drop_first());
        assert(a =~= seq![a[0]] + a.drop_first());
        assert(b =~= seq![b[0]] + b.drop_first());
    } else {
        assert(a =~= b);
    }
}

/// Lexicographic order is transitive.
pub broadcast proof fn lemma_bytes_le_transitive(a: Seq<u8>, b: Seq<u8>, c: Seq<u8>)
    requires
        #[trigger] bytes_le(a, b),
        #[trigger] bytes_le(b, c),
    ensures
        bytes_le(a, c),
    decreases a.len(),
{
    if a.len() > 0 && a[0] == b[0] && b[0] == c[0] {
        lemma_bytes_le_transitive(a.drop_first(), b.drop_first(), c.drop_first());
    }
}

/// Any two byte strings are ordered one way or the other.
pub broadcast proof fn lemma_bytes_le_total(a: Seq<u8>, b: Seq<u8>)
    ensures
        #[trigger] bytes_le(a, b) || bytes_le(b, a),
    decreases a.len(),
{
    if a.len() > 0 && b.len() > 0 && a[0] == b[0] {
        lemma_bytes_le_total(a.drop_first(), b.drop_first());
    }
}

pub broadcast group group_bytes_le {
    lemma_bytes_le_reflexive,
    lemma_bytes_le_antisymmetric,
    lemma_bytes_le_transitive,
    lemma_bytes_le_total,
}

/// Compares two byte strings lexicographically.
pub fn compare_bytes(a: &[u8], b: &[u8]) -> (r: Rank)
    ensures
        match r {
            Rank::Before => bytes_lt(a@, b@),
            Rank::Same => a@ == b@,
            Rank::After => bytes_lt(b@, a@),
        },
{
    let mut i: usize = 0;
    assert(a@.skip(0) =~= a@);
    assert(b@.skip(0) =~= b@);
    while i < a.len() && i < b.len()
        invariant
            i <= a@.len(),
            i <= b@.len(),
            a@.take(i as int) == b@.take(i as int),
            bytes_le(a@, b@) == bytes_le(a@.skip(i as int), b@.skip(i as int)),
            bytes_le(b@, a@) == bytes_le(b@.skip(i as int), a@.skip(i as int)),
        decreases a@.len() - i,
    {
        let ghost sa = a@.skip(i as int);
        let ghost sb = b@.skip(i as int);
        assert(sa[0] == a@[i as int]);
        assert(sb[0] == b@[i as int]);
        if a[i] < b[i] {
            return Rank::Before;
        }
        if b[i] < a[i] {
            return Rank::After;
        }
        assert(sa.drop_first() =~= a@.skip(i + 1));
        assert(sb.drop_first() =~= b@.skip(i + 1));
        assert(a@.take(i + 1) =~= a@.take(i as int).push(a@[i as int]));
        assert(b@.take(i + 1) =~= b@.take(i as int).push(b@[i as int]));
        i = i + 1;
    }
    if a.len() == b.len() {
        assert(a@.take(i as int) =~= a@);
        assert(b@.take(i as int) =~= b@);
        Rank::Same
    } else if a.len() < b.len() {
        Rank::Before
    } else {
        Rank::After
    }
}

/// The four little-endian bytes of `x`.
pub open spec fn le32(x: u32) -> Seq<u8> {
    seq![
        (x % 256) as u8,
        (x / 0x100 % 256) as u8,
        (x / 0x1_0000 % 256) as u8,
        (x / 0x100_0000 % 256) as u8,
    ]
}

/// The number whose four little-endian bytes are at the front of `s`.
pub open spec fn from_le32(s: Seq<u8>) -> int {
    s[0] + 0x100 * s[1] + 0x1_0000 * s[2] + 0x100_0000 * s[3]
}

/// The eight little-endian bytes of `x`.
pub open spec fn le64(x: u64) -> Seq<u8> {
    seq![
        (x % 256) as u8,
        (x / 0x100 % 256) as u8,
        (x / 0x1_0000 % 256) as u8,
        (x / 0x100_0000 % 256) as u8,
        (x / 0x1_0000_0000 % 256) as u8,
        (x / 0x100_0000_0000 % 256) as u8,
        (x / 0x1_0000_0000_0000 % 256) as u8,
        (x / 0x100_0000_0000_0000 % 256) as u8,
    ]
}

/// The number whose eight little-endian bytes are at the front of `s`.
pub open spec fn from_le64(s: Seq<u8>) -> int {
    s[0] + 0x100 * s[1] + 0x1_0000 * s[2] + 0x100_0000 * s[3] + 0x1_0000_0000 * s[4]
        + 0x100_0000_0000 * s[5] + 0x1_0000_0000_0000 * s[6] + 0x100_0000_0000_0000 * s[7]
}

/// Reading back the four bytes of a number gives the number.
pub proof fn lemma_le32_roundtrip(x: u32)
    ensures
        from_le32(le32(x)) == x,
        le32(x).len() == 4,
{
}

/// Reading back the eight bytes of a number gives the number.
pub proof fn lemma_le64_roundtrip(x: u64)
    ensures
        from_le64(le64(x)) == x,
        le64(x).len() == 8,
{
    let q1 = x / 0x100;
    let q2 = x / 0x1_0000;
    let q3 = x / 0x100_0000;
    let q4 = x / 0x1_0000_0000;
    let q5 = x / 0x100_0000_0000;
    let q6 = x / 0x1_0000_0000_0000;
    let q7 = x / 0x100_0000_0000_0000;
    assert(q2 == q1 / 256 && q3 == q2 / 256 && q4 == q3 / 256);
    assert(q5 == q4 / 256 && q6 == q5 / 256 && q7 == q6 / 256);
    assert(q7 < 256);
    assert(x == 256 * q1 + x % 256);
    assert(q1 == 256 * q2 + q1 % 256);
    assert(q2 == 256 * q3 + q2 % 256);
    assert(q3 == 256 * q4 + q3 % 256);
    assert(q4 == 256 * q5 + q4 % 256);
    assert(q5 == 256 * q6 + q5 % 256);
    assert(q6 == 256 * q7 + q6 % 256);
}

/// Appends the four little-endian bytes of `x`.
pub fn push_le32(out: &mut Vec<u8>, x: u32)
    ensures
        final(out)@ == old(out)@ + le32(x),
{
    out.push((x % 256) as u8);
    out.push((x / 0x100 % 256) as u8);
    out.push((x / 0x1_0000 % 256) as u8);
    out.push((x / 0x100_0000 % 256) as u8);
    assert(out@ =~= old(out)@ + le32(x));
}

/// Appends the eight little-endian bytes of `x`.
pub fn push_le64(out: &mut Vec<u8>, x: u64)
    ensures
        final(out)@ == old(out)@ + le64(x),
{
    out.push((x % 256) as u8);
    out.push((x / 0x100 % 256) as u8);
    out.push((x / 0x1_0000 % 256) as u8);
    out.push((x / 0x100_0000 % 256) as u8);
    out.push((x / 0x1_0000_0000 % 256) as u8);
    out.push((x / 0x100_0000_0000 % 256) as u8);
    out.push((x / 0x1_0000_0000_0000 % 256) as u8);
    out.push((x / 0x100_0000_0000_0000 % 256) as u8);
    assert(out@ =~= old(out)@ + le64(x));
}

/// Reads the four little-endian bytes at `pos`.
pub fn get_le32(data: &[u8], pos: usize) -> (r: u32)
    requires
        pos + 4 <= data@.len(),
    ensures
        r == from_le32(data@.skip(pos as int)),
{
    data[pos] as u32 + 0x100 * (data[pos + 1] as u32) + 0x1_0000 * (data[pos + 2] as u32)
        + 0x100_0000 * (data[pos + 3] as u32)
}

/// Reads the eight little-endian bytes at `pos`.
pub fn get_le64(data: &[u8], pos: usize) -> (r: u64)
    requires
        pos + 8 <= data@.len(),
    ensures
        r == from_le64(data@.skip(pos as int)),
{
    data[pos] as u64 + 0x100 * (data[pos + 1] as u64) + 0x1_0000 * (data[pos + 2] as u64)
        + 0x100_0000 * (data[pos + 3] as u64) + 0x1_0000_0000 * (data[pos + 4] as u64)
        + 0x100_0000_0000 * (data[pos + 5] as u64) + 0x1_0000_0000_0000 * (data[pos + 6] as u64)
        + 0x100_0000_0000_0000 * (data[pos + 7] as u64)
}

/// Writes bytes over those at a position.
pub fn put_bytes(dst: &mut [u8], pos: usize, src: &[u8])
    requires
        pos + src@.len() <= old(dst)@.len(),
    ensures
        final(dst)@ == old(dst)@.take(pos as int) + src@ + old(dst)@.skip(pos + src@.len()),
{
    let size: usize = dst.len();
    let mut i: usize = 0;
    while i < src.len()
        invariant
            i <= src@.len(),
            pos + src@.len() <= dst@.len() <= usize::MAX,
            dst@.len() == old(dst)@.len(),
            forall|j: int|
                0 <= j < dst@.len() ==> #[trigger] dst@[j] == (if pos <= j < pos + i {
                    src@[j - pos]
                } else {
                    old(dst)@[j]
                }),
        decreases src@.len() - i,
    {
        dst[pos + i] = src[i];
        i = i + 1;
    }
    assert(dst@ =~= old(dst)@.take(pos as int) + src@ + old(dst)@.skip(pos + src@.len()));
}

/// Writes a 32-bit number, least significant byte first, over the bytes at a position.
pub fn put_le32(dst: &mut [u8], pos: usize, x: u32)
    requires
        pos + 4 <= old(dst)@.len(),
    ensures
        final(dst)@ == old(dst)@.take(pos as int) + le32(x) + old(dst)@.skip(pos + 4),
{
    let size: usize = dst.len();
    dst[pos] = (x % 256) as u8;
    dst[pos + 1] = (x / 0x100 % 256) as u8;
    dst[pos + 2] = (x / 0x1_0000 % 256) as u8;
    dst[pos + 3] = (x / 0x100_0000 % 256) as u8;
    assert(dst@ =~= old(dst)@.take(pos as int) + le32(x) + old(dst)@.skip(pos + 4));
}

/// Writes a 64-bit number, least significant byte first, over the bytes at a position.
pub fn put_le64(dst: &mut [u8], pos: usize, x: u64)
    requires
        pos + 8 <= old(dst)@.len(),
    ensures
        final(dst)@ == old(dst)@.take(pos as int) + le64(x) + old(dst)@.skip(pos + 8),
{
    let size: usize = dst.len();
    dst[pos] = (x % 256) as u8;
    dst[pos + 1] = (x / 0x100 % 256) as u8;
    dst[pos + 2] = (x / 0x1_0000 % 256) as u8;
    dst[pos + 3] = (x / 0x100_0000 % 256) as u8;
    dst[pos + 4] = (x / 0x1_0000_0000 % 256) as u8;
    dst[pos + 5] = (x / 0x100_0000_0000 % 256) as u8;
    dst[pos + 6] = (x / 0x1_0000_0000_0000 % 256) as u8;
    dst[pos + 7] = (x / 0x100_0000_0000_0000 % 256) as u8;
    assert(dst@ =~= old(dst)@.take(pos as int) + le64(x) + old(dst)@.skip(pos + 8));
}

/// `a` and `b` have their first `k` bytes in common, and no more: one of them ends there, or they
/// differ in the next byte.
pub open spec fn part_at(a: Seq<u8>, b: Seq<u8>, k: int) -> bool {
    &&& 0 <= k <= a.len()
    &&& k <= b.len()
    &&& forall|i: int| 0 <= i < k ==> a[i] == b[i]
    &&& k == a.len() || k == b.len() || a[k] != b[k]
}

/// Byte strings are ordered as in a dictionary: where they part, the one that ends comes first, and
/// otherwise the one whose next byte is the smaller number.
pub proof fn lemma_order_is_bytewise(a: Seq<u8>, b: Seq<u8>, k: int)
    requires
        part_at(a, b, k),
    ensures
        bytes_le(a, b) <==> k == a.len() || (k < b.len() && a[k] < b[k]),
        bytes_lt(a, b) <==> (k == a.len() && k < b.len()) || (k < a.len() && k < b.len() && a[k]
            < b[k]),
    decreases a.len(),
{
    if k > 0 {
        let x = a.drop_first();
        let y = b.drop_first();
        assert forall|i: int| 0 <= i < k - 1 implies x[i] == y[i] by {
            assert(a[i + 1] == b[i + 1]);
        }
        assert(a[0] == b[0]);
        lemma_order_is_bytewise(x, y, k - 1);
    }
    if k == a.len() && k == b.len() {
        assert(a =~= b);
    }
}

/// Any two byte strings part somewhere.
pub proof fn lemma_parts_somewhere(a: Seq<u8>, b: Seq<u8>) -> (k: int)
    ensures
        part_at(a, b, k),
    decreases a.len(),
{
    if a.len() == 0 || b.len() == 0 || a[0] != b[0] {
        0
    } else {
        let x = a.drop_first();
        let y = b.drop_first();
        let k = lemma_parts_somewhere(x, y);
        assert forall|i: int| 0 <= i < k + 1 implies a[i] == b[i] by {
            if i > 0 {
                assert(x[i - 1] == y[i - 1]);
            }
        }
        k + 1
    }
}

/// The bytes of a number are its digits to the base 256, the least significant first.
pub proof fn lemma_le32_is_positional(x: u32)
    ensures
        le32(x).len() == 4,
        x == le32(x)[0] + 256 * (le32(x)[1] + 256 * (le32(x)[2] + 256 * le32(x)[3])),
{
}

/// The bytes of a number are its digits to the base 256, the least significant first.
pub proof fn lemma_le64_is_positional(x: u64)
    ensures
        le64(x).len() == 8,
        x == le64(x)[0] + 256 * (le64(x)[1] + 256 * (le64(x)[2] + 256 * (le64(x)[3] + 256 * (le64(
            x,
        )[4] + 256 * (le64(x)[5] + 256 * (le64(x)[6] + 256 * le64(x)[7])))))),
{
    lemma_le64_roundtrip(x);
}

/// Reading a number takes its first bytes as digits to the base 256, and no others.
pub proof fn lemma_reading_is_positional(s: Seq<u8>)
    ensures
        s.len() >= 4 ==> from_le32(s) == s[0] + 256 * (s[1] + 256 * (s[2] + 256 * s[3])),
        s.len() >= 8 ==> from_le64(s) == s[0] + 256 * (s[1] + 256 * (s[2] + 256 * (s[3] + 256 * (
        s[4] + 256 * (s[5] + 256 * (s[6] + 256 * s[7])))))),
{
}

} // verus!
