//! Records: a password with its sort key, and the order records are sorted in.

use std::cmp::Ordering;

use vstd::prelude::*;

use crate::bytes::{compare_bytes, Rank};

verus! {

broadcast use crate::bytes::group_bytes_le;

/// What a record means: a sort key and the bytes of a password.
#[verifier::ext_equal]
pub struct Rec {
    pub key: i64,
    pub pw: Seq<u8>,
}

/// A password with its sort key.
#[derive(Clone, Debug)]
pub struct Record {
    pub key: i64,
    pub pw: Vec<u8>,
}

impl View for Record {
    type V = Rec;

    open spec fn view(&self) -> Rec {
        Rec { key: self.key, pw: self.pw@ }
    }
}

/// `a` sorts at or before `b`: by key, then by password.
pub open spec fn rec_le(a: Rec, b: Rec) -> bool {
    a.key < b.key || (a.key == b.key && crate::bytes::bytes_le(a.pw, b.pw))
}

/// Which way two records are ordered.
pub open spec fn rec_ordering(a: Rec, b: Rec) -> Ordering {
    if a == b {
        Ordering::Equal
    } else if rec_le(a, b) {
        Ordering::Less
    } else {
        Ordering::Greater
    }
}

/// The meanings of a sequence of records.
pub open spec fn recs(s: Seq<Record>) -> Seq<Rec> {
    s.map_values(|r: Record| r@)
}

/// The records are in sorted order.
pub open spec fn sorted_recs(s: Seq<Rec>) -> bool {
    forall|i: int, j: int| 0 <= i <= j < s.len() ==> rec_le(#[trigger] s[i], #[trigger] s[j])
}

/// The order of records is total: any two are ordered, only equal records are ordered both ways,
/// and the order is transitive.
pub proof fn lemma_rec_le_total_order(a: Rec, b: Rec, c: Rec)
    ensures
        rec_le(a, a),
        rec_le(a, b) || rec_le(b, a),
        rec_le(a, b) && rec_le(b, a) ==> a == b,
        rec_le(a, b) && rec_le(b, c) ==> rec_le(a, c),
{
}

/// Two sorted sequences that hold the same records are the same sequence.
pub proof fn lemma_sorted_recs_unique(x: Seq<Rec>, y: Seq<Rec>)
    requires
        sorted_recs(x),
        sorted_recs(y),
        x.to_multiset() == y.to_multiset(),
    ensures
        x == y,
{
    let leq = |a: Rec, b: Rec| rec_le(a, b);
    vstd::seq_lib::lemma_sorted_unique(x, y, leq);
}

impl Record {
    /// Makes a record.
    pub fn new(key: i64, pw: Vec<u8>) -> (r: Record)
        ensures
            r@ == (Rec { key, pw: pw@ }),
    {
        Record { key, pw }
    }

    /// Orders two records by key, then by password.
    pub fn cmp(&self, other: &Record) -> (r: Ordering)
        ensures
            r == rec_ordering(self@, other@),
    {
        if self.key < other.key {
            Ordering::Less
        } else if other.key < self.key {
            Ordering::Greater
        } else {
            match compare_bytes(&self.pw, &other.pw) {
                Rank::Before => Ordering::Less,
                Rank::Same => Ordering::Equal,
                Rank::After => Ordering::Greater,
            }
        }
    }
}

impl PartialEq for Record {
    fn eq(&self, other: &Record) -> (r: bool) {
        self.key == other.key && compare_bytes(&self.pw, &other.pw) == Rank::Same
    }
}

impl vstd::std_specs::cmp::PartialEqSpecImpl for Record {
    open spec fn obeys_eq_spec() -> bool {
        true
    }

    open spec fn eq_spec(&self, other: &Record) -> bool {
        self@ == other@
    }
}

impl Eq for Record {

}

impl PartialOrd for Record {
    fn partial_cmp(&self, other: &Record) -> (r: Option<Ordering>) {
        Some(self.cmp(other))
    }
}

impl vstd::std_specs::cmp::PartialOrdSpecImpl for Record {
    open spec fn obeys_partial_cmp_spec() -> bool {
        true
    }

    open spec fn partial_cmp_spec(&self, other: &Record) -> Option<Ordering> {
        Some(rec_ordering(self@, other@))
    }
}

/// Records are ordered by their keys as numbers; only records with equal keys are ordered by their
/// passwords.
pub proof fn lemma_key_before_password(a: Rec, b: Rec)
    ensures
        a.key != b.key ==> (rec_le(a, b) <==> a.key < b.key),
        a.key == b.key ==> (rec_le(a, b) <==> crate::bytes::bytes_le(a.pw, b.pw)),
        rec_ordering(a, b) == Ordering::Less <==> rec_le(a, b) && !rec_le(b, a),
        rec_ordering(a, b) == Ordering::Equal <==> a == b,
        rec_ordering(a, b) == Ordering::Greater <==> rec_le(b, a) && !rec_le(a, b),
{
}

/// Records are sorted exactly if each is at or before the next.
pub proof fn lemma_sorted_is_pairwise(s: Seq<Rec>)
    ensures
        sorted_recs(s) <==> forall|i: int, j: int|
            0 <= i && j == i + 1 && j < s.len() ==> rec_le(#[trigger] s[i], #[trigger] s[j]),
{
    if forall|i: int, j: int|
        0 <= i && j == i + 1 && j < s.len() ==> rec_le(#[trigger] s[i], #[trigger] s[j]) {
        assert forall|i: int, j: int| 0 <= i <= j < s.len() implies rec_le(
            #[trigger] s[i],
            #[trigger] s[j],
        ) by {
            lemma_pairwise_reaches(s, i, j);
        }
    }
}

proof fn lemma_pairwise_reaches(s: Seq<Rec>, i: int, j: int)
    requires
        forall|a: int, b: int|
            0 <= a && b == a + 1 && b < s.len() ==> rec_le(#[trigger] s[a], #[trigger] s[b]),
        0 <= i <= j < s.len(),
    ensures
        rec_le(s[i], s[j]),
    decreases j - i,
{
    if i < j {
        lemma_pairwise_reaches(s, i, j - 1);
        assert(rec_le(s[j - 1], s[j]));
        lemma_rec_le_total_order(s[i], s[j - 1], s[j]);
    }
}

/// What records mean: each its key and the bytes of its password.
pub proof fn lemma_recs_mean(s: Seq<Record>)
    ensures
        recs(s).len() == s.len(),
        forall|i: int|
            0 <= i < s.len() ==> (#[trigger] recs(s)[i]).key == s[i].key && recs(s)[i].pw
                == s[i].pw@,
{
}

} // verus!
