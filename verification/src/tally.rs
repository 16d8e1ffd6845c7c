//! Counting: how often each password occurs, as 64-bit counts that wrap.

use vstd::multiset::Multiset;
use vstd::prelude::*;

use crate::record::Rec;

verus! {

/// A count as it is kept: modulo 2^64.
pub open spec fn wrap64(n: int) -> u64 {
    (n % 0x1_0000_0000_0000_0000) as u64
}

/// The sort key of a password in a dictionary sorted by frequency: its count, negated, so that the
/// most common password comes first. Counts are taken as signed 64-bit numbers.
pub open spec fn freq_key(count: u64) -> i64 {
    if count as i64 == i64::MIN {
        i64::MIN
    } else {
        (-(count as i64)) as i64
    }
}

/// The sort key that is stored with a count: the count itself, or its negation.
pub open spec fn count_key(count: u64, negate: bool) -> i64 {
    if negate {
        freq_key(count)
    } else {
        count as i64
    }
}

/// A password with its count, as a record.
pub open spec fn entry_rec(e: (Seq<u8>, u64), negate: bool) -> Rec {
    Rec { key: count_key(e.1, negate), pw: e.0 }
}

/// Passwords with their counts, as records.
pub open spec fn entry_recs(s: Seq<(Seq<u8>, u64)>, negate: bool) -> Seq<Rec> {
    s.map_values(|e: (Seq<u8>, u64)| entry_rec(e, negate))
}

/// Among counts below 2^63 the more common password has the smaller sort key.
pub proof fn lemma_most_common_first(a: u64, b: u64)
    requires
        a <= i64::MAX,
        b <= i64::MAX,
    ensures
        freq_key(a) < freq_key(b) <==> a > b,
        freq_key(a) == freq_key(b) <==> a == b,
{
}

/// A stored count can be read back from its key.
pub proof fn lemma_count_of_key(count: u64)
    ensures
        (count as i64) as u64 == count,
{
    assert((count as i64) as u64 == count) by (bit_vector);
}

/// The sort key for a count.
pub fn sort_key(count: u64, negate: bool) -> (r: i64)
    ensures
        r == count_key(count, negate),
{
    let key: i64 = count as i64;
    if !negate || key == i64::MIN {
        key
    } else {
        -key
    }
}

/// Passwords with their counts.
pub type Counts = Map<Seq<u8>, u64>;

/// The count of `pw`, 0 if there is none.
pub open spec fn count_in(m: Counts, pw: Seq<u8>) -> u64 {
    if m.contains_key(pw) {
        m[pw]
    } else {
        0
    }
}

/// `n` more of `pw`.
pub open spec fn add_one(m: Counts, pw: Seq<u8>, n: u64) -> Counts {
    m.insert(pw, wrap64(count_in(m, pw) + n))
}

/// Two sets of counts added up.
pub open spec fn add_counts(a: Counts, b: Counts) -> Counts {
    Map::new(
        |pw: Seq<u8>| a.contains_key(pw) || b.contains_key(pw),
        |pw: Seq<u8>| wrap64(count_in(a, pw) + count_in(b, pw)),
    )
}

/// How often each password occurs in a list.
pub open spec fn counts_of(pws: Seq<Seq<u8>>) -> Counts {
    Map::new(
        |pw: Seq<u8>| pws.contains(pw),
        |pw: Seq<u8>| wrap64(pws.to_multiset().count(pw) as int),
    )
}

/// The counts of a list of entries, in which a password may occur more than once.
pub open spec fn tally(entries: Seq<(Seq<u8>, u64)>) -> Counts
    decreases entries.len(),
{
    if entries.len() == 0 {
        Map::empty()
    } else {
        add_one(tally(entries.drop_last()), entries.last().0, entries.last().1)
    }
}

/// The entries are the counts, each password once.
pub open spec fn lists(entries: Seq<(Seq<u8>, u64)>, m: Counts) -> bool {
    &&& forall|i: int, j: int|
        0 <= i < j < entries.len() ==> (#[trigger] entries[i]).0 != (#[trigger] entries[j]).0
    &&& forall|i: int|
        0 <= i < entries.len() ==> m.contains_key((#[trigger] entries[i]).0) && m[entries[i].0]
            == entries[i].1
    &&& forall|pw: Seq<u8>| #[trigger]
        m.contains_key(pw) ==> exists|i: int|
            0 <= i < entries.len() && (#[trigger] entries[i]).0 == pw
}

/// What the entries of a vector mean.
pub open spec fn entry_views(s: Seq<(Vec<u8>, u64)>) -> Seq<(Seq<u8>, u64)> {
    s.map_values(|e: (Vec<u8>, u64)| (e.0@, e.1))
}

/// One more password in a list counts one more.
pub proof fn lemma_counts_push(pws: Seq<Seq<u8>>, pw: Seq<u8>)
    ensures
        counts_of(pws.push(pw)) == add_one(counts_of(pws), pw, 1),
{
    broadcast use vstd::seq_lib::group_to_multiset_ensures;
    broadcast use vstd::multiset::group_multiset_axioms;

    let more = pws.push(pw);
    assert(more.to_multiset() =~= pws.to_multiset().insert(pw));
    assert forall|k: Seq<u8>| more.contains(k) <==> pws.contains(k) || k == pw by {
        assert(more.contains(k) <==> more.to_multiset().count(k) > 0);
        assert(pws.contains(k) <==> pws.to_multiset().count(k) > 0);
    }
    assert(counts_of(more) =~= add_one(counts_of(pws), pw, 1));
}

/// No passwords have no counts.
pub proof fn lemma_counts_empty()
    ensures
        counts_of(Seq::<Seq<u8>>::empty()) == Map::<Seq<u8>, u64>::empty(),
{
    assert(counts_of(Seq::<Seq<u8>>::empty()) =~= Map::<Seq<u8>, u64>::empty());
}

/// Counting two lists apart and adding up is counting them together.
pub proof fn lemma_counts_concat(a: Seq<Seq<u8>>, b: Seq<Seq<u8>>)
    ensures
        counts_of(a + b) == add_counts(counts_of(a), counts_of(b)),
{
    broadcast use vstd::seq_lib::group_to_multiset_ensures;
    broadcast use vstd::multiset::group_multiset_axioms;

    vstd::seq_lib::lemma_multiset_commutative(a, b);
    assert forall|k: Seq<u8>| (a + b).contains(k) <==> a.contains(k) || b.contains(k) by {
        assert((a + b).contains(k) <==> (a + b).to_multiset().count(k) > 0);
        assert(a.contains(k) <==> a.to_multiset().count(k) > 0);
        assert(b.contains(k) <==> b.to_multiset().count(k) > 0);
    }
    assert(counts_of(a + b) =~= add_counts(counts_of(a), counts_of(b)));
}

/// The count of a password is the number of its occurrences, as long as the list has fewer than
/// 2^64 passwords.
pub proof fn lemma_counts_exact(pws: Seq<Seq<u8>>, pw: Seq<u8>)
    requires
        pws.len() < 0x1_0000_0000_0000_0000,
    ensures
        counts_of(pws).contains_key(pw) <==> pws.contains(pw),
        pws.contains(pw) ==> counts_of(pws)[pw] == pws.to_multiset().count(pw),
{
    broadcast use vstd::seq_lib::group_to_multiset_ensures;
    broadcast use vstd::multiset::group_multiset_axioms;

    assert(pws.to_multiset().count(pw) <= pws.to_multiset().len());
}

/// Adding counts up does not depend on the order or the grouping.
pub proof fn lemma_add_counts_laws(a: Counts, b: Counts, c: Counts)
    ensures
        add_counts(a, b) == add_counts(b, a),
        add_counts(add_counts(a, b), c) == add_counts(a, add_counts(b, c)),
        add_counts(Map::empty(), a) == a,
        add_counts(a, Map::empty()) == a,
{
    assert(add_counts(a, b) =~= add_counts(b, a));
    assert(add_counts(add_counts(a, b), c) =~= add_counts(a, add_counts(b, c)));
    assert(add_counts(Map::empty(), a) =~= a);
    assert(add_counts(a, Map::empty()) =~= a);
}

/// Adding one entry more.
pub proof fn lemma_add_one_more(a: Counts, b: Counts, pw: Seq<u8>, n: u64)
    ensures
        add_one(add_counts(a, b), pw, n) == add_counts(a, add_one(b, pw, n)),
{
    assert(add_one(add_counts(a, b), pw, n) =~= add_counts(a, add_one(b, pw, n)));
}

/// Which passwords entries have counts for.
pub proof fn lemma_tally_dom(entries: Seq<(Seq<u8>, u64)>, pw: Seq<u8>)
    ensures
        tally(entries).contains_key(pw) <==> exists|i: int|
            0 <= i < entries.len() && (#[trigger] entries[i]).0 == pw,
    decreases entries.len(),
{
    if entries.len() > 0 {
        let shorter = entries.drop_last();
        lemma_tally_dom(shorter, pw);
        if tally(shorter).contains_key(pw) {
            let i = choose|i: int| 0 <= i < shorter.len() && (#[trigger] shorter[i]).0 == pw;
            assert(entries[i].0 == pw);
        }
        if exists|i: int| 0 <= i < entries.len() && (#[trigger] entries[i]).0 == pw {
            let i = choose|i: int| 0 <= i < entries.len() && (#[trigger] entries[i]).0 == pw;
            if i < shorter.len() {
                assert(shorter[i].0 == pw);
            } else {
                assert(entries.last().0 == pw);
            }
        }
    }
}

/// Counts that are listed are the counts of the list.
pub proof fn lemma_tally_of_listing(entries: Seq<(Seq<u8>, u64)>, m: Counts)
    requires
        lists(entries, m),
    ensures
        tally(entries) == m,
    decreases entries.len(),
{
    if entries.len() == 0 {
        assert(m =~= Map::<Seq<u8>, u64>::empty());
    } else {
        let shorter = entries.drop_last();
        let (pw, n) = entries.last();
        let rest = m.remove(pw);
        assert forall|i: int| 0 <= i < shorter.len() implies rest.contains_key(
            (#[trigger] shorter[i]).0,
        ) && rest[shorter[i].0] == shorter[i].1 by {
            assert(shorter[i] == entries[i]);
            assert(entries[i].0 != entries[entries.len() - 1].0);
        }
        assert forall|k: Seq<u8>| #[trigger] rest.contains_key(k) implies exists|i: int|
            0 <= i < shorter.len() && (#[trigger] shorter[i]).0 == k by {
            assert(m.contains_key(k));
            let i = choose|i: int| 0 <= i < entries.len() && (#[trigger] entries[i]).0 == k;
            assert(shorter[i].0 == k);
        }
        assert(lists(shorter, rest));
        lemma_tally_of_listing(shorter, rest);
        assert(m[entries[entries.len() - 1].0] == n);
        assert(add_one(rest, pw, n) =~= m);
    }
}

/// Reordering a list of counts leaves it a list of the same counts.
pub proof fn lemma_listing_reordered(
    a: Seq<(Seq<u8>, u64)>,
    b: Seq<(Seq<u8>, u64)>,
    m: Counts,
)
    requires
        lists(a, m),
        a.to_multiset() == b.to_multiset(),
    ensures
        lists(b, m),
{
    broadcast use vstd::seq_lib::group_to_multiset_ensures;
    broadcast use vstd::multiset::group_multiset_axioms;

    assert forall|e: (Seq<u8>, u64)| a.contains(e) <==> b.contains(e) by {
        assert(a.contains(e) <==> a.to_multiset().count(e) > 0);
        assert(b.contains(e) <==> b.to_multiset().count(e) > 0);
    }
    assert(a.no_duplicates());
    a.lemma_multiset_has_no_duplicates();
    b.lemma_multiset_has_no_duplicates_conv();
    assert forall|i: int| 0 <= i < b.len() implies m.contains_key((#[trigger] b[i]).0)
        && m[b[i].0] == b[i].1 by {
        assert(b.contains(b[i]));
        let k = choose|k: int| 0 <= k < a.len() && a[k] == b[i];
        assert(m.contains_key(a[k].0));
    }
    assert forall|i: int, j: int| 0 <= i < j < b.len() implies (#[trigger] b[i]).0
        != (#[trigger] b[j]).0 by {
        if b[i].0 == b[j].0 {
            assert(b[i] == b[j]);
        }
    }
    assert forall|pw: Seq<u8>| #[trigger] m.contains_key(pw) implies exists|i: int|
        0 <= i < b.len() && (#[trigger] b[i]).0 == pw by {
        let k = choose|k: int| 0 <= k < a.len() && (#[trigger] a[k]).0 == pw;
        assert(a.contains(a[k]));
        assert(b.contains(a[k]));
        let i = choose|i: int| 0 <= i < b.len() && b[i] == a[k];
        assert(b[i].0 == pw);
    }
}

/// The counts of a list of entries added up.
pub open spec fn entry_sum(entries: Seq<(Seq<u8>, u64)>) -> nat
    decreases entries.len(),
{
    if entries.len() == 0 {
        0
    } else {
        entry_sum(entries.drop_last()) + entries.last().1 as nat
    }
}

/// The entries list the passwords of a bag, each once, with the number of its occurrences.
spec fn lists_bag(entries: Seq<(Seq<u8>, u64)>, bag: Multiset<Seq<u8>>) -> bool {
    &&& forall|i: int, j: int|
        0 <= i < j < entries.len() ==> (#[trigger] entries[i]).0 != (#[trigger] entries[j]).0
    &&& forall|i: int|
        0 <= i < entries.len() ==> bag.count((#[trigger] entries[i]).0) == entries[i].1
            && entries[i].1 > 0
    &&& forall|pw: Seq<u8>| #[trigger]
        bag.count(pw) > 0 ==> exists|i: int|
            0 <= i < entries.len() && (#[trigger] entries[i]).0 == pw
}

proof fn lemma_entry_sum_of_bag(entries: Seq<(Seq<u8>, u64)>, bag: Multiset<Seq<u8>>)
    requires
        lists_bag(entries, bag),
    ensures
        entry_sum(entries) == bag.len(),
    decreases bag.len(), entries.len(),
{
    broadcast use vstd::multiset::group_multiset_axioms;

    if entries.len() == 0 {
        assert(bag =~= Multiset::<Seq<u8>>::empty());
    } else {
        let last = entries.len() - 1;
        let (pw, n) = entries[last];
        let fewer = bag.remove(pw);
        assert(bag.count(pw) == n);
        assert(fewer.len() == bag.len() - 1);
        if n == 1 {
            let rest = entries.drop_last();
            assert forall|i: int| 0 <= i < rest.len() implies fewer.count((#[trigger] rest[i]).0)
                == rest[i].1 && rest[i].1 > 0 by {
                assert(rest[i] == entries[i]);
                assert(entries[i].0 != entries[last].0);
            }
            assert forall|k: Seq<u8>| #[trigger] fewer.count(k) > 0 implies exists|i: int|
                0 <= i < rest.len() && (#[trigger] rest[i]).0 == k by {
                assert(bag.count(k) > 0);
                let i = choose|i: int| 0 <= i < entries.len() && (#[trigger] entries[i]).0 == k;
                assert(rest[i].0 == k);
            }
            lemma_entry_sum_of_bag(rest, fewer);
        } else {
            let rest = entries.update(last, (pw, (n - 1) as u64));
            assert forall|i: int| 0 <= i < rest.len() implies fewer.count((#[trigger] rest[i]).0)
                == rest[i].1 && rest[i].1 > 0 by {
                if i < last {
                    assert(rest[i] == entries[i]);
                    assert(entries[i].0 != entries[last].0);
                }
            }
            assert forall|i: int, j: int| 0 <= i < j < rest.len() implies (#[trigger] rest[i]).0
                != (#[trigger] rest[j]).0 by {
                assert(entries[i].0 != entries[j].0);
            }
            assert forall|k: Seq<u8>| #[trigger] fewer.count(k) > 0 implies exists|i: int|
                0 <= i < rest.len() && (#[trigger] rest[i]).0 == k by {
                assert(bag.count(k) > 0);
                let i = choose|i: int| 0 <= i < entries.len() && (#[trigger] entries[i]).0 == k;
                assert(rest[i].0 == k);
            }
            lemma_entry_sum_of_bag(rest, fewer);
            assert(rest.drop_last() =~= entries.drop_last());
        }
    }
}

/// The counts of a list of passwords add up to its length.
pub proof fn lemma_entry_sum_of_counts(entries: Seq<(Seq<u8>, u64)>, pws: Seq<Seq<u8>>)
    requires
        lists(entries, counts_of(pws)),
        pws.len() < 0x1_0000_0000_0000_0000,
    ensures
        entry_sum(entries) == pws.len(),
{
    broadcast use vstd::seq_lib::group_to_multiset_ensures;
    broadcast use vstd::multiset::group_multiset_axioms;

    let bag = pws.to_multiset();
    assert forall|pw: Seq<u8>| #[trigger] bag.count(pw) > 0 implies counts_of(pws).contains_key(
        pw,
    ) by {
        lemma_counts_exact(pws, pw);
    }
    assert forall|i: int| 0 <= i < entries.len() implies bag.count((#[trigger] entries[i]).0)
        == entries[i].1 && entries[i].1 > 0 by {
        lemma_counts_exact(pws, entries[i].0);
    }
    lemma_entry_sum_of_bag(entries, bag);
}

/// A count that is kept is the count itself below 2^64, and goes round from there.
pub proof fn lemma_wrapped_count(n: int)
    ensures
        0 <= n < 0x1_0000_0000_0000_0000 ==> wrap64(n) == n,
        wrap64(n + 0x1_0000_0000_0000_0000) == wrap64(n),
{
}

/// The key of a count: the count can be read back from it, and a negated key and its count cancel
/// out, modulo 2^64. Keys of counts below 2^63 are the numbers themselves, with the sign asked for.
pub proof fn lemma_keys_of_counts(count: u64)
    ensures
        count_key(count, false) as u64 == count,
        (count_key(count, true) + count) % 0x1_0000_0000_0000_0000 == 0,
        count <= i64::MAX ==> count_key(count, false) == count && count_key(count, true) == -count,
{
    let k = count as i64;
    assert(count <= 0x7fff_ffff_ffff_ffff ==> k == count) by (bit_vector)
        requires
            k == count as i64,
    ;
    assert(count > 0x7fff_ffff_ffff_ffff ==> k == count - 0x1_0000_0000_0000_0000) by (bit_vector)
        requires
            k == count as i64,
    ;
    lemma_count_of_key(count);
}

/// Entries become records one for one: the password stays, and the key is that of the count.
pub proof fn lemma_entries_as_records(s: Seq<(Seq<u8>, u64)>, negate: bool)
    ensures
        entry_recs(s, negate).len() == s.len(),
        forall|i: int|
            0 <= i < s.len() ==> (#[trigger] entry_recs(s, negate)[i]).pw == s[i].0 && entry_recs(
                s,
                negate,
            )[i].key == count_key(s[i].1, negate),
{
}

/// What the entries of a vector mean: the bytes of each password, and its count.
pub proof fn lemma_entries_mean(s: Seq<(Vec<u8>, u64)>)
    ensures
        entry_views(s).len() == s.len(),
        forall|i: int|
            0 <= i < s.len() ==> (#[trigger] entry_views(s)[i]).0 == s[i].0@ && entry_views(s)[i].1
                == s[i].1,
{
}

/// Adding counts up: a password has a count exactly if it has one on either side, and its count is
/// the sum of the two as long as that is below 2^64.
pub proof fn lemma_sum_of_counts(a: Counts, b: Counts, pw: Seq<u8>)
    ensures
        add_counts(a, b).contains_key(pw) <==> a.contains_key(pw) || b.contains_key(pw),
        a.contains_key(pw) && !b.contains_key(pw) ==> add_counts(a, b)[pw] == a[pw],
        b.contains_key(pw) && !a.contains_key(pw) ==> add_counts(a, b)[pw] == b[pw],
        a.contains_key(pw) && b.contains_key(pw) && a[pw] + b[pw] < 0x1_0000_0000_0000_0000
            ==> add_counts(a, b)[pw] == a[pw] + b[pw],
{
}

/// Counting more of one password changes nothing of the others.
pub proof fn lemma_one_more_counted(m: Counts, pw: Seq<u8>, n: u64, other: Seq<u8>)
    ensures
        add_one(m, pw, n).contains_key(pw),
        !m.contains_key(pw) ==> add_one(m, pw, n)[pw] == n,
        m.contains_key(pw) && m[pw] + n < 0x1_0000_0000_0000_0000 ==> add_one(m, pw, n)[pw] == m[pw]
            + n,
        other != pw ==> add_one(m, pw, n).contains_key(other) == m.contains_key(other),
        other != pw && m.contains_key(other) ==> add_one(m, pw, n)[other] == m[other],
{
}

/// A list of counts has each password once with its count, and leaves none out.
pub proof fn lemma_listing_is_complete(entries: Seq<(Seq<u8>, u64)>, m: Counts, pw: Seq<u8>)
    requires
        lists(entries, m),
    ensures
        m.contains_key(pw) <==> exists|i: int|
            0 <= i < entries.len() && (#[trigger] entries[i]).0 == pw,
        forall|i: int|
            0 <= i < entries.len() && (#[trigger] entries[i]).0 == pw ==> entries[i].1 == m[pw],
        forall|i: int, j: int|
            0 <= i < entries.len() && 0 <= j < entries.len() && (#[trigger] entries[i]).0 == pw && (
            #[trigger] entries[j]).0 == pw ==> i == j,
{
    assert forall|i: int, j: int|
        0 <= i < entries.len() && 0 <= j < entries.len() && (#[trigger] entries[i]).0 == pw && (
        #[trigger] entries[j]).0 == pw implies i == j by {
        if i < j {
            assert(entries[i].0 != entries[j].0);
        } else if j < i {
            assert(entries[j].0 != entries[i].0);
        }
    }
}

} // verus!
