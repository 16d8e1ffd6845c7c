//! A binary heap over the heads of several runs: it finds the run whose head comes first.

use vstd::prelude::*;

use crate::bytes::{compare_bytes, Rank};
use crate::record::{rec_le, Rec, Record};

verus! {

/// What the heads of runs are ordered by.
#[derive(Clone, Copy, Debug, PartialEq, Eq, Structural)]
pub enum MergeOrder {
    /// By password alone.
    ByPassword,
    /// By key, then by password.
    ByRecord,
}

/// `a` is at or before `b` in the chosen order.
pub open spec fn head_le(order: MergeOrder, a: Rec, b: Rec) -> bool {
    match order {
        MergeOrder::ByPassword => crate::bytes::bytes_le(a.pw, b.pw),
        MergeOrder::ByRecord => rec_le(a, b),
    }
}

/// The chosen order is a total preorder.
pub proof fn lemma_head_le_preorder(order: MergeOrder, a: Rec, b: Rec, c: Rec)
    ensures
        head_le(order, a, a),
        head_le(order, a, b) || head_le(order, b, a),
        head_le(order, a, b) && head_le(order, b, c) ==> head_le(order, a, c),
{
    broadcast use crate::bytes::group_bytes_le;

}

/// The heads of the runs, as far as they have one.
pub open spec fn head_recs(heads: Seq<Option<Record>>) -> Seq<Option<Rec>> {
    heads.map_values(
        |h: Option<Record>|
            match h {
                Some(r) => Some(r@),
                None => None,
            },
    )
}

/// The head of run `i` comes before that of run `j`; of equal heads that of the lower run does.
pub open spec fn before(order: MergeOrder, heads: Seq<Option<Rec>>, i: int, j: int) -> bool {
    let a = heads[i]->0;
    let b = heads[j]->0;
    head_le(order, a, b) && (!head_le(order, b, a) || i < j)
}

proof fn lemma_before_total(order: MergeOrder, heads: Seq<Option<Rec>>, i: int, j: int)
    requires
        i != j,
    ensures
        before(order, heads, i, j) <==> !before(order, heads, j, i),
{
    lemma_head_le_preorder(order, heads[i]->0, heads[j]->0, heads[i]->0);
}

proof fn lemma_before_transitive(
    order: MergeOrder,
    heads: Seq<Option<Rec>>,
    i: int,
    j: int,
    k: int,
)
    requires
        before(order, heads, i, j),
        before(order, heads, j, k),
    ensures
        before(order, heads, i, k),
{
    lemma_head_le_preorder(order, heads[i]->0, heads[j]->0, heads[k]->0);
    lemma_head_le_preorder(order, heads[k]->0, heads[i]->0, heads[j]->0);
    lemma_head_le_preorder(order, heads[j]->0, heads[k]->0, heads[i]->0);
}

/// `c` is a child of `p` in a heap.
pub open spec fn is_child(p: int, c: int) -> bool {
    c == 2 * p + 1 || c == 2 * p + 2
}

/// Every entry of the heap comes before its children, except that nothing is said of the children
/// of the entry at `hole`.
pub open spec fn ordered_below(
    order: MergeOrder,
    heads: Seq<Option<Rec>>,
    heap: Seq<usize>,
    hole: int,
) -> bool {
    forall|p: int, c: int|
        #![trigger heap[p], heap[c]]
        0 <= p < heap.len() && 0 <= c < heap.len() && is_child(p, c) && p != hole ==> before(
            order,
            heads,
            heap[p] as int,
            heap[c] as int,
        )
}

/// Every entry of the heap comes before its children.
pub open spec fn ordered(order: MergeOrder, heads: Seq<Option<Rec>>, heap: Seq<usize>) -> bool {
    ordered_below(order, heads, heap, -1)
}

/// Run `i` is in the heap.
pub open spec fn holds(heap: Seq<usize>, i: int) -> bool {
    exists|k: int| 0 <= k < heap.len() && #[trigger] heap[k] == i
}

/// The heap holds exactly the runs that have a head, each once.
pub open spec fn covers(heads: Seq<Option<Rec>>, heap: Seq<usize>) -> bool {
    &&& heap.no_duplicates()
    &&& forall|k: int|
        0 <= k < heap.len() ==> (#[trigger] heap[k]) < heads.len() && heads[heap[k] as int] is Some
    &&& forall|i: int|
        0 <= i < heads.len() && (#[trigger] heads[i]) is Some ==> holds(heap, i)
}

/// Entry `a` and entry `b` exchanged.
pub open spec fn swapped(s: Seq<usize>, a: int, b: int) -> Seq<usize> {
    s.update(a, s[b]).update(b, s[a])
}

proof fn lemma_swap_covers(heads: Seq<Option<Rec>>, s: Seq<usize>, a: int, b: int)
    requires
        0 <= a < s.len(),
        0 <= b < s.len(),
        covers(heads, s),
    ensures
        covers(heads, swapped(s, a, b)),
{
    let t = swapped(s, a, b);
    assert forall|x: int| holds(s, x) implies holds(t, x) by {
        let i = choose|i: int| 0 <= i < s.len() && s[i] == x;
        if i == a {
            assert(t[b] == x);
        } else if i == b {
            assert(t[a] == x);
        } else {
            assert(t[i] == x);
        }
    }
}

/// In an ordered heap the root comes before every other entry.
pub proof fn lemma_root_is_first(
    order: MergeOrder,
    heads: Seq<Option<Rec>>,
    heap: Seq<usize>,
    k: int,
)
    requires
        ordered(order, heads, heap),
        0 < k < heap.len(),
    ensures
        before(order, heads, heap[0] as int, heap[k] as int),
    decreases k,
{
    let p = (k - 1) / 2;
    assert(is_child(p, k));
    assert(before(order, heads, heap[p] as int, heap[k] as int));
    if p > 0 {
        lemma_root_is_first(order, heads, heap, p);
        lemma_before_transitive(
            order,
            heads,
            heap[0] as int,
            heap[p] as int,
            heap[k] as int,
        );
    }
}

/// Compares two records in the chosen order.
pub fn compare_heads(order: MergeOrder, a: &Record, b: &Record) -> (r: Rank)
    ensures
        match r {
            Rank::Before => head_le(order, a@, b@) && !head_le(order, b@, a@),
            Rank::Same => head_le(order, a@, b@) && head_le(order, b@, a@),
            Rank::After => head_le(order, b@, a@) && !head_le(order, a@, b@),
        },
{
    broadcast use crate::bytes::group_bytes_le;

    match order {
        MergeOrder::ByPassword => compare_bytes(&a.pw, &b.pw),
        MergeOrder::ByRecord => {
            if a.key < b.key {
                Rank::Before
            } else if b.key < a.key {
                Rank::After
            } else {
                compare_bytes(&a.pw, &b.pw)
            }
        },
    }
}

/// Whether the head of run `i` comes before that of run `j`.
fn head_before(order: MergeOrder, heads: &Vec<Option<Record>>, i: usize, j: usize) -> (r: bool)
    requires
        i < heads@.len(),
        j < heads@.len(),
        heads@[i as int] is Some,
        heads@[j as int] is Some,
    ensures
        r == before(order, head_recs(heads@), i as int, j as int),
{
    match (&heads[i], &heads[j]) {
        (Some(a), Some(b)) => match compare_heads(order, a, b) {
            Rank::Before => true,
            Rank::Same => i < j,
            Rank::After => false,
        },
        _ => false,
    }
}

/// Puts run `i`, which now has a head, into the heap.
pub fn heap_push(order: MergeOrder, heads: &Vec<Option<Record>>, heap: &mut Vec<usize>, i: usize)
    requires
        i < heads@.len(),
        heads@[i as int] is Some,
        covers(head_recs(heads@).update(i as int, None), old(heap)@),
        ordered(order, head_recs(heads@), old(heap)@),
    ensures
        covers(head_recs(heads@), final(heap)@),
        ordered(order, head_recs(heads@), final(heap)@),
{
    let ghost hs = head_recs(heads@);
    let ghost start = heap@;
    heap.push(i);
    proof {
        assert forall|k: int| 0 <= k < hs.len() && (#[trigger] hs[k]) is Some implies holds(
            heap@,
            k,
        ) by {
            if k == i {
                assert(heap@[heap@.len() - 1] == i);
            } else {
                assert(hs.update(i as int, None)[k] is Some);
                let w = choose|w: int| 0 <= w < start.len() && start[w] == k;
                assert(heap@[w] == k);
            }
        }
        assert forall|k: int| 0 <= k < start.len() implies start[k] != i by {
            assert(hs.update(i as int, None)[start[k] as int] is Some);
        }
        assert forall|k: int| 0 <= k < heap@.len() implies (#[trigger] heap@[k]) < hs.len()
            && hs[heap@[k] as int] is Some by {
            if k < start.len() {
                assert(heap@[k] == start[k]);
                assert(hs.update(i as int, None)[start[k] as int] is Some);
            }
        }
    }
    let mut pos: usize = heap.len() - 1;
    while pos > 0
        invariant
            hs == head_recs(heads@),
            pos < heap@.len(),
            covers(hs, heap@),
            forall|p: int, c: int|
                #![trigger heap@[p], heap@[c]]
                0 <= p < heap@.len() && 0 <= c < heap@.len() && is_child(p, c) && c != pos
                    ==> before(order, hs, heap@[p] as int, heap@[c] as int),
            forall|g: int, c: int|
                #![trigger heap@[g], heap@[c]]
                0 <= g < heap@.len() && 0 <= c < heap@.len() && is_child(g, pos as int) && is_child(
                    pos as int,
                    c,
                ) ==> before(order, hs, heap@[g] as int, heap@[c] as int),
        ensures
            covers(hs, heap@),
            ordered(order, hs, heap@),
        decreases pos,
    {
        let parent: usize = (pos - 1) / 2;
        assert(is_child(parent as int, pos as int));
        let a: usize = heap[parent];
        let b: usize = heap[pos];
        proof {
            lemma_before_total(order, hs, a as int, b as int);
        }
        if head_before(order, heads, a, b) {
            break;
        }
        let ghost pre = heap@;
        heap[parent] = b;
        heap[pos] = a;
        proof {
            assert(heap@ =~= swapped(pre, parent as int, pos as int));
            lemma_swap_covers(hs, pre, parent as int, pos as int);
            assert forall|p: int, c: int|
                #![trigger heap@[p], heap@[c]]
                0 <= p < heap@.len() && 0 <= c < heap@.len() && is_child(p, c) && c
                    != parent implies before(order, hs, heap@[p] as int, heap@[c] as int) by {
                if c == pos {
                    assert(p == parent);
                } else if p == parent {
                    // the other child of the parent
                    assert(before(order, hs, pre[parent as int] as int, pre[c] as int));
                    lemma_before_transitive(order, hs, b as int, a as int, pre[c] as int);
                } else if p == pos {
                    assert(before(order, hs, pre[parent as int] as int, pre[c] as int));
                } else {
                    assert(before(order, hs, pre[p] as int, pre[c] as int));
                }
            }
            assert forall|g: int, c: int|
                #![trigger heap@[g], heap@[c]]
                0 <= g < heap@.len() && 0 <= c < heap@.len() && is_child(g, parent as int)
                    && is_child(parent as int, c) implies before(
                order,
                hs,
                heap@[g] as int,
                heap@[c] as int,
            ) by {
                assert(before(order, hs, pre[g] as int, pre[parent as int] as int));
                if c != pos {
                    assert(before(order, hs, pre[parent as int] as int, pre[c] as int));
                    lemma_before_transitive(
                        order,
                        hs,
                        pre[g] as int,
                        pre[parent as int] as int,
                        pre[c] as int,
                    );
                }
            }
        }
        pos = parent;
    }
}

/// Moves the root down to where it belongs.
pub fn heap_sink(order: MergeOrder, heads: &Vec<Option<Record>>, heap: &mut Vec<usize>)
    requires
        covers(head_recs(heads@), old(heap)@),
        ordered_below(order, head_recs(heads@), old(heap)@, 0),
    ensures
        covers(head_recs(heads@), final(heap)@),
        ordered(order, head_recs(heads@), final(heap)@),
{
    let ghost hs = head_recs(heads@);
    let mut pos: usize = 0;
    while pos < heap.len() / 2
        invariant
            hs == head_recs(heads@),
            pos <= heap@.len(),
            covers(hs, heap@),
            ordered_below(order, hs, heap@, pos as int),
            forall|g: int, c: int|
                #![trigger heap@[g], heap@[c]]
                0 <= g < heap@.len() && 0 <= c < heap@.len() && is_child(g, pos as int) && is_child(
                    pos as int,
                    c,
                ) ==> before(order, hs, heap@[g] as int, heap@[c] as int),
        ensures
            covers(hs, heap@),
            ordered(order, hs, heap@),
        decreases heap@.len() - pos,
    {
        let left: usize = 2 * pos + 1;
        let mut child: usize = left;
        proof {
            if left + 1 < heap@.len() {
                lemma_before_total(order, hs, heap@[left as int] as int, heap@[left + 1] as int);
            }
        }
        if left + 1 < heap.len() && head_before(order, heads, heap[left + 1], heap[left]) {
            child = left + 1;
        }
        assert(is_child(pos as int, child as int));
        let a: usize = heap[pos];
        let b: usize = heap[child];
        proof {
            lemma_before_total(order, hs, a as int, b as int);
        }
        let ghost pre = heap@;
        assert forall|c: int| 0 <= c < pre.len() && is_child(pos as int, c) && c != child implies before(
            order,
            hs,
            b as int,
            #[trigger] pre[c] as int,
        ) by {}
        if head_before(order, heads, a, b) {
            proof {
                assert forall|p: int, c: int|
                    #![trigger heap@[p], heap@[c]]
                    0 <= p < heap@.len() && 0 <= c < heap@.len() && is_child(p, c) implies before(
                    order,
                    hs,
                    heap@[p] as int,
                    heap@[c] as int,
                ) by {
                    if p == pos && c != child {
                        lemma_before_transitive(order, hs, a as int, b as int, pre[c] as int);
                    }
                }
            }
            break;
        }
        heap[pos] = b;
        heap[child] = a;
        proof {
            assert(heap@ =~= swapped(pre, pos as int, child as int));
            lemma_swap_covers(hs, pre, pos as int, child as int);
            assert forall|p: int, c: int|
                #![trigger heap@[p], heap@[c]]
                0 <= p < heap@.len() && 0 <= c < heap@.len() && is_child(p, c) && p
                    != child implies before(order, hs, heap@[p] as int, heap@[c] as int) by {
                if p == pos {
                    if c != child {
                        assert(before(order, hs, b as int, pre[c] as int));
                    }
                } else if c == pos {
                    assert(before(order, hs, pre[p] as int, pre[child as int] as int));
                } else {
                    assert(c != child);
                    assert(before(order, hs, pre[p] as int, pre[c] as int));
                }
            }
            assert forall|g: int, c: int|
                #![trigger heap@[g], heap@[c]]
                0 <= g < heap@.len() && 0 <= c < heap@.len() && is_child(g, child as int)
                    && is_child(child as int, c) implies before(
                order,
                hs,
                heap@[g] as int,
                heap@[c] as int,
            ) by {
                assert(g == pos);
                assert(before(order, hs, pre[child as int] as int, pre[c] as int));
            }
        }
        pos = child;
    }
}

/// Heads are ordered by password alone, or as records.
pub proof fn lemma_order_of_heads(a: Rec, b: Rec)
    ensures
        head_le(MergeOrder::ByPassword, a, b) <==> crate::bytes::bytes_le(a.pw, b.pw),
        head_le(MergeOrder::ByRecord, a, b) <==> a.key < b.key || (a.key == b.key
            && crate::bytes::bytes_le(a.pw, b.pw)),
{
}

} // verus!
