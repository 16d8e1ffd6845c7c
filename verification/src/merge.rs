//! K-way merging of runs.

use vstd::prelude::*;

use crate::bytes::{compare_bytes, Rank};
use crate::codec::{
    decode_recs, front_rec, front_size, has_record, run_bytes, run_damaged, RunError, RunReader,
};
use crate::heap::{
    before, covers, head_le, head_recs, heap_push, heap_sink, holds, lemma_head_le_preorder,
    lemma_root_is_first, ordered, ordered_below, MergeOrder,
};
use crate::record::{Rec, Record};

verus! {

/// What is left of a run: the records still to come, and whether reading it ends in a record that
/// is cut short.
#[verifier::ext_equal]
pub struct Run {
    pub recs: Seq<Rec>,
    pub damaged: bool,
}

/// What the bytes of a run hold.
pub open spec fn run_of(b: Seq<u8>) -> Run {
    Run { recs: decode_recs(b), damaged: run_damaged(b) }
}

/// What the bytes of several runs hold.
pub open spec fn runs_of(bytes: Seq<Seq<u8>>) -> Seq<Run> {
    bytes.map_values(|b: Seq<u8>| run_of(b))
}

/// The run whose first record comes first, the lowest such run if there are several; -1 if no run
/// has a record left.
pub open spec fn front(order: MergeOrder, runs: Seq<Run>) -> int
    decreases runs.len(),
{
    if runs.len() == 0 {
        -1
    } else {
        let f = front(order, runs.drop_last());
        let last = runs.last();
        if last.recs.len() == 0 {
            f
        } else if f < 0 || !head_le(order, runs[f].recs[0], last.recs[0]) {
            runs.len() - 1
        } else {
            f
        }
    }
}

/// The first record of run `f` taken off.
pub open spec fn advance(runs: Seq<Run>, f: int) -> Seq<Run> {
    runs.update(f, Run { recs: runs[f].recs.drop_first(), damaged: runs[f].damaged })
}

/// Taking the first record of the run off uncovers a record that is cut short.
pub open spec fn breaks_off(run: Run) -> bool {
    run.recs.len() == 1 && run.damaged
}

/// Some run is damaged before its first record.
pub open spec fn broken_at_start(runs: Seq<Run>) -> bool {
    exists|i: int| 0 <= i < runs.len() && (#[trigger] runs[i]).recs.len() == 0 && runs[i].damaged
}

/// What [`front`] finds: a run with a record that is at or before every other run's first record,
/// and strictly before those of the lower runs.
pub proof fn lemma_front(order: MergeOrder, runs: Seq<Run>)
    ensures
        front(order, runs) < runs.len(),
        front(order, runs) < 0 ==> forall|i: int|
            0 <= i < runs.len() ==> (#[trigger] runs[i]).recs.len() == 0,
        front(order, runs) >= 0 ==> {
            let f = front(order, runs);
            &&& runs[f].recs.len() > 0
            &&& forall|i: int|
                0 <= i < runs.len() && (#[trigger] runs[i]).recs.len() > 0 ==> head_le(
                    order,
                    runs[f].recs[0],
                    runs[i].recs[0],
                )
            &&& forall|i: int|
                0 <= i < f && (#[trigger] runs[i]).recs.len() > 0 ==> !head_le(
                    order,
                    runs[i].recs[0],
                    runs[f].recs[0],
                )
        },
    decreases runs.len(),
{
    if runs.len() > 0 {
        let shorter = runs.drop_last();
        lemma_front(order, shorter);
        let g = front(order, shorter);
        let f = front(order, runs);
        let last = runs.last();
        assert forall|i: int| 0 <= i < runs.len() - 1 implies runs[i] == #[trigger] shorter[i] by {}
        if last.recs.len() > 0 {
            lemma_head_le_preorder(order, last.recs[0], last.recs[0], last.recs[0]);
            if g >= 0 {
                lemma_head_le_preorder(order, last.recs[0], runs[g].recs[0], last.recs[0]);
                assert forall|i: int| 0 <= i < runs.len() && (#[trigger] runs[i]).recs.len()
                    > 0 implies head_le(order, runs[f].recs[0], runs[i].recs[0]) by {
                    if i < runs.len() - 1 {
                        assert(runs[i] == shorter[i]);
                        lemma_head_le_preorder(
                            order,
                            last.recs[0],
                            runs[g].recs[0],
                            runs[i].recs[0],
                        );
                    }
                }
                assert forall|i: int| 0 <= i < f && (#[trigger] runs[i]).recs.len()
                    > 0 implies !head_le(order, runs[i].recs[0], runs[f].recs[0]) by {
                    assert(runs[i] == shorter[i]);
                    lemma_head_le_preorder(
                        order,
                        runs[g].recs[0],
                        runs[i].recs[0],
                        last.recs[0],
                    );
                }
            } else {
                assert forall|i: int| 0 <= i < runs.len() - 1 implies (#[trigger] runs[i]).recs.len()
                    == 0 by {
                    assert(runs[i] == shorter[i]);
                }
            }
        } else {
            assert forall|i: int| g >= 0 && 0 <= i < runs.len() && (#[trigger] runs[i]).recs.len()
                > 0 implies head_le(order, runs[f].recs[0], runs[i].recs[0]) && (i < f ==> !head_le(
                order,
                runs[i].recs[0],
                runs[f].recs[0],
            )) by {
                assert(runs[i] == shorter[i]);
            }
            assert forall|i: int| 0 <= i < runs.len() && g < 0 implies (#[trigger] runs[i]).recs.len()
                == 0 by {
                if i < runs.len() - 1 {
                    assert(runs[i] == shorter[i]);
                }
            }
        }
    }
}

/// Only one run can be at the front.
proof fn lemma_front_is(order: MergeOrder, runs: Seq<Run>, f: int)
    requires
        0 <= f < runs.len(),
        runs[f].recs.len() > 0,
        forall|i: int|
            0 <= i < runs.len() && i != f && (#[trigger] runs[i]).recs.len() > 0 ==> head_le(
                order,
                runs[f].recs[0],
                runs[i].recs[0],
            ) && (!head_le(order, runs[i].recs[0], runs[f].recs[0]) || f < i),
    ensures
        front(order, runs) == f,
{
    lemma_front(order, runs);
    let g = front(order, runs);
    if g < 0 {
        assert(runs[f].recs.len() == 0);
    } else if g != f {
        assert(runs[g].recs.len() > 0);
        assert(head_le(order, runs[f].recs[0], runs[g].recs[0]));
        assert(head_le(order, runs[g].recs[0], runs[f].recs[0]));
    }
}

/// Merges runs: hands out their records in the chosen order.
pub struct RunMerger<'a> {
    order: MergeOrder,
    readers: Vec<RunReader<'a>>,
    heads: Vec<Option<Record>>,
    heap: Vec<usize>,
}

impl<'a> RunMerger<'a> {
    /// What is left of each run.
    pub closed spec fn runs(&self) -> Seq<Run> {
        Seq::new(
            self.readers@.len(),
            |i: int| left_of(head_recs(self.heads@)[i], self.readers@[i]@),
        )
    }

    /// The order the records come in.
    pub closed spec fn merge_order(&self) -> MergeOrder {
        self.order
    }

    /// The merger is in a proper state.
    pub closed spec fn wf(&self) -> bool {
        &&& self.readers@.len() == self.heads@.len()
        &&& covers(head_recs(self.heads@), self.heap@)
        &&& ordered(self.order, head_recs(self.heads@), self.heap@)
        &&& forall|i: int|
            0 <= i < self.heads@.len() && (#[trigger] self.heads@[i]) is None ==> !has_record(
                self.readers@[i]@,
            )
    }
}

/// What is left of a run: its head, if it was read already, and what the unread bytes hold.
spec fn left_of(head: Option<Rec>, rest: Seq<u8>) -> Run {
    Run {
        recs: match head {
            Some(r) => seq![r] + decode_recs(rest),
            None => decode_recs(rest),
        },
        damaged: run_damaged(rest),
    }
}

proof fn lemma_read(b: Seq<u8>)
    ensures
        has_record(b) ==> {
            &&& decode_recs(b) == seq![front_rec(b)] + decode_recs(b.skip(front_size(b)))
            &&& run_damaged(b) == run_damaged(b.skip(front_size(b)))
        },
        !has_record(b) ==> decode_recs(b).len() == 0 && run_damaged(b) == (b.len() >= 8),
{
}

impl<'a> RunMerger<'a> {
    /// The root of the heap is the run at the front.
    proof fn lemma_root(&self)
        requires
            self.wf(),
        ensures
            self.heap@.len() == 0 ==> front(self.order, self.runs()) < 0,
            self.heap@.len() > 0 ==> front(self.order, self.runs()) == self.heap@[0],
    {
        let runs = self.runs();
        let hs = head_recs(self.heads@);
        lemma_front(self.order, runs);
        assert forall|i: int| 0 <= i < runs.len() implies ((#[trigger] runs[i]).recs.len() > 0
            <==> hs[i] is Some) by {
            lemma_read(self.readers@[i]@);
            assert(self.heads@[i] is None <==> hs[i] is None);
        }
        if self.heap@.len() == 0 {
            let f = front(self.order, runs);
            if f >= 0 {
                assert(hs[f] is Some);
                assert(holds(self.heap@, f));
            }
        } else {
            let f = self.heap@[0] as int;
            assert(hs[f] is Some);
            assert(runs[f].recs[0] == hs[f]->0);
            assert forall|i: int| 0 <= i < runs.len() && i != f && (#[trigger] runs[i]).recs.len()
                > 0 implies head_le(self.order, runs[f].recs[0], runs[i].recs[0]) && (!head_le(
                self.order,
                runs[i].recs[0],
                runs[f].recs[0],
            ) || f < i) by {
                assert(hs[i] is Some);
                let k = choose|k: int| 0 <= k < self.heap@.len() && self.heap@[k] == i;
                lemma_root_is_first(self.order, hs, self.heap@, k);
                assert(runs[i].recs[0] == hs[i]->0);
            }
            lemma_front_is(self.order, runs, f);
        }
    }

    /// Starts merging: reads the first record of each run.
    pub fn new(order: MergeOrder, runs: &[&'a [u8]]) -> (r: Result<RunMerger<'a>, RunError>)
        ensures
            match r {
                Ok(m) => {
                    &&& !broken_at_start(runs_of(run_bytes(runs@)))
                    &&& m.wf()
                    &&& m.merge_order() == order
                    &&& m.runs() == runs_of(run_bytes(runs@))
                },
                Err(RunError::UnexpectedEof) => broken_at_start(runs_of(run_bytes(runs@))),
            },
    {
        let ghost all = runs_of(run_bytes(runs@));
        let mut m = RunMerger {
            order,
            readers: Vec::new(),
            heads: Vec::new(),
            heap: Vec::new(),
        };
        let mut i: usize = 0;
        while i < runs.len()
            invariant
                i <= runs@.len(),
                all == runs_of(run_bytes(runs@)),
                m.order == order,
                m.wf(),
                m.readers@.len() == i,
                forall|j: int| 0 <= j < i ==> #[trigger] m.runs()[j] == all[j],
                forall|j: int|
                    0 <= j < i ==> !((#[trigger] all[j]).recs.len() == 0 && all[j].damaged),
            decreases runs@.len() - i,
        {
            let mut reader = RunReader::new(runs[i]);
            proof {
                lemma_read(runs@[i as int]@);
                assert(all[i as int] == run_of(runs@[i as int]@));
            }
            let ghost before_push = m;
            match reader.read_record() {
                Ok(Some(rec)) => {
                    m.readers.push(reader);
                    m.heads.push(Some(rec));
                    let ghost hs = head_recs(m.heads@);
                    let ghost old_hs = head_recs(before_push.heads@);
                    proof {
                        assert(hs =~= old_hs.push(Some(rec@)));
                        let gap = hs.update(i as int, None);
                        assert forall|k: int| 0 <= k < m.heap@.len() implies (#[trigger] m.heap@[k])
                            < gap.len() && gap[m.heap@[k] as int] is Some by {
                            assert(old_hs[m.heap@[k] as int] is Some);
                        }
                        assert forall|k: int| 0 <= k < gap.len() && (#[trigger] gap[k]) is Some implies
                            holds(m.heap@, k) by {
                            assert(old_hs[k] is Some);
                        }
                        assert forall|p: int, c: int|
                            #![trigger m.heap@[p], m.heap@[c]]
                            0 <= p < m.heap@.len() && 0 <= c < m.heap@.len()
                                && crate::heap::is_child(p, c) implies before(
                            order,
                            hs,
                            m.heap@[p] as int,
                            m.heap@[c] as int,
                        ) by {
                            assert(before(order, old_hs, m.heap@[p] as int, m.heap@[c] as int));
                        }
                    }
                    heap_push(order, &m.heads, &mut m.heap, i);
                },
                Ok(None) => {
                    m.readers.push(reader);
                    m.heads.push(None);
                    proof {
                        let hs = head_recs(m.heads@);
                        let old_hs = head_recs(before_push.heads@);
                        assert(hs =~= old_hs.push(None));
                        assert forall|k: int| 0 <= k < m.heap@.len() implies (#[trigger] m.heap@[k])
                            < hs.len() && hs[m.heap@[k] as int] is Some by {
                            assert(old_hs[m.heap@[k] as int] is Some);
                        }
                        assert forall|k: int| 0 <= k < hs.len() && (#[trigger] hs[k]) is Some implies
                            holds(m.heap@, k) by {
                            assert(old_hs[k] is Some);
                        }
                        assert forall|p: int, c: int|
                            #![trigger m.heap@[p], m.heap@[c]]
                            0 <= p < m.heap@.len() && 0 <= c < m.heap@.len()
                                && crate::heap::is_child(p, c) implies before(
                            order,
                            hs,
                            m.heap@[p] as int,
                            m.heap@[c] as int,
                        ) by {
                            assert(before(order, old_hs, m.heap@[p] as int, m.heap@[c] as int));
                        }
                    }
                },
                Err(e) => {
                    assert(all[i as int].recs.len() == 0 && all[i as int].damaged);
                    return Err(e);
                },
            }
            proof {
                assert forall|j: int| 0 <= j < i + 1 implies #[trigger] m.runs()[j] == all[j] by {
                    if j < i {
                        assert(before_push.runs()[j] == all[j]);
                        assert(m.readers@[j] == before_push.readers@[j]);
                        assert(m.heads@[j] == before_push.heads@[j]);
                    }
                }
                assert forall|j: int|
                    0 <= j < m.heads@.len() && (#[trigger] m.heads@[j]) is None implies
                    !has_record(m.readers@[j]@) by {
                    if j < i {
                        assert(before_push.heads@[j] is None);
                        assert(m.readers@[j] == before_push.readers@[j]);
                    }
                }
            }
            i = i + 1;
        }
        assert(m.runs() =~= all);
        Ok(m)
    }

    /// Whether the next record is for the password `pw`.
    pub fn front_is(&self, pw: &[u8]) -> (r: bool)
        requires
            self.wf(),
        ensures
            r == {
                let f = front(self.merge_order(), self.runs());
                f >= 0 && self.runs()[f].recs[0].pw == pw@
            },
    {
        proof {
            self.lemma_root();
        }
        if self.heap.len() == 0 {
            return false;
        }
        let i: usize = self.heap[0];
        assert(head_recs(self.heads@)[i as int] is Some);
        match &self.heads[i] {
            Some(rec) => compare_bytes(&rec.pw, pw) == Rank::Same,
            None => false,
        }
    }

    /// Takes the next record off. The flag that comes with it is false when the run the record
    /// came from turns out to be cut short right behind it.
    pub fn pop(&mut self) -> (r: Option<(Record, bool)>)
        requires
            old(self).wf(),
        ensures
            final(self).wf(),
            final(self).merge_order() == old(self).merge_order(),
            match r {
                Some((rec, intact)) => {
                    let f = front(old(self).merge_order(), old(self).runs());
                    &&& f >= 0
                    &&& rec@ == old(self).runs()[f].recs[0]
                    &&& final(self).runs() == advance(old(self).runs(), f)
                    &&& intact == !breaks_off(old(self).runs()[f])
                },
                None => {
                    &&& front(old(self).merge_order(), old(self).runs()) < 0
                    &&& final(self).runs() == old(self).runs()
                },
            },
    {
        proof {
            self.lemma_root();
        }
        if self.heap.len() == 0 {
            return None;
        }
        let i: usize = self.heap[0];
        let ghost hs = head_recs(self.heads@);
        let ghost old_runs = self.runs();
        assert(hs[i as int] is Some);
        let ghost rest = self.readers@[i as int]@;
        proof {
            lemma_read(rest);
            assert(old_runs[i as int].recs.drop_first() =~= decode_recs(rest));
            lemma_read(rest.skip(front_size(rest)));
        }
        let head = self.heads[i].take();
        let next = self.readers[i].read_record();
        let mut intact = true;
        let mut refilled = false;
        match next {
            Ok(Some(rec)) => {
                self.heads[i] = Some(rec);
                refilled = true;
            },
            Ok(None) => {},
            Err(_) => {
                intact = false;
            },
        }
        let ghost new_hs = head_recs(self.heads@);
        let ghost heap = self.heap@;
        proof {
            assert(new_hs =~= hs.update(i as int, new_hs[i as int]));
            assert forall|p: int, c: int|
                #![trigger heap[p], heap[c]]
                0 <= p < heap.len() && 0 <= c < heap.len() && crate::heap::is_child(p, c) && p
                    != 0 implies before(self.order, new_hs, heap[p] as int, heap[c] as int) by {
                assert(before(self.order, hs, heap[p] as int, heap[c] as int));
                assert(heap[p] != heap[0] && heap[c] != heap[0]);
            }
        }
        if refilled {
            assert(covers(new_hs, self.heap@)) by {
                assert forall|k: int| 0 <= k < new_hs.len() && (#[trigger] new_hs[k]) is Some implies
                    holds(heap, k) by {
                    assert(hs[k] is Some);
                }
            }
            heap_sink(self.order, &self.heads, &mut self.heap);
        } else {
            let last: usize = self.heap.len() - 1;
            let moved: usize = self.heap[last];
            self.heap.pop();
            if last > 0 {
                self.heap[0] = moved;
            }
            proof {
                let t = self.heap@;
                assert forall|k: int| 0 <= k < t.len() implies (#[trigger] t[k]) < new_hs.len()
                    && new_hs[t[k] as int] is Some by {
                    let from = if k == 0 { last as int } else { k };
                    assert(t[k] == heap[from]);
                    assert(heap[from] != heap[0]);
                }
                assert forall|k: int| 0 <= k < new_hs.len() && (#[trigger] new_hs[k]) is Some implies
                    holds(t, k) by {
                    assert(hs[k] is Some);
                    let w = choose|w: int| 0 <= w < heap.len() && heap[w] == k;
                    assert(w != 0);
                    if w == last {
                        assert(t[0] == k);
                    } else {
                        assert(t[w] == k);
                    }
                }
                assert(t.no_duplicates()) by {
                    assert forall|a: int, b: int| 0 <= a < t.len() && 0 <= b < t.len() && a
                        != b implies t[a] != t[b] by {
                        let fa = if a == 0 { last as int } else { a };
                        let fb = if b == 0 { last as int } else { b };
                        assert(t[a] == heap[fa] && t[b] == heap[fb]);
                    }
                }
                assert(covers(new_hs, t));
                assert forall|p: int, c: int|
                    #![trigger t[p], t[c]]
                    0 <= p < t.len() && 0 <= c < t.len() && crate::heap::is_child(p, c) && p
                        != 0 implies before(self.order, new_hs, t[p] as int, t[c] as int) by {
                    assert(t[p] == heap[p] && t[c] == heap[c]);
                }
                assert(ordered_below(self.order, new_hs, t, 0));
            }
            heap_sink(self.order, &self.heads, &mut self.heap);
        }
        proof {
            assert(self.runs() =~= advance(old_runs, i as int)) by {
                assert forall|j: int| 0 <= j < old_runs.len() implies #[trigger] self.runs()[j]
                    == advance(old_runs, i as int)[j] by {
                    if j == i {
                        assert(self.runs()[j].recs =~= decode_recs(rest));
                    } else {
                        assert(new_hs[j] == hs[j]);
                    }
                }
            }
        }
        match head {
            Some(rec) => Some((rec, intact)),
            None => None,
        }
    }
}

/// A merge fails to start exactly if some run is damaged and has no whole record at all; with
/// undamaged runs it always starts.
pub proof fn lemma_when_a_merge_starts(runs: Seq<Run>)
    ensures
        broken_at_start(runs) <==> !(forall|i: int|
            0 <= i < runs.len() ==> (#[trigger] runs[i]).recs.len() > 0 || !runs[i].damaged),
        (forall|i: int| 0 <= i < runs.len() ==> !(#[trigger] runs[i]).damaged)
            ==> !broken_at_start(runs),
{
    if !(forall|i: int|
        0 <= i < runs.len() ==> (#[trigger] runs[i]).recs.len() > 0 || !runs[i].damaged) {
        let i = choose|i: int|
            0 <= i < runs.len() && !((#[trigger] runs[i]).recs.len() > 0 || !runs[i].damaged);
        assert(runs[i].recs.len() == 0 && runs[i].damaged);
    }
}

/// What the bytes of runs hold, run by run.
pub proof fn lemma_runs_hold(bytes: Seq<Seq<u8>>)
    ensures
        runs_of(bytes).len() == bytes.len(),
        forall|i: int|
            0 <= i < bytes.len() ==> (#[trigger] runs_of(bytes)[i]).recs == decode_recs(bytes[i])
                && runs_of(bytes)[i].damaged == run_damaged(bytes[i]),
{
}

} // verus!
