//! Merging many spilled runs in groups before the final merge.

use vstd::prelude::*;

use crate::threads::current_num_threads;

verus! {

/// Groups put back together.
pub open spec fn joined<T>(groups: Seq<Seq<T>>) -> Seq<T>
    decreases groups.len(),
{
    if groups.len() == 0 {
        Seq::empty()
    } else {
        joined(groups.drop_last()) + groups.last()
    }
}

/// Pieces behind a first one.
pub proof fn lemma_joined_front<T>(first: Seq<T>, rest: Seq<Seq<T>>)
    ensures
        joined(seq![first] + rest) == first + joined(rest),
    decreases rest.len(),
{
    let all = seq![first] + rest;
    if rest.len() == 0 {
        assert(all.drop_last() =~= Seq::<Seq<T>>::empty());
        assert(joined(all.drop_last()) =~= Seq::<T>::empty());
        assert(joined(all) =~= first + joined(rest));
    } else {
        lemma_joined_front(first, rest.drop_last());
        assert(all.drop_last() =~= seq![first] + rest.drop_last());
        assert(joined(all) =~= first + joined(rest));
    }
}

/// The contents of vectors.
pub open spec fn contents<T>(groups: Seq<Vec<T>>) -> Seq<Seq<T>> {
    groups.map_values(|g: Vec<T>| g@)
}

/// The items are cut into groups of `size`, the last of which may be smaller but is not empty.
pub open spec fn grouped<T>(groups: Seq<Seq<T>>, items: Seq<T>, size: int) -> bool {
    &&& joined(groups) == items
    &&& forall|i: int| 0 <= i < groups.len() - 1 ==> (#[trigger] groups[i]).len() == size
    &&& groups.len() > 0 ==> 0 < groups.last().len() <= size
}

/// How many items groups of one size have together.
proof fn lemma_joined_len<T>(groups: Seq<Seq<T>>, size: int)
    requires
        forall|i: int| 0 <= i < groups.len() ==> (#[trigger] groups[i]).len() == size,
    ensures
        joined(groups).len() == groups.len() * size,
    decreases groups.len(),
{
    if groups.len() > 0 {
        let shorter = groups.drop_last();
        assert forall|i: int| 0 <= i < shorter.len() implies (#[trigger] shorter[i]).len()
            == size by {
            assert(shorter[i] == groups[i]);
        }
        lemma_joined_len(shorter, size);
        assert(groups[groups.len() - 1].len() == size);
        assert(groups.len() * size == (groups.len() - 1) * size + size) by (nonlinear_arith);
    }
}

/// How many groups there are.
pub proof fn lemma_group_count<T>(groups: Seq<Seq<T>>, items: Seq<T>, size: int)
    requires
        grouped(groups, items, size),
        groups.len() > 0,
    ensures
        (groups.len() - 1) * size < items.len() <= groups.len() * size,
{
    let full = groups.drop_last();
    assert forall|i: int| 0 <= i < full.len() implies (#[trigger] full[i]).len() == size by {
        assert(full[i] == groups[i]);
    }
    lemma_joined_len(full, size);
    assert(groups.len() * size == (groups.len() - 1) * size + size) by (nonlinear_arith);
}

/// Cuts a vector into groups of `size`, the last of which may be smaller.
fn cut_groups<T>(items: Vec<T>, size: usize) -> (groups: Vec<Vec<T>>)
    requires
        size > 0,
    ensures
        grouped(contents(groups@), items@, size as int),
{
    let ghost all = items@;
    let ghost mut n: int = 0;
    let mut groups: Vec<Vec<T>> = Vec::new();
    let mut group: Vec<T> = Vec::new();
    for item in it: items.into_iter()
        invariant
            size > 0,
            it.seq() == all,
            it.index() == n,
            0 <= n <= all.len(),
            joined(contents(groups@)) + group@ == all.take(n),
            forall|i: int| 0 <= i < groups@.len() ==> (#[trigger] groups@[i])@.len() == size,
            0 < n ==> 0 < group@.len(),
            group@.len() <= size,
            group@.len() == 0 ==> groups@.len() == 0,
    {
        if group.len() == size {
            let ghost before = contents(groups@);
            let ghost last = group@;
            groups.push(group);
            group = Vec::new();
            proof {
                assert(contents(groups@).drop_last() =~= before);
                assert(contents(groups@).last() == last);
                assert(joined(contents(groups@)) + group@ =~= all.take(n));
            }
        }
        let ghost part = group@;
        group.push(item);
        proof {
            assert(all.take(n + 1) =~= all.take(n).push(item));
            assert(joined(contents(groups@)) + part.push(item) =~= (joined(contents(groups@))
                + part).push(item));
            n = n + 1;
        }
    }
    assert(all.take(n) =~= all);
    if group.len() > 0 {
        let ghost before = contents(groups@);
        let ghost last = group@;
        groups.push(group);
        proof {
            assert(contents(groups@).drop_last() =~= before);
            assert(contents(groups@).last() == last);
        }
    } else {
        assert(contents(groups@).len() == 0);
        assert(all =~= joined(contents(groups@)));
    }
    groups
}

/// Runs before the final merge.
pub enum Grouping<T> {
    /// Too few for grouping to help: they are merged as they are.
    Keep(Vec<T>),
    /// Groups of runs, each of which is first merged into one.
    Groups(Vec<Vec<T>>),
}

/// Grouping helps if there is more than one thread and at least two runs for each.
pub open spec fn worth_grouping(n: int, num_threads: int) -> bool {
    num_threads > 1 && n >= 2 * num_threads
}

/// How many runs go into a group: as many as it takes to make no more groups than threads, at
/// least two.
pub open spec fn group_size(n: int, num_threads: int) -> int {
    let even = (n + num_threads - 1) / num_threads;
    if even < 2 {
        2
    } else {
        even
    }
}

/// Groups of the planned size are at least two, and at most one for each thread.
pub proof fn lemma_groups_for_threads<T>(groups: Seq<Seq<T>>, items: Seq<T>, num_threads: int)
    requires
        worth_grouping(items.len() as int, num_threads),
        grouped(groups, items, group_size(items.len() as int, num_threads)),
    ensures
        2 <= groups.len() <= num_threads,
{
    let n = items.len() as int;
    let size = group_size(n, num_threads);
    if groups.len() == 0 {
        assert(items.len() == 0);
    } else {
        lemma_group_count(groups, items, size);
        vstd::arithmetic::div_mod::lemma_fundamental_div_mod(n + num_threads - 1, num_threads);
        let q = (n + num_threads - 1) / num_threads;
        assert(q >= 2) by (nonlinear_arith)
            requires
                n + num_threads - 1 < num_threads * q + num_threads,
                n >= 2 * num_threads,
                num_threads > 1,
        ;
        assert(size == q);
        let k = groups.len() as int;
        assert(k <= num_threads) by (nonlinear_arith)
            requires
                (k - 1) * size < n,
                n <= num_threads * size,
                size >= 2,
        ;
        assert(k >= 2) by (nonlinear_arith)
            requires
                n <= k * size,
                num_threads * size <= n + num_threads - 1,
                n >= 2 * num_threads,
                num_threads >= 2,
                size >= 2,
        ;
    }
}

/// Decides which runs are merged together before the final merge, for so many threads.
pub fn group_runs<T>(runs: Vec<T>, num_threads: usize) -> (r: Grouping<T>)
    ensures
        match r {
            Grouping::Keep(kept) => !worth_grouping(runs@.len() as int, num_threads as int) && kept@
                == runs@,
            Grouping::Groups(groups) => {
                &&& worth_grouping(runs@.len() as int, num_threads as int)
                &&& grouped(
                    contents(groups@),
                    runs@,
                    group_size(runs@.len() as int, num_threads as int),
                )
                &&& 2 <= groups@.len() <= num_threads
            },
        },
{
    let n: usize = runs.len();
    if num_threads <= 1 || n / 2 < num_threads {
        return Grouping::Keep(runs);
    }
    proof {
        lemma_divided_up(n as int, num_threads as int);
    }
    let mut size: usize = n / num_threads;
    if n % num_threads != 0 {
        size = size + 1;
    }
    if size < 2 {
        size = 2;
    }
    let groups = cut_groups(runs, size);
    proof {
        lemma_groups_for_threads(contents(groups@), runs@, num_threads as int);
    }
    Grouping::Groups(groups)
}

/// Dividing and rounding up.
proof fn lemma_divided_up(n: int, d: int)
    requires
        n >= 0,
        d > 0,
    ensures
        (n + d - 1) / d == (if n % d != 0 {
            n / d + 1
        } else {
            n / d
        }),
        n / d <= n,
        n % d != 0 && d > 1 ==> n / d < n,
{
    let q = n / d;
    let r = n % d;
    vstd::arithmetic::div_mod::lemma_fundamental_div_mod(n, d);
    vstd::arithmetic::div_mod::lemma_div_nonincreasing(n, d);
    if r != 0 {
        assert(n + d - 1 == (q + 1) * d + (r - 1)) by (nonlinear_arith)
            requires
                n == d * q + r,
        ;
        vstd::arithmetic::div_mod::lemma_fundamental_div_mod_converse(n + d - 1, d, q + 1, r - 1);
        if d > 1 && q == n {
            assert(d * q > q) by (nonlinear_arith)
                requires
                    d > 1,
                    q > 0,
            ;
        }
    } else {
        assert(n + d - 1 == q * d + (d - 1)) by (nonlinear_arith)
            requires
                n == d * q + r,
                r == 0,
        ;
        vstd::arithmetic::div_mod::lemma_fundamental_div_mod_converse(n + d - 1, d, q, d - 1);
    }
}

/// The groups are those that are made for so many threads.
pub open spec fn grouped_for<T>(groups: Seq<Seq<T>>, items: Seq<T>, num_threads: int) -> bool {
    &&& worth_grouping(items.len() as int, num_threads)
    &&& grouped(groups, items, group_size(items.len() as int, num_threads))
    &&& 2 <= groups.len() <= num_threads
}

/// Decides which runs are merged together before the final merge, for the threads of the pool: as
/// [`group_runs`] does for their number. Whatever that is, every run is in exactly one place, and
/// runs stay in order. Fewer than four runs are always kept.
pub fn parallel_merge_counting_runs<T>(runs: Vec<T>) -> (r: Grouping<T>)
    ensures
        match r {
            Grouping::Keep(kept) => kept@ == runs@,
            Grouping::Groups(groups) => {
                &&& runs@.len() >= 4
                &&& joined(contents(groups@)) == runs@
                &&& exists|t: int| #[trigger] grouped_for(contents(groups@), runs@, t)
            },
        },
{
    let num_threads: usize = current_num_threads();
    let ghost all = runs@;
    let r = group_runs(runs, num_threads);
    proof {
        if let Grouping::Groups(groups) = &r {
            assert(grouped_for(contents(groups@), all, num_threads as int));
        }
    }
    r
}

/// Groups put back together, group by group.
pub proof fn lemma_joined_one_more<T>(groups: Seq<Seq<T>>, group: Seq<T>)
    ensures
        joined(Seq::<Seq<T>>::empty()) == Seq::<T>::empty(),
        joined(groups.push(group)) == joined(groups) + group,
{
    assert(groups.push(group).drop_last() =~= groups);
}

/// Groups are as small as they can be: of at least two runs, and with one run fewer there would be
/// more of them than threads.
pub proof fn lemma_group_size_is_least(n: int, num_threads: int)
    requires
        n >= 0,
        num_threads > 0,
    ensures
        group_size(n, num_threads) >= 2,
        group_size(n, num_threads) * num_threads >= n,
        group_size(n, num_threads) > 2 ==> (group_size(n, num_threads) - 1) * num_threads < n,
{
    let t = num_threads;
    let q = (n + t - 1) / t;
    vstd::arithmetic::div_mod::lemma_fundamental_div_mod(n + t - 1, t);
    assert(t * q <= n + t - 1 < t * q + t);
    assert(q * t == t * q && (q - 1) * t == t * q - t) by (nonlinear_arith);
    if q < 2 {
        assert(2 * t >= n) by (nonlinear_arith)
            requires
                q < 2,
                t > 0,
                n + t - 1 < t * q + t,
        ;
    }
}

/// Runs are grouped exactly if there is more than one thread and each could have two runs.
pub proof fn lemma_when_grouping_helps(n: int, num_threads: int)
    ensures
        worth_grouping(n, num_threads) <==> num_threads >= 2 && n - num_threads >= num_threads,
{
}

} // verus!
