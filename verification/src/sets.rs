//! Sets of line numbers: the few operations on hash sets that the selection
//! needs, and counting the lines that a set leaves out.

use vstd::prelude::*;
use std::collections::HashSet;
use vstd::std_specs::iter::IteratorSpec;

verus! {

broadcast use vstd::std_specs::hash::group_hash_axioms;

/// The members of `set`, each once, in no particular order.
pub fn members(set: &HashSet<usize>) -> (list: Vec<usize>)
    ensures
        list@.to_set() == set@,
        list@.no_duplicates(),
        list@.len() == set@.len(),
        set@.finite(),
{
    let mut list: Vec<usize> = Vec::new();
    let iter = set.iter();
    let ghost all = iter.remaining();
    assert(all.unref().to_set() == set@);
    assert(all.no_duplicates());
    for member in it: iter
        invariant
            it.seq() == all,
            list@.len() == it.index(),
            forall|j: int| 0 <= j < list@.len() ==> list@[j] == *all[j],
    {
        list.push(*member);
    }
    assert(list@ =~= all.unref());
    assert(list@.no_duplicates()) by {
        assert forall|i: int, j: int|
            0 <= i < list@.len() && 0 <= j < list@.len() && i != j implies list@[i] != list@[j] by {
            assert(all[i] != all[j]);
        }
    }
    proof {
        vstd::seq_lib::seq_to_set_is_finite(list@);
    }
    list
}

/// Puts every number from `lo` up to, and not including, `hi` into `set`.
pub fn insert_range(set: &mut HashSet<usize>, lo: usize, hi: usize)
    ensures
        forall|l: usize| #[trigger] final(set)@.contains(l) <==> old(set)@.contains(l) || lo <= l < hi,
{
    let mut l: usize = lo;
    while l < hi
        invariant
            lo <= l <= hi || (hi <= lo && l == lo),
            forall|x: usize| #[trigger] set@.contains(x) <==> old(set)@.contains(x) || lo <= x < l,
        decreases hi - l,
    {
        let ghost before = set@;
        set.insert(l);
        assert forall|x: usize| #[trigger] set@.contains(x) <==> old(set)@.contains(x) || lo <= x
            < l + 1 by {
            assert(set@.contains(x) <==> before.contains(x) || x == l);
        }
        l = l + 1;
    }
}

/// Puts every number of `list` into `set`.
pub fn insert_all(set: &mut HashSet<usize>, list: &Vec<usize>)
    ensures
        forall|l: usize| #[trigger]
            final(set)@.contains(l) <==> old(set)@.contains(l) || list@.contains(l),
{
    let mut k: usize = 0;
    while k < list.len()
        invariant
            k <= list@.len(),
            forall|l: usize| #[trigger]
                set@.contains(l) <==> old(set)@.contains(l) || exists|j: int|
                    0 <= j < k && list@[j] == l,
        decreases list@.len() - k,
    {
        let ghost before = set@;
        set.insert(list[k]);
        assert forall|l: usize| #[trigger]
            set@.contains(l) <==> old(set)@.contains(l) || exists|j: int|
                0 <= j < k + 1 && list@[j] == l by {
            assert(set@.contains(l) <==> before.contains(l) || l == list@[k as int]);
        }
        k = k + 1;
    }
}

/// Puts into `set`, for every number of `list`, the numbers below `bound`
/// that are no more than `pad` away from it.
pub fn insert_around(set: &mut HashSet<usize>, list: &Vec<usize>, pad: usize, bound: usize)
    ensures
        forall|l: usize| #[trigger]
            final(set)@.contains(l) <==> old(set)@.contains(l) || (l < bound && exists|j: int|
                0 <= j < list@.len() && (#[trigger] list@[j]) - pad <= l <= list@[j] + pad),
{
    let mut k: usize = 0;
    while k < list.len()
        invariant
            k <= list@.len(),
            forall|l: usize| #[trigger]
                set@.contains(l) <==> old(set)@.contains(l) || (l < bound && exists|j: int|
                    0 <= j < k && (#[trigger] list@[j]) - pad <= l <= list@[j] + pad),
        decreases list@.len() - k,
    {
        let ghost before = set@;
        let middle: usize = list[k];
        let lo: usize = middle.saturating_sub(pad);
        let hi: usize = middle.saturating_add(pad);
        let end: usize = if hi >= bound {
            bound
        } else {
            hi + 1
        };
        insert_range(set, lo, end);
        assert forall|l: usize| #[trigger]
            set@.contains(l) <==> old(set)@.contains(l) || (l < bound && exists|j: int|
                0 <= j < k + 1 && (#[trigger] list@[j]) - pad <= l <= list@[j] + pad) by {
            assert(set@.contains(l) <==> before.contains(l) || lo <= l < end);
            if lo <= l < end {
                assert(list@[k as int] - pad <= l <= list@[k as int] + pad);
            }
        }
        k = k + 1;
    }
}

/// How many of the numbers below `n` are not in `done`.
pub open spec fn count_left(done: Set<usize>, n: nat) -> nat
    decreases n,
{
    if n == 0 {
        0
    } else {
        count_left(done, (n - 1) as nat) + if done.contains((n - 1) as usize) {
            0nat
        } else {
            1nat
        }
    }
}

/// A set with one more number below `n` leaves one fewer out.
pub proof fn lemma_count_left_insert(done: Set<usize>, x: usize, n: nat)
    requires
        !done.contains(x),
        x < n,
        n <= usize::MAX + 1,
    ensures
        count_left(done.insert(x), n) + 1 == count_left(done, n),
    decreases n,
{
    if n - 1 == x {
        lemma_count_left_same(done, done.insert(x), (n - 1) as nat);
    } else {
        lemma_count_left_insert(done, x, (n - 1) as nat);
    }
}

/// Sets that agree below `n` leave the same number out.
pub proof fn lemma_count_left_same(done: Set<usize>, other: Set<usize>, n: nat)
    requires
        forall|x: usize| x < n ==> (done.contains(x) <==> other.contains(x)),
        n <= usize::MAX + 1,
    ensures
        count_left(done, n) == count_left(other, n),
    decreases n,
{
    if n > 0 {
        lemma_count_left_same(done, other, (n - 1) as nat);
    }
}

} // verus!
