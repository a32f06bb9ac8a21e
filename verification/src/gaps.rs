//! The gap closer: where a single line is left out between two lines that
//! are shown, it is shown too, so that no marker stands for one line alone.

use vstd::prelude::*;
use std::collections::HashSet;
use crate::model::close_gaps;
use crate::sets::members;

verus! {

broadcast use vstd::std_specs::hash::group_hash_axioms;

/// The lines of `shown`, and every line that lies alone between two of them.
pub fn close_small_gaps_helper(shown: &HashSet<usize>) -> (closed: HashSet<usize>)
    ensures
        closed@ == close_gaps(shown@),
{
    let list = members(shown);
    let mut closed: HashSet<usize> = HashSet::new();
    let mut k: usize = 0;
    while k < list.len()
        invariant
            k <= list@.len(),
            list@.to_set() == shown@,
            forall|l: usize| #[trigger]
                closed@.contains(l) <==> exists|j: int|
                    0 <= j < k && (l == (#[trigger] list@[j]) || (l == list@[j] + 1
                        && l < usize::MAX && shown@.contains((l + 1) as usize))),
        decreases list@.len() - k,
    {
        let ghost before = closed@;
        let line: usize = list[k];
        closed.insert(line);
        if line < usize::MAX - 1 && shown.contains(&(line + 2)) {
            closed.insert(line + 1);
        }
        assert forall|l: usize| #[trigger]
            closed@.contains(l) <==> exists|j: int|
                0 <= j < k + 1 && (l == (#[trigger] list@[j]) || (l == list@[j] + 1
                    && l < usize::MAX && shown@.contains((l + 1) as usize))) by {
            if closed@.contains(l) && !before.contains(l) {
                assert(l == list@[k as int] || (l == list@[k as int] + 1 && l < usize::MAX
                    && shown@.contains((l + 1) as usize)));
            }
            if before.contains(l) {
                let j = choose|j: int|
                    0 <= j < k && (l == (#[trigger] list@[j]) || (l == list@[j] + 1
                        && l < usize::MAX && shown@.contains((l + 1) as usize)));
                assert(0 <= j < k + 1);
            }
            if exists|j: int|
                0 <= j < k + 1 && (l == (#[trigger] list@[j]) || (l == list@[j] + 1
                    && l < usize::MAX && shown@.contains((l + 1) as usize))) {
                let j = choose|j: int|
                    0 <= j < k + 1 && (l == (#[trigger] list@[j]) || (l == list@[j] + 1
                        && l < usize::MAX && shown@.contains((l + 1) as usize)));
                if j < k {
                    assert(before.contains(l));
                }
            }
        }
        k = k + 1;
    }
    proof {
        assert forall|l: usize| closed@.contains(l) <==> close_gaps(shown@).contains(l) by {
            if closed@.contains(l) {
                let j = choose|j: int|
                    0 <= j < k && (l == (#[trigger] list@[j]) || (l == list@[j] + 1
                        && l < usize::MAX && shown@.contains((l + 1) as usize)));
                assert(list@.to_set().contains(list@[j]));
            }
            if shown@.contains(l) {
                assert(list@.to_set().contains(l));
                let j = choose|j: int| 0 <= j < list@.len() && list@[j] == l;
                assert(l == list@[j]);
            } else if close_gaps(shown@).contains(l) {
                let below = (l - 1) as usize;
                assert(list@.to_set().contains(below));
                let j = choose|j: int| 0 <= j < list@.len() && list@[j] == below;
                assert(l == list@[j] + 1);
            }
        }
        assert(closed@ =~= close_gaps(shown@));
    }
    closed
}

} // verus!
