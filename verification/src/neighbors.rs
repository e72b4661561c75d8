//! The neighbor locator: which in-bounds indices are adjacent to a point of
//! a landscape with `count` points.

use vstd::prelude::*;

use crate::model::{idxs_of, is_neighbor, neighbor_seq};

verus! {

/// The indices adjacent to `idx` in a landscape of `count` points, left
/// neighbor first. Point 0 has no left neighbor; when the landscape has more
/// than one point it is paired with point 1 instead, and gets no further
/// right neighbor of its own.
pub fn neighbor_list(idx: usize, count: usize) -> (r: Vec<usize>)
    requires
        idx < count,
    ensures
        r@.len() <= 2,
        forall|t: int| 0 <= t < r@.len() ==> is_neighbor(count as int, idx as int, r@[t] as int),
        forall|t: int| 0 <= t < r@.len() ==> r@[t] < count,
        forall|j: int|
            is_neighbor(count as int, idx as int, j) ==> exists|t: int|
                0 <= t < r@.len() && r@[t] == j,
        idxs_of(r@) == neighbor_seq(count as int, idx as int),
{
    let mut r: Vec<usize> = Vec::new();
    if idx > 0 {
        r.push(idx - 1);
        if idx < count - 1 {
            r.push(idx + 1);
        }
    } else {
        if count > 1 {
            r.push(1);
        }
    }
    proof {
        assert(idxs_of(r@) =~= neighbor_seq(count as int, idx as int));
        assert forall|j: int| is_neighbor(count as int, idx as int, j) implies exists|t: int|
            0 <= t < r@.len() && r@[t] == j by {
            if idx > 0 && j == idx - 1 {
                assert(r@[0] == (idx - 1) as usize);
            } else if idx == 0 {
                assert(r@[0] == 1usize);
            } else {
                assert(r@[1] == (idx + 1) as usize);
            }
        }
    }
    r
}

} // verus!
