//! Nearest-neighbour search: a branch-and-bound descent over the same
//! implicit layout.
//!
//! The side of each split on which the target lies is visited first to
//! tighten the running best squared distance; the far side is visited
//! only when the splitting hyperplane could still hide a closer object.

use vstd::prelude::*;

use crate::{
    all_dim, dist2, kd_range, lemma_dist2_axis_bound, max_sq, sq, Distance, KdTree, Object, Point,
};

verus! {

/// The branch-and-bound descent over the subrange `[lo, hi)`.
///
/// Takes the best candidate found so far, as its index and its squared
/// distance to the target, and returns the best candidate after also
/// considering every object of the subrange.
fn nearest_range<O: Object>(
    v: &Vec<O>,
    target: &Point,
    lo: usize,
    hi: usize,
    axis: usize,
    dim: usize,
    best_i: usize,
    best_d: u128,
) -> (r: (usize, u128))
    requires
        lo <= hi <= v@.len(),
        axis < dim,
        all_dim(v@, dim as int),
        target@.len() == dim,
        kd_range(v@, lo as int, hi as int, axis as int, dim as int),
        best_i < v@.len(),
        best_d == dist2(target@, v@[best_i as int].pos()),
    ensures
        r.0 < v@.len(),
        r.1 == dist2(target@, v@[r.0 as int].pos()),
        r.1 <= best_d,
        forall|j: int| lo <= j < hi ==> r.1 <= dist2(target@, (#[trigger] v@[j]).pos()),
    decreases hi - lo,
{
    if hi - lo == 0 {
        return (best_i, best_d);
    }
    let mid = lo + (hi - lo) / 2;
    let next = if axis + 1 < dim {
        axis + 1
    } else {
        0
    };
    let mpos = v[mid].position();
    let d = target.distance_2(mpos);

    let mut bi = best_i;
    let mut bd = best_d;
    if d < bd {
        bi = mid;
        bd = d;
    }

    let tc = target.coord(axis);
    let mcv = mpos.coord(axis);
    let off: i64 = tc as i64 - mcv as i64;
    proof {
        let oi = off as int;
        assert(0 <= oi * oi <= max_sq()) by (nonlinear_arith)
            requires
                -(u32::MAX as int) <= oi <= u32::MAX as int,
        ;
    }
    let off2: u128 = ((off as i128) * (off as i128)) as u128;

    if off >= 0 {
        // The target lies on or past the split: the right side is near.
        if mid + 1 < hi {
            let (i2, d2) = nearest_range(v, target, mid + 1, hi, next, dim, bi, bd);
            bi = i2;
            bd = d2;
        }
        if lo < mid {
            if bd > off2 {
                let (i3, d3) = nearest_range(v, target, lo, mid, next, dim, bi, bd);
                bi = i3;
                bd = d3;
            } else {
                proof {
                    // Everything on the far side is at least as far from
                    // the target as the splitting hyperplane, which is
                    // already no closer than the current best.
                    assert forall|j: int|
                        lo <= j < mid implies bd <= dist2(target@, (#[trigger] v@[j]).pos()) by {
                        let p = v@[j].pos();
                        assert(p[axis as int] <= v@[mid as int].pos()[axis as int]);
                        lemma_dist2_axis_bound(target@, p, dim as int, axis as int);
                        let x = target@[axis as int] - p[axis as int];
                        let o = off as int;
                        assert(sq(x) >= o * o) by (nonlinear_arith)
                            requires
                                0 <= o <= x,
                        ;
                    }
                }
            }
        }
    } else {
        // The target lies below the split: the left side is near.
        if lo < mid {
            let (i2, d2) = nearest_range(v, target, lo, mid, next, dim, bi, bd);
            bi = i2;
            bd = d2;
        }
        if mid + 1 < hi {
            if bd > off2 {
                let (i3, d3) = nearest_range(v, target, mid + 1, hi, next, dim, bi, bd);
                bi = i3;
                bd = d3;
            } else {
                proof {
                    assert forall|j: int|
                        mid < j < hi implies bd <= dist2(target@, (#[trigger] v@[j]).pos()) by {
                        let p = v@[j].pos();
                        assert(p[axis as int] >= v@[mid as int].pos()[axis as int]);
                        lemma_dist2_axis_bound(target@, p, dim as int, axis as int);
                        let x = target@[axis as int] - p[axis as int];
                        let o = off as int;
                        assert(sq(x) >= o * o) by (nonlinear_arith)
                            requires
                                x <= o < 0,
                        ;
                    }
                }
            }
        }
    }
    (bi, bd)
}

impl<O: Object> KdTree<O> {
    /// Find the object nearest to the given `target`.
    ///
    /// The distance is measured as the squared Euclidean distance between
    /// positions.  Returns the index of an object whose position
    /// minimizes the distance to `target` over all stored objects, or
    /// nothing exactly when the tree is empty.  Which of several equally
    /// near objects is returned is not specified.
    pub fn nearest(&self, target: &Point) -> (r: Option<usize>)
        requires
            self.wf(),
            self.kd_sorted(),
            self@.len() > 0 ==> target@.len() == self.spec_dim(),
        ensures
            r is None <==> self@.len() == 0,
            r matches Some(i) ==> i < self@.len() && forall|j: int|
                0 <= j < self@.len() ==> dist2(target@, self@[i as int].pos()) <= dist2(
                    target@,
                    (#[trigger] self@[j]).pos(),
                ),
    {
        let n = self.objects().len();
        if n == 0 {
            return None;
        }
        let dim = self.objects()[0].position().dim();
        let d0 = target.distance_2(self.objects()[0].position());
        let (i, d) = nearest_range(self.objects(), target, 0, n, 0, dim, 0, d0);
        Some(i)
    }
}

} // verus!
