//! An immutable, flat representation of a k-d tree.
//!
//! Objects are arranged in place so that the backing sequence forms an
//! implicit, balanced binary tree split by cycling coordinate axes.  The
//! arrangement supports bounding-box-pruned range queries and
//! branch-and-bound nearest-neighbour search, both verified against the
//! axis-ordering invariant established by construction.

use vstd::prelude::*;

pub mod look_up;
pub mod nearest;
pub mod sort;

pub use look_up::{Query, WithinBoundingBox, WithinDistance};

verus! {

/// A position in a finite-dimensional space with totally ordered integer
/// coordinate values along each axis.
#[derive(Clone)]
pub struct Point {
    coords: Vec<i32>,
}

impl View for Point {
    type V = Seq<i32>;

    closed spec fn view(&self) -> Seq<i32> {
        self.coords@
    }
}

impl Point {
    /// Wrap the given coordinate values, one per axis.
    pub fn new(coords: Vec<i32>) -> (p: Point)
        ensures
            p@ == coords@,
    {
        Point { coords }
    }

    /// The number of axes of the space this point lives in.
    pub fn dim(&self) -> (n: usize)
        ensures
            n == self@.len(),
    {
        self.coords.len()
    }

    /// The coordinate value of this point along the given `axis`.
    pub fn coord(&self, axis: usize) -> (c: i32)
        requires
            axis < self@.len(),
        ensures
            c == self@[axis as int],
    {
        self.coords[axis]
    }
}

/// The square of an integer.
pub open spec fn sq(x: int) -> int {
    x * x
}

/// The sum of the squared coordinate differences of `p` and `q` over the
/// first `k` axes.
pub open spec fn dist2_upto(p: Seq<i32>, q: Seq<i32>, k: int) -> int
    decreases k,
{
    if k <= 0 {
        0
    } else {
        dist2_upto(p, q, k - 1) + sq(p[k - 1] - q[k - 1])
    }
}

/// The squared Euclidean distance between the positions `p` and `q`.
pub open spec fn dist2(p: Seq<i32>, q: Seq<i32>) -> int {
    dist2_upto(p, q, p.len() as int)
}

/// Defines the objects which can be organized in a [`KdTree`] by
/// positioning them in the space defined by [`Point`].
pub trait Object {
    /// The position of this object, as a mathematical sequence of
    /// coordinate values.
    spec fn pos(&self) -> Seq<i32>;

    /// Return the position associated with this object.
    fn position(&self) -> (p: &Point)
        ensures
            p@ == self.pos(),
    ;
}

/// A point is an object positioned at itself.
impl Object for Point {
    open spec fn pos(&self) -> Seq<i32> {
        self@
    }

    fn position(&self) -> (p: &Point) {
        self
    }
}

/// An object carrying an opaque label alongside its position.
#[derive(Clone)]
pub struct Item {
    /// The label; the index never reads it.
    pub id: u64,
    /// Where the item lies.
    pub point: Point,
}

impl Object for Item {
    open spec fn pos(&self) -> Seq<i32> {
        self.point@
    }

    fn position(&self) -> (p: &Point) {
        &self.point
    }
}

/// Extends [`Point`] by the squared-distance metric required for nearest
/// neighbour search.
pub trait Distance {
    /// The position of `self`, as a sequence of coordinate values.
    spec fn coords(&self) -> Seq<i32>;

    /// Return the squared distance between `self` and `other`.
    ///
    /// Only the relation between two distance values matters to the
    /// search, so square roots are never taken.
    fn distance_2(&self, other: &Self) -> (d: u128)
        requires
            self.coords().len() == other.coords().len(),
        ensures
            d == dist2(self.coords(), other.coords()),
    ;
}

/// The largest value `sq(a - b)` can take for 32-bit coordinates `a`, `b`.
pub open spec fn max_sq() -> int {
    sq(u32::MAX as int)
}

/// Every summand of `dist2` is non-negative and at most [`max_sq`], so the
/// partial sums are bounded by `k * max_sq()`.
pub proof fn lemma_dist2_upto_bounds(p: Seq<i32>, q: Seq<i32>, k: int)
    requires
        k >= 0,
    ensures
        0 <= dist2_upto(p, q, k) <= k * max_sq(),
    decreases k,
{
    if k > 0 {
        lemma_dist2_upto_bounds(p, q, k - 1);
        let d = p[k - 1] - q[k - 1];
        assert(0 <= sq(d) <= max_sq()) by (nonlinear_arith)
            requires
                -(u32::MAX as int) <= d <= u32::MAX as int,
        ;
        assert((k - 1) * max_sq() + max_sq() == k * max_sq()) by (nonlinear_arith);
    }
}

/// The squared distance dominates the squared difference along any single
/// axis.
pub proof fn lemma_dist2_axis_bound(p: Seq<i32>, q: Seq<i32>, k: int, axis: int)
    requires
        0 <= axis < k,
    ensures
        dist2_upto(p, q, k) >= sq(p[axis] - q[axis]),
    decreases k,
{
    lemma_dist2_upto_bounds(p, q, axis);
    let d = p[k - 1] - q[k - 1];
    assert(sq(d) >= 0) by (nonlinear_arith);
    if axis < k - 1 {
        lemma_dist2_axis_bound(p, q, k - 1, axis);
    }
}

impl Distance for Point {
    open spec fn coords(&self) -> Seq<i32> {
        self@
    }

    fn distance_2(&self, other: &Self) -> (d: u128) {
        let n = self.coords.len();
        let mut acc: u128 = 0;
        let mut a: usize = 0;
        while a < n
            invariant
                n == self@.len() == other@.len(),
                0 <= a <= n,
                acc == dist2_upto(self@, other@, a as int),
                acc <= (a as int) * max_sq(),
            decreases n - a,
        {
            proof {
                lemma_dist2_upto_bounds(self@, other@, a as int);
            }
            let d: i64 = self.coords[a] as i64 - other.coords[a] as i64;
            proof {
                let di = d as int;
                assert(0 <= di * di <= max_sq()) by (nonlinear_arith)
                    requires
                        -(u32::MAX as int) <= di <= u32::MAX as int,
                ;
            }
            let dd: i128 = (d as i128) * (d as i128);
            assert(0 <= dd == sq(self@[a as int] - other@[a as int]) <= max_sq())
                by (nonlinear_arith)
                requires
                    d == self@[a as int] - other@[a as int],
                    dd == d * d,
                    -(u32::MAX as int) <= d <= u32::MAX as int,
            ;
            assert((a as int) * max_sq() + max_sq() == (a + 1) * max_sq()) by (nonlinear_arith);
            assert((a + 1) * max_sq() < u128::MAX) by (nonlinear_arith)
                requires
                    0 <= a < usize::MAX,
            ;
            acc = acc + (dd as u128);
            a = a + 1;
        }
        acc
    }
}

/// Whether the position `p` lies inside the axis-aligned bounding box with
/// corners `lower` and `upper`, component-wise on every axis of `p`.
pub open spec fn in_aabb(lower: Seq<i32>, upper: Seq<i32>, p: Seq<i32>) -> bool {
    forall|a: int|
        0 <= a < p.len() ==> lower[a] <= #[trigger] p[a] && p[a] <= upper[a]
}

/// The dimension of the space the objects of `s` live in; one when `s` is
/// empty, so that it is always a usable axis count.
pub open spec fn dim_of<O: Object>(s: Seq<O>) -> int {
    if s.len() == 0 {
        1
    } else {
        s[0].pos().len() as int
    }
}

/// Whether every object of `s` has a position with exactly `dim` axes.
pub open spec fn all_dim<O: Object>(s: Seq<O>, dim: int) -> bool {
    forall|i: int| 0 <= i < s.len() ==> (#[trigger] s[i].pos()).len() == dim
}

/// Whether the objects of `s` all live in the same space, of at least one
/// axis.
pub open spec fn uniform<O: Object>(s: Seq<O>) -> bool {
    dim_of(s) >= 1 && all_dim(s, dim_of(s))
}

/// The axis used one level below a split on `axis`, cycling through the
/// `dim` axes.
pub open spec fn next_axis(axis: int, dim: int) -> int {
    if axis + 1 < dim {
        axis + 1
    } else {
        0
    }
}

/// The index of the split object of the subrange `[lo, hi)`.
pub open spec fn mid_of(lo: int, hi: int) -> int {
    lo + (hi - lo) / 2
}

/// The k-d invariant of the subrange `[lo, hi)` of `s` at splitting axis
/// `axis`: the object at the midpoint has a coordinate along `axis` no
/// smaller than those before it and no larger than those after it, and the
/// two sides satisfy the same invariant at the next axis.
pub open spec fn kd_range<O: Object>(s: Seq<O>, lo: int, hi: int, axis: int, dim: int) -> bool
    decreases hi - lo,
{
    hi - lo < 2 || {
        let mid = mid_of(lo, hi);
        &&& forall|i: int|
            lo <= i < mid ==> (#[trigger] s[i]).pos()[axis] <= s[mid].pos()[axis]
        &&& forall|i: int|
            mid < i < hi ==> (#[trigger] s[i]).pos()[axis] >= s[mid].pos()[axis]
        &&& kd_range(s, lo, mid, next_axis(axis, dim), dim)
        &&& kd_range(s, mid + 1, hi, next_axis(axis, dim), dim)
    }
}

/// An immutable, flat representation of a k-d tree.
///
/// Accelerates spatial queries and nearest neighbour search by arranging
/// the objects according to the coordinate values of their positions.
pub struct KdTree<O> {
    objects: Vec<O>,
}

impl<O> View for KdTree<O> {
    type V = Seq<O>;

    closed spec fn view(&self) -> Seq<O> {
        self.objects@
    }
}

impl<O: Object> KdTree<O> {
    /// All objects live in one space of at least one axis.
    pub open spec fn wf(&self) -> bool {
        uniform(self@)
    }

    /// The number of axes of the space the stored objects live in.
    pub open spec fn spec_dim(&self) -> int {
        dim_of(self@)
    }

    /// The k-d invariant of the whole backing sequence: what construction
    /// by sorting establishes, and what both query engines rely on.
    pub open spec fn kd_sorted(&self) -> bool {
        kd_range(self@, 0, self@.len() as int, 0, dim_of(self@))
    }

    /// Interprets the given `objects` as a tree.
    ///
    /// No arrangement takes place and no validation is performed: the
    /// caller asserts that `objects` is already sorted as a k-d tree, as
    /// the query contracts demand.
    pub fn new_unchecked(objects: Vec<O>) -> (t: KdTree<O>)
        requires
            uniform(objects@),
        ensures
            t@ == objects@,
            t.wf(),
    {
        KdTree { objects }
    }

    /// Read-only access to the backing sequence of objects, in index
    /// order: the full in-order traversal of the implicit tree.
    pub fn objects(&self) -> (v: &Vec<O>)
        ensures
            v@ == self@,
    {
        &self.objects
    }

    /// The number of stored objects.
    pub fn len(&self) -> (n: usize)
        ensures
            n == self@.len(),
    {
        self.objects.len()
    }
}

/// Relies on rayon::join: it runs the two closures, possibly on
/// different worker threads of the current pool, and returns their two
/// results once both have finished.
#[verifier::external_body]
pub(crate) fn join<A, B, RA, RB>(oper_a: A, oper_b: B) -> (r: (RA, RB)) where
    A: FnOnce() -> RA + Send,
    B: FnOnce() -> RB + Send,
    RA: Send,
    RB: Send,

    requires
        call_requires(oper_a, ()),
        call_requires(oper_b, ()),
    ensures
        call_ensures(oper_a, (), r.0),
        call_ensures(oper_b, (), r.1),
{
    rayon::join(oper_a, oper_b)
}

/// Whether `position` lies inside the axis-aligned bounding box `aabb`,
/// given as its corner with the smallest and then the one with the largest
/// coordinate values.
fn contains(aabb: &(Point, Point), position: &Point) -> (r: bool)
    requires
        aabb.0@.len() == position@.len(),
        aabb.1@.len() == position@.len(),
    ensures
        r == in_aabb(aabb.0@, aabb.1@, position@),
{
    let n = position.dim();
    let mut a: usize = 0;
    while a < n
        invariant
            n == position@.len() == aabb.0@.len() == aabb.1@.len(),
            0 <= a <= n,
            forall|b: int|
                0 <= b < a ==> aabb.0@[b] <= #[trigger] position@[b] && position@[b] <= aabb.1@[b],
        decreases n - a,
    {
        if !(aabb.0.coord(a) <= position.coord(a) && position.coord(a) <= aabb.1.coord(a)) {
            return false;
        }
        a = a + 1;
    }
    true
}

} // verus!
