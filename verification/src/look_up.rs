//! Range queries: finding every stored object whose position lies inside
//! a query's axis-aligned bounding box and passes its refinement test.
//!
//! The descent prunes a side of a split exactly when the box cannot reach
//! it, which is sound only because the query walks the axes in the same
//! order as construction did.

use vstd::prelude::*;

use crate::{
    all_dim, contains, dist2, in_aabb, kd_range, lemma_dist2_axis_bound, max_sq, next_axis, sq,
    Distance, KdTree, Object, Point,
};

verus! {

/// Defines a spatial query by its axis-aligned bounding box (AABB) and a
/// test of a single position.
///
/// The AABB limits which positions are tested at all, so it must contain
/// every position the test accepts; the test itself may then be an
/// arbitrary refinement.
pub trait Query {
    /// Whether the query value is internally consistent; what the
    /// constructors of the provided queries establish.
    spec fn q_wf(&self) -> bool;

    /// The corner of the bounding box with the smallest coordinate
    /// values.
    spec fn lower(&self) -> Seq<i32>;

    /// The corner of the bounding box with the largest coordinate values.
    spec fn upper(&self) -> Seq<i32>;

    /// The refinement predicate of the query over a single position.
    spec fn spec_test(&self, p: Seq<i32>) -> bool;

    /// Return the axis-aligned bounding box (AABB) of the query,
    /// represented by the corners with first the smallest and then the
    /// largest coordinate values.
    fn aabb(&self) -> (r: &(Point, Point))
        requires
            self.q_wf(),
        ensures
            r.0@ == self.lower(),
            r.1@ == self.upper(),
    ;

    /// Check whether a given `position` inside the bounding box matches
    /// the query.
    fn test(&self, position: &Point) -> (r: bool)
        requires
            self.q_wf(),
            position@.len() == self.lower().len(),
            in_aabb(self.lower(), self.upper(), position@),
        ensures
            r == self.spec_test(position@),
    ;
}

/// Whether the position `p` matches the query `q`: it lies inside the
/// bounding box and passes the refinement test.
pub open spec fn matched<Q: Query>(q: &Q, p: Seq<i32>) -> bool {
    in_aabb(q.lower(), q.upper(), p) && q.spec_test(p)
}

/// Whether the sequence `r` holds the index `j`.
pub open spec fn has_index(r: Seq<usize>, j: int) -> bool {
    exists|n: int| 0 <= n < r.len() && r[n] == j
}

/// Whether the indices of `r` are strictly increasing.
pub open spec fn strictly_increasing(r: Seq<usize>) -> bool {
    forall|n1: int, n2: int| 0 <= n1 < n2 < r.len() ==> #[trigger] r[n1] < #[trigger] r[n2]
}

/// Concatenation holds an index exactly when one of the parts does.
proof fn lemma_has_index_concat(a: Seq<usize>, b: Seq<usize>, j: int)
    ensures
        has_index(a + b, j) <==> has_index(a, j) || has_index(b, j),
{
    if has_index(a, j) {
        let n = choose|n: int| 0 <= n < a.len() && a[n] == j;
        assert((a + b)[n] == j);
    }
    if has_index(b, j) {
        let n = choose|n: int| 0 <= n < b.len() && b[n] == j;
        assert((a + b)[a.len() + n] == j);
    }
    if has_index(a + b, j) {
        let n = choose|n: int| 0 <= n < (a + b).len() && (a + b)[n] == j;
        if n < a.len() {
            assert(a[n] == j);
        } else {
            assert(b[n - a.len()] == j);
        }
    }
}

/// A sequence whose entries all lie in `[lo, hi)` holds no index outside
/// that range.
proof fn lemma_has_index_range(r: Seq<usize>, lo: int, hi: int, j: int)
    requires
        forall|n: int| 0 <= n < r.len() ==> lo <= #[trigger] r[n] < hi,
        has_index(r, j),
    ensures
        lo <= j < hi,
{
    let n = choose|n: int| 0 <= n < r.len() && r[n] == j;
}

/// Concatenating increasing index sequences separated by a cut keeps the
/// whole strictly increasing.
proof fn lemma_sorted_concat(a: Seq<usize>, b: Seq<usize>, cut: int)
    requires
        strictly_increasing(a),
        strictly_increasing(b),
        forall|n: int| 0 <= n < a.len() ==> #[trigger] a[n] < cut,
        forall|n: int| 0 <= n < b.len() ==> cut <= #[trigger] b[n],
    ensures
        strictly_increasing(a + b),
{
    assert forall|n1: int, n2: int| 0 <= n1 < n2 < (a + b).len() implies #[trigger] (a + b)[n1]
        < #[trigger] (a + b)[n2] by {
        if n1 < a.len() && a.len() <= n2 {
            assert(a[n1] < cut);
            assert(cut <= b[n2 - a.len()]);
        }
    }
}

/// Two reports of matching objects that are strictly increasing and hold
/// the same indices are the same sequence.
///
/// Both [`KdTree::look_up`] and [`KdTree::par_look_up`] ensure that their
/// result is strictly increasing and holds an index exactly when the
/// object there matches the query, so by this law the parallel search
/// returns the very sequence the sequential search returns.
pub proof fn lemma_matching_indices_unique(a: Seq<usize>, b: Seq<usize>)
    requires
        strictly_increasing(a),
        strictly_increasing(b),
        forall|j: int| has_index(a, j) <==> has_index(b, j),
    ensures
        a == b,
    decreases a.len(),
{
    if a.len() == 0 {
        if b.len() > 0 {
            assert(b[0] == b[0]);
            assert(has_index(b, b[0] as int));
        }
        assert(a =~= b);
    } else if b.len() == 0 {
        assert(a[0] == a[0]);
        assert(has_index(a, a[0] as int));
        assert(a =~= b);
    } else {
        // The heads agree: each is the least index of its report, and
        // both reports hold the same indices.
        assert(has_index(a, a[0] as int));
        assert(has_index(b, b[0] as int));
        let na = choose|n: int| 0 <= n < b.len() && b[n] == a[0] as int;
        let nb = choose|n: int| 0 <= n < a.len() && a[n] == b[0] as int;
        assert(b[0] <= b[na]);
        assert(a[0] <= a[nb]);
        assert(a[0] == b[0]);
        // The tails hold the same indices, all above the common head.
        let at = a.subrange(1, a.len() as int);
        let bt = b.subrange(1, b.len() as int);
        assert forall|j: int| has_index(at, j) implies has_index(bt, j) by {
            let n = choose|n: int| 0 <= n < at.len() && at[n] == j;
            assert(a[n + 1] == j);
            assert(has_index(a, j));
            assert(a[0] < a[n + 1]);
            let m = choose|m: int| 0 <= m < b.len() && b[m] == j;
            assert(m > 0) by {
                if m == 0 {
                    assert(b[0] == j);
                }
            }
            assert(bt[m - 1] == j);
        }
        assert forall|j: int| has_index(bt, j) implies has_index(at, j) by {
            let n = choose|n: int| 0 <= n < bt.len() && bt[n] == j;
            assert(b[n + 1] == j);
            assert(has_index(b, j));
            assert(b[0] < b[n + 1]);
            let m = choose|m: int| 0 <= m < a.len() && a[m] == j;
            assert(m > 0) by {
                if m == 0 {
                    assert(a[0] == j);
                }
            }
            assert(at[m - 1] == j);
        }
        lemma_matching_indices_unique(at, bt);
        assert(a.len() == b.len());
        assert forall|i: int| 0 <= i < a.len() implies a[i] == b[i] by {
            if i > 0 {
                assert(at[i - 1] == bt[i - 1]);
            }
        }
        assert(a =~= b);
    }
}

/// A query which yields all objects within a given axis-aligned bounding
/// box (AABB).
pub struct WithinBoundingBox {
    aabb: (Point, Point),
}

impl WithinBoundingBox {
    /// Construct a query from first the corner with the smallest
    /// coordinate values `lower` and then the corner with the largest
    /// coordinate values `upper`.
    pub fn new(lower: Point, upper: Point) -> (q: WithinBoundingBox)
        requires
            lower@.len() == upper@.len(),
        ensures
            q.q_wf(),
            q.lower() == lower@,
            q.upper() == upper@,
            forall|p: Seq<i32>| #[trigger] q.spec_test(p),
    {
        WithinBoundingBox { aabb: (lower, upper) }
    }
}

impl Query for WithinBoundingBox {
    closed spec fn q_wf(&self) -> bool {
        self.aabb.0@.len() == self.aabb.1@.len()
    }

    closed spec fn lower(&self) -> Seq<i32> {
        self.aabb.0@
    }

    closed spec fn upper(&self) -> Seq<i32> {
        self.aabb.1@
    }

    closed spec fn spec_test(&self, p: Seq<i32>) -> bool {
        true
    }

    fn aabb(&self) -> (r: &(Point, Point)) {
        &self.aabb
    }

    fn test(&self, position: &Point) -> (r: bool) {
        true
    }
}

/// A query which yields all objects within a given Euclidean distance of
/// a central position.
pub struct WithinDistance {
    aabb: (Point, Point),
    center: Point,
    distance: i32,
    distance_2: u128,
}

impl WithinDistance {
    /// Construct a query from the `center` and the largest allowed
    /// Euclidean `distance` to it.
    ///
    /// The corners of the bounding box lie `distance` away from the
    /// center along every axis, so they must not leave the coordinate
    /// range.
    pub fn new(center: Point, distance: i32) -> (q: WithinDistance)
        requires
            0 <= distance,
            forall|a: int|
                0 <= a < center@.len() ==> i32::MIN + distance <= #[trigger] center@[a],
            forall|a: int|
                0 <= a < center@.len() ==> #[trigger] center@[a] <= i32::MAX - distance,
        ensures
            q.q_wf(),
            q.center_at() == center@,
            q.lower().len() == center@.len(),
            q.upper().len() == center@.len(),
            forall|a: int|
                0 <= a < center@.len() ==> #[trigger] q.lower()[a] == center@[a] - distance,
            forall|a: int|
                0 <= a < center@.len() ==> #[trigger] q.upper()[a] == center@[a] + distance,
            forall|p: Seq<i32>|
                #[trigger] q.spec_test(p) <==> dist2(center@, p) <= distance * distance,
    {
        let n = center.dim();
        let mut low: Vec<i32> = Vec::new();
        let mut high: Vec<i32> = Vec::new();
        let mut a: usize = 0;
        while a < n
            invariant
                n == center@.len(),
                0 <= a <= n,
                low@.len() == a,
                high@.len() == a,
                0 <= distance,
                forall|b: int|
                    0 <= b < center@.len() ==> i32::MIN + distance <= #[trigger] center@[b],
                forall|b: int|
                    0 <= b < center@.len() ==> #[trigger] center@[b] <= i32::MAX - distance,
                forall|b: int| 0 <= b < a ==> #[trigger] low@[b] == center@[b] - distance,
                forall|b: int| 0 <= b < a ==> #[trigger] high@[b] == center@[b] + distance,
            decreases n - a,
        {
            let c = center.coord(a);
            low.push(c - distance);
            high.push(c + distance);
            a = a + 1;
        }
        proof {
            let d = distance as int;
            assert(0 <= d * d <= max_sq()) by (nonlinear_arith)
                requires
                    0 <= d <= u32::MAX as int,
            ;
        }
        let d2: u128 = (distance as u128) * (distance as u128);
        WithinDistance {
            aabb: (Point::new(low), Point::new(high)),
            center,
            distance,
            distance_2: d2,
        }
    }

    /// The center the query measures distances from.
    pub closed spec fn center_at(&self) -> Seq<i32> {
        self.center@
    }

    /// The bounding box is a conservative superset of the matching
    /// positions: any position within the allowed distance of the center
    /// lies inside the box.
    pub proof fn lemma_conservative(&self, p: Seq<i32>)
        requires
            self.q_wf(),
            p.len() == self.lower().len(),
            self.spec_test(p),
        ensures
            in_aabb(self.lower(), self.upper(), p),
    {
        let c = self.center@;
        let d = self.distance as int;
        assert forall|a: int| 0 <= a < p.len() implies self.lower()[a] <= #[trigger] p[a] && p[a]
            <= self.upper()[a] by {
            lemma_dist2_axis_bound(c, p, p.len() as int, a);
            let x = c[a] - p[a];
            assert(-d <= x <= d) by (nonlinear_arith)
                requires
                    sq(x) <= d * d,
                    0 <= d,
            ;
        }
    }
}

impl Query for WithinDistance {
    closed spec fn q_wf(&self) -> bool {
        &&& self.aabb.0@.len() == self.center@.len()
        &&& self.aabb.1@.len() == self.center@.len()
        &&& 0 <= self.distance
        &&& self.distance_2 == (self.distance as int) * (self.distance as int)
        &&& forall|a: int|
            0 <= a < self.center@.len() ==> #[trigger] self.aabb.0@[a] == self.center@[a]
                - self.distance
        &&& forall|a: int|
            0 <= a < self.center@.len() ==> #[trigger] self.aabb.1@[a] == self.center@[a]
                + self.distance
    }

    closed spec fn lower(&self) -> Seq<i32> {
        self.aabb.0@
    }

    closed spec fn upper(&self) -> Seq<i32> {
        self.aabb.1@
    }

    closed spec fn spec_test(&self, p: Seq<i32>) -> bool {
        dist2(self.center@, p) <= self.distance_2
    }

    fn aabb(&self) -> (r: &(Point, Point)) {
        &self.aabb
    }

    fn test(&self, position: &Point) -> (r: bool) {
        self.center.distance_2(position) <= self.distance_2
    }
}

/// The recursive descent: report, in increasing order, the index of every
/// object of `[lo, hi)` that matches `query`, pruning a side whenever the
/// bounding box cannot reach it.
fn look_up_range<O: Object, Q: Query>(
    v: &Vec<O>,
    query: &Q,
    lo: usize,
    hi: usize,
    axis: usize,
    dim: usize,
) -> (r: Vec<usize>)
    requires
        query.q_wf(),
        lo <= hi <= v@.len(),
        axis < dim,
        all_dim(v@, dim as int),
        query.lower().len() == dim,
        query.upper().len() == dim,
        kd_range(v@, lo as int, hi as int, axis as int, dim as int),
    ensures
        forall|n: int| 0 <= n < r@.len() ==> lo <= #[trigger] r@[n] < hi,
        strictly_increasing(r@),
        forall|j: int| lo <= j < hi ==> (has_index(r@, j) <==> matched(query, v@[j].pos())),
    decreases hi - lo,
{
    let mut out: Vec<usize> = Vec::new();
    if hi - lo == 0 {
        return out;
    }
    let mid = lo + (hi - lo) / 2;
    let next = if axis + 1 < dim {
        axis + 1
    } else {
        0
    };
    let mpos = v[mid].position();
    let mc = mpos.coord(axis);

    let search_left = lo < mid && query.aabb().0.coord(axis) <= mc;
    if search_left {
        let mut left = look_up_range(v, query, lo, mid, next, dim);
        let ghost left_seq = left@;
        out.append(&mut left);
        proof {
            assert(out@ =~= left_seq);
        }
    } else {
        proof {
            // Everything left of the split lies at or below the split
            // coordinate, which is strictly below the box along `axis`,
            // so nothing there matches.
            assert forall|j: int| lo <= j < mid implies !matched(query, v@[j].pos()) by {
                assert(v@[j].pos()[axis as int] <= v@[mid as int].pos()[axis as int]);
                assert(!in_aabb(query.lower(), query.upper(), v@[j].pos()));
            }
        }
    }
    let ghost left_part = out@;
    proof {
        assert(forall|n: int| 0 <= n < left_part.len() ==> lo <= #[trigger] left_part[n] < mid);
        assert(strictly_increasing(left_part));
        assert(forall|j: int|
            lo <= j < mid ==> (has_index(left_part, j) <==> matched(query, v@[j].pos())));
    }

    let in_box = contains(query.aabb(), mpos);
    let is_hit = if in_box {
        query.test(mpos)
    } else {
        false
    };
    proof {
        assert(is_hit == matched(query, v@[mid as int].pos()));
    }
    if is_hit {
        out.push(mid);
        proof {
            assert(out@ =~= left_part + seq![mid]);
        }
    }
    let ghost mid_part = out@;
    proof {
        let m = mid as int;
        if is_hit {
            assert(seq![mid].len() == 1 && seq![mid][0] == mid);
            lemma_sorted_concat(left_part, seq![mid], m);
            assert forall|n: int| 0 <= n < mid_part.len() implies lo <= #[trigger] mid_part[n]
                <= mid by {
                if n < left_part.len() {
                    assert(mid_part[n] == left_part[n]);
                } else {
                    assert(mid_part[n] == mid);
                }
            }
        }
        assert(strictly_increasing(mid_part));
        assert(forall|n: int| 0 <= n < mid_part.len() ==> lo <= #[trigger] mid_part[n] <= mid);
        assert forall|j: int| lo <= j <= m implies (has_index(mid_part, j) <==> matched(
            query,
            v@[j].pos(),
        )) by {
            if is_hit {
                lemma_has_index_concat(left_part, seq![mid], j);
                if j == m {
                    assert(has_index(seq![mid], j));
                }
                if has_index(seq![mid], j) {
                    let n = choose|n: int| 0 <= n < seq![mid].len() && seq![mid][n] == j;
                    assert(j == m);
                }
            } else {
                if j == m && has_index(mid_part, j) {
                    lemma_has_index_range(mid_part, lo as int, m, j);
                }
            }
        }
    }

    let search_right = mid + 1 < hi && mc <= query.aabb().1.coord(axis);
    if search_right {
        let mut right = look_up_range(v, query, mid + 1, hi, next, dim);
        let ghost right_part = right@;
        out.append(&mut right);
        proof {
            assert(out@ == mid_part + right_part);
            lemma_sorted_concat(mid_part, right_part, mid + 1);
            assert forall|n: int| 0 <= n < out@.len() implies lo <= #[trigger] out@[n] < hi by {
                if n < mid_part.len() {
                    assert(out@[n] == mid_part[n]);
                } else {
                    assert(out@[n] == right_part[n - mid_part.len()]);
                }
            }
            assert forall|j: int| lo <= j < hi implies (has_index(out@, j) <==> matched(
                query,
                v@[j].pos(),
            )) by {
                lemma_has_index_concat(mid_part, right_part, j);
                if j <= mid {
                    if has_index(right_part, j) {
                        lemma_has_index_range(right_part, mid + 1, hi as int, j);
                    }
                } else {
                    if has_index(mid_part, j) {
                        lemma_has_index_range(mid_part, lo as int, mid + 1, j);
                    }
                }
            }
        }
    } else {
        proof {
            // Everything right of the split lies at or above the split
            // coordinate, which is strictly above the box along `axis`,
            // so nothing there matches.
            assert forall|j: int| mid < j < hi implies !matched(query, v@[j].pos()) by {
                assert(v@[j].pos()[axis as int] >= v@[mid as int].pos()[axis as int]);
                assert(!in_aabb(query.lower(), query.upper(), v@[j].pos()));
            }
            assert forall|j: int| lo <= j < hi implies (has_index(out@, j) <==> matched(
                query,
                v@[j].pos(),
            )) by {
                if j > mid && has_index(out@, j) {
                    lemma_has_index_range(out@, lo as int, mid + 1, j);
                }
            }
        }
    }
    out
}

impl<O: Object> KdTree<O> {
    /// Find the objects matching the given `query`.
    ///
    /// Returns the index of every stored object whose position lies inside
    /// the query's bounding box and passes its test, in increasing index
    /// order: exactly the matching objects, nothing else, each once.
    pub fn look_up<Q: Query>(&self, query: &Q) -> (r: Vec<usize>)
        requires
            self.wf(),
            self.kd_sorted(),
            query.q_wf(),
            self@.len() > 0 ==> query.lower().len() == self.spec_dim(),
            self@.len() > 0 ==> query.upper().len() == self.spec_dim(),
        ensures
            forall|n: int| 0 <= n < r@.len() ==> #[trigger] r@[n] < self@.len(),
            strictly_increasing(r@),
            forall|j: int|
                0 <= j < self@.len() ==> (has_index(r@, j) <==> matched(query, self@[j].pos())),
            self@.len() == 0 ==> r@.len() == 0,
    {
        let n = self.objects().len();
        if n == 0 {
            return Vec::new();
        }
        let dim = self.objects()[0].position().dim();
        look_up_range(self.objects(), query, 0, n, 0, dim)
    }

    /// Find the objects matching the given `query`, searching the two
    /// sides of the root split as concurrent tasks in the current thread
    /// pool; the bounding-box pruning applies within each task.
    ///
    /// Returns exactly what [`Self::look_up`] returns: the index of every
    /// matching object, in increasing order.
    pub fn par_look_up<Q: Query + Sync>(&self, query: &Q) -> (r: Vec<usize>) where O: Sync
        requires
            self.wf(),
            self.kd_sorted(),
            query.q_wf(),
            self@.len() > 0 ==> query.lower().len() == self.spec_dim(),
            self@.len() > 0 ==> query.upper().len() == self.spec_dim(),
        ensures
            forall|n: int| 0 <= n < r@.len() ==> #[trigger] r@[n] < self@.len(),
            strictly_increasing(r@),
            forall|j: int|
                0 <= j < self@.len() ==> (has_index(r@, j) <==> matched(query, self@[j].pos())),
            self@.len() == 0 ==> r@.len() == 0,
    {
        let n = self.objects().len();
        if n == 0 {
            return Vec::new();
        }
        let dim = self.objects()[0].position().dim();
        if n == 1 {
            return look_up_range(self.objects(), query, 0, n, 0, dim);
        }
        let mid = n / 2;
        let next = if 1 < dim {
            1
        } else {
            0
        };
        let objs = self.objects();
        let task_left = move || -> (res: Vec<usize>)
            ensures
                forall|k: int| 0 <= k < res@.len() ==> 0 <= #[trigger] res@[k] < mid,
                strictly_increasing(res@),
                forall|j: int|
                    0 <= j < mid ==> (has_index(res@, j) <==> matched(query, objs@[j].pos())),
            { look_up_range(objs, query, 0, mid, next, dim) };
        let task_right = move || -> (res: Vec<usize>)
            ensures
                forall|k: int| 0 <= k < res@.len() ==> mid < #[trigger] res@[k] < n,
                strictly_increasing(res@),
                forall|j: int|
                    mid < j < n ==> (has_index(res@, j) <==> matched(query, objs@[j].pos())),
            { look_up_range(objs, query, mid + 1, n, next, dim) };
        let (left, mut right) = crate::join(task_left, task_right);

        let mpos = self.objects()[mid].position();
        let in_box = contains(query.aabb(), mpos);
        let is_hit = if in_box {
            query.test(mpos)
        } else {
            false
        };
        proof {
            assert(is_hit == matched(query, self@[mid as int].pos()));
        }
        let ghost left_part = left@;
        let mut out = left;
        if is_hit {
            out.push(mid);
            proof {
                assert(out@ =~= left_part + seq![mid]);
            }
        }
        let ghost mid_part = out@;
        proof {
            let m = mid as int;
            if is_hit {
                assert(seq![mid].len() == 1 && seq![mid][0] == mid);
                lemma_sorted_concat(left_part, seq![mid], m);
                assert forall|k: int| 0 <= k < mid_part.len() implies 0 <= #[trigger] mid_part[k]
                    <= mid by {
                    if k < left_part.len() {
                        assert(mid_part[k] == left_part[k]);
                    } else {
                        assert(mid_part[k] == mid);
                    }
                }
            }
            assert(strictly_increasing(mid_part));
            assert(forall|k: int| 0 <= k < mid_part.len() ==> 0 <= #[trigger] mid_part[k] <= mid);
            assert forall|j: int| 0 <= j <= m implies (has_index(mid_part, j) <==> matched(
                query,
                self@[j].pos(),
            )) by {
                if is_hit {
                    lemma_has_index_concat(left_part, seq![mid], j);
                    if j == m {
                        assert(has_index(seq![mid], j));
                    }
                    if has_index(seq![mid], j) {
                        let k = choose|k: int| 0 <= k < seq![mid].len() && seq![mid][k] == j;
                        assert(j == m);
                    }
                } else {
                    if j == m && has_index(mid_part, j) {
                        lemma_has_index_range(mid_part, 0, m, j);
                    }
                }
            }
        }
        let ghost right_part = right@;
        out.append(&mut right);
        proof {
            assert(out@ == mid_part + right_part);
            lemma_sorted_concat(mid_part, right_part, mid + 1);
            assert forall|k: int| 0 <= k < out@.len() implies 0 <= #[trigger] out@[k] < n by {
                if k < mid_part.len() {
                    assert(out@[k] == mid_part[k]);
                } else {
                    assert(out@[k] == right_part[k - mid_part.len()]);
                }
            }
            assert forall|j: int| 0 <= j < n implies (has_index(out@, j) <==> matched(
                query,
                self@[j].pos(),
            )) by {
                lemma_has_index_concat(mid_part, right_part, j);
                if j <= mid {
                    if has_index(right_part, j) {
                        lemma_has_index_range(right_part, mid + 1, n as int, j);
                    }
                } else {
                    if has_index(mid_part, j) {
                        lemma_has_index_range(mid_part, 0, mid + 1, j);
                    }
                }
            }
        }
        out
    }
}

} // verus!

