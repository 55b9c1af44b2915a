//! Construction of the tree: arranging a sequence of objects in place so
//! that it satisfies the k-d invariant.
//!
//! Each subrange is split at its midpoint by a quickselect-style rank
//! selection along the current axis; the two sides are then arranged
//! recursively along the next axis.  Nothing is fully sorted: only the
//! median placement that the invariant asks for is established.

use vstd::prelude::*;
use vstd::seq_lib::lemma_multiset_commutative;

use crate::{all_dim, dim_of, kd_range, mid_of, next_axis, uniform, KdTree, Object};

verus! {

/// `s2` agrees with `s1` everywhere outside the subrange `[lo, hi)`.
pub open spec fn same_outside<O>(s1: Seq<O>, s2: Seq<O>, lo: int, hi: int) -> bool {
    &&& s1.len() == s2.len()
    &&& forall|i: int| 0 <= i < s1.len() && !(lo <= i < hi) ==> s1[i] == #[trigger] s2[i]
}

/// The subrange `[lo, hi)` of `s2` holds exactly the objects of the same
/// subrange of `s1`, in some order.
pub open spec fn perm_range<O>(s1: Seq<O>, s2: Seq<O>, lo: int, hi: int) -> bool {
    &&& s1.len() == s2.len()
    &&& s1.subrange(lo, hi).to_multiset() == s2.subrange(lo, hi).to_multiset()
}

/// Swapping two entries of the subrange `[lo, hi)` leaves its contents
/// unchanged as a multiset.
proof fn lemma_swap_perm<O>(s: Seq<O>, i: int, j: int, lo: int, hi: int)
    requires
        0 <= lo <= i < hi <= s.len(),
        lo <= j < hi,
    ensures
        perm_range(s, s.update(i, s[j]).update(j, s[i]), lo, hi),
{
    broadcast use vstd::seq_lib::group_to_multiset_ensures;

    let s2 = s.update(i, s[j]).update(j, s[i]);
    let t = s.subrange(lo, hi);
    let t2 = s2.subrange(lo, hi);
    let a = i - lo;
    let b = j - lo;
    assert(t2 =~= t.update(a, t[b]).update(b, t[a]));
    let t1 = t.update(a, t[b]);
    assert(t.contains(t[a]));
    assert(t.contains(t[b]));
    assert(t1[b] == t[b]);
    assert(t1.to_multiset() == t.to_multiset().insert(t[b]).remove(t[a]));
    assert(t2.to_multiset() == t1.to_multiset().insert(t[a]).remove(t1[b]));
    assert(t2.to_multiset() =~= t.to_multiset());
}

/// A rearrangement of `[lo, hi)` rearranges any enclosing subrange as
/// well, provided everything outside `[lo, hi)` stayed in place.
proof fn lemma_perm_widen<O>(s1: Seq<O>, s2: Seq<O>, lo2: int, lo: int, hi: int, hi2: int)
    requires
        0 <= lo2 <= lo <= hi <= hi2 <= s1.len(),
        perm_range(s1, s2, lo, hi),
        same_outside(s1, s2, lo, hi),
    ensures
        perm_range(s1, s2, lo2, hi2),
{
    let a1 = s1.subrange(lo2, lo);
    let b1 = s1.subrange(lo, hi);
    let c1 = s1.subrange(hi, hi2);
    let a2 = s2.subrange(lo2, lo);
    let b2 = s2.subrange(lo, hi);
    let c2 = s2.subrange(hi, hi2);
    assert(s1.subrange(lo2, hi2) =~= a1 + b1 + c1);
    assert(s2.subrange(lo2, hi2) =~= a2 + b2 + c2);
    assert(a1 =~= a2);
    assert(c1 =~= c2);
    lemma_multiset_commutative(a1 + b1, c1);
    lemma_multiset_commutative(a1, b1);
    lemma_multiset_commutative(a2 + b2, c2);
    lemma_multiset_commutative(a2, b2);
}

/// If every object of `[lo, hi)` in `s1` has its coordinate along `axis`
/// at most `c`, the same holds after a rearrangement of that subrange.
proof fn lemma_perm_coord_le<O: Object>(
    s1: Seq<O>,
    s2: Seq<O>,
    lo: int,
    hi: int,
    axis: int,
    c: int,
)
    requires
        0 <= lo <= hi <= s1.len(),
        perm_range(s1, s2, lo, hi),
        forall|j: int| lo <= j < hi ==> (#[trigger] s1[j].pos())[axis] <= c,
    ensures
        forall|i: int| lo <= i < hi ==> (#[trigger] s2[i].pos())[axis] <= c,
{
    broadcast use vstd::seq_lib::group_to_multiset_ensures;

    let t1 = s1.subrange(lo, hi);
    let t2 = s2.subrange(lo, hi);
    assert forall|i: int| lo <= i < hi implies (#[trigger] s2[i].pos())[axis] <= c by {
        let x = s2[i];
        assert(t2[i - lo] == x);
        assert(t2.contains(x));
        assert(t1.to_multiset().count(x) > 0);
        assert(t1.contains(x));
        let j = choose|j: int| 0 <= j < t1.len() && t1[j] == x;
        assert(s1[lo + j] == x);
    }
}

/// If every object of `[lo, hi)` in `s1` has its coordinate along `axis`
/// at least `c`, the same holds after a rearrangement of that subrange.
proof fn lemma_perm_coord_ge<O: Object>(
    s1: Seq<O>,
    s2: Seq<O>,
    lo: int,
    hi: int,
    axis: int,
    c: int,
)
    requires
        0 <= lo <= hi <= s1.len(),
        perm_range(s1, s2, lo, hi),
        forall|j: int| lo <= j < hi ==> (#[trigger] s1[j].pos())[axis] >= c,
    ensures
        forall|i: int| lo <= i < hi ==> (#[trigger] s2[i].pos())[axis] >= c,
{
    broadcast use vstd::seq_lib::group_to_multiset_ensures;

    let t1 = s1.subrange(lo, hi);
    let t2 = s2.subrange(lo, hi);
    assert forall|i: int| lo <= i < hi implies (#[trigger] s2[i].pos())[axis] >= c by {
        let x = s2[i];
        assert(t2[i - lo] == x);
        assert(t2.contains(x));
        assert(t1.to_multiset().count(x) > 0);
        assert(t1.contains(x));
        let j = choose|j: int| 0 <= j < t1.len() && t1[j] == x;
        assert(s1[lo + j] == x);
    }
}

/// A rearrangement confined to `[lo, hi)` keeps every position at the
/// common number of axes.
proof fn lemma_all_dim_perm<O: Object>(s1: Seq<O>, s2: Seq<O>, lo: int, hi: int, dim: int)
    requires
        0 <= lo <= hi <= s1.len(),
        perm_range(s1, s2, lo, hi),
        same_outside(s1, s2, lo, hi),
        all_dim(s1, dim),
    ensures
        all_dim(s2, dim),
{
    broadcast use vstd::seq_lib::group_to_multiset_ensures;

    let t1 = s1.subrange(lo, hi);
    let t2 = s2.subrange(lo, hi);
    assert forall|i: int| 0 <= i < s2.len() implies (#[trigger] s2[i].pos()).len() == dim by {
        if lo <= i < hi {
            let x = s2[i];
            assert(t2[i - lo] == x);
            assert(t2.contains(x));
            assert(t1.to_multiset().count(x) > 0);
            assert(t1.contains(x));
            let j = choose|j: int| 0 <= j < t1.len() && t1[j] == x;
            assert(s1[lo + j] == x);
        }
    }
}

/// The k-d invariant of a subrange depends only on the objects inside it.
proof fn lemma_kd_range_frame<O: Object>(
    s1: Seq<O>,
    s2: Seq<O>,
    lo: int,
    hi: int,
    axis: int,
    dim: int,
)
    requires
        forall|i: int| lo <= i < hi ==> s1[i] == #[trigger] s2[i],
        kd_range(s1, lo, hi, axis, dim),
    ensures
        kd_range(s2, lo, hi, axis, dim),
    decreases hi - lo,
{
    if hi - lo >= 2 {
        let mid = mid_of(lo, hi);
        lemma_kd_range_frame(s1, s2, lo, mid, next_axis(axis, dim), dim);
        lemma_kd_range_frame(s1, s2, mid + 1, hi, next_axis(axis, dim), dim);
    }
}

/// The k-d invariant is insensitive to shifting a subrange to another
/// offset of another sequence, as it only relates objects inside the
/// subrange.
proof fn lemma_kd_range_shift<O: Object>(
    s: Seq<O>,
    t: Seq<O>,
    off: int,
    lo: int,
    hi: int,
    axis: int,
    dim: int,
)
    requires
        forall|i: int| lo <= i < hi ==> (#[trigger] s[i]) == t[i + off],
        kd_range(s, lo, hi, axis, dim),
    ensures
        kd_range(t, lo + off, hi + off, axis, dim),
    decreases hi - lo,
{
    if hi - lo >= 2 {
        let mid = mid_of(lo, hi);
        assert(mid_of(lo + off, hi + off) == mid + off);
        assert forall|i: int|
            lo + off <= i < mid + off implies (#[trigger] t[i].pos())[axis] <= t[mid + off].pos()[axis] by {
            assert(s[i - off] == t[i]);
            assert(s[mid] == t[mid + off]);
        }
        assert forall|i: int|
            mid + off < i < hi + off implies (#[trigger] t[i].pos())[axis] >= t[mid + off].pos()[axis] by {
            assert(s[i - off] == t[i]);
            assert(s[mid] == t[mid + off]);
        }
        lemma_kd_range_shift(s, t, off, lo, mid, next_axis(axis, dim), dim);
        lemma_kd_range_shift(s, t, off, mid + 1, hi, next_axis(axis, dim), dim);
    }
}

/// Exchange the entries of `v` at `i` and `j`.
fn swap_items<O>(v: &mut Vec<O>, i: usize, j: usize)
    requires
        i < old(v)@.len(),
        j < old(v)@.len(),
    ensures
        final(v)@ == old(v)@.update(i as int, old(v)@[j as int]).update(j as int, old(v)@[i as int]),
{
    if i == j {
        proof {
            assert(v@ =~= old(v)@.update(i as int, old(v)@[j as int]).update(
                j as int,
                old(v)@[i as int],
            ));
        }
        return ;
    }
    let (a, b) = if i < j {
        (i, j)
    } else {
        (j, i)
    };
    let x = v.remove(b);
    let y = v.remove(a);
    v.insert(a, x);
    v.insert(b, y);
    proof {
        assert(v@ =~= old(v)@.update(i as int, old(v)@[j as int]).update(
            j as int,
            old(v)@[i as int],
        ));
    }
}

/// Rearrange the subrange `[lo, hi)` of `v` around its last entry as the
/// pivot, and return the pivot's final index: everything before it
/// compares at most equal to it, and everything after it at least equal,
/// along `axis`.
fn partition<O: Object>(v: &mut Vec<O>, lo: usize, hi: usize, axis: usize) -> (p: usize)
    requires
        lo < hi <= old(v)@.len(),
        forall|i: int| lo <= i < hi ==> axis < (#[trigger] old(v)@[i].pos()).len(),
    ensures
        same_outside(old(v)@, final(v)@, lo as int, hi as int),
        perm_range(old(v)@, final(v)@, lo as int, hi as int),
        lo <= p < hi,
        forall|i: int|
            lo <= i < p ==> (#[trigger] final(v)@[i].pos())[axis as int] <= final(v)@[p as int].pos()[axis as int],
        forall|i: int|
            p < i < hi ==> (#[trigger] final(v)@[i].pos())[axis as int] >= final(v)@[p as int].pos()[axis as int],
        forall|i: int| lo <= i < hi ==> axis < (#[trigger] final(v)@[i].pos()).len(),
{
    let pc = v[hi - 1].position().coord(axis);
    let mut store = lo;
    let mut scan = lo;
    while scan < hi - 1
        invariant
            lo <= store <= scan <= hi - 1,
            hi <= v@.len(),
            same_outside(old(v)@, v@, lo as int, hi as int),
            perm_range(old(v)@, v@, lo as int, hi as int),
            forall|i: int| lo <= i < hi ==> axis < (#[trigger] v@[i].pos()).len(),
            pc == v@[hi - 1].pos()[axis as int],
            forall|i: int| lo <= i < store ==> (#[trigger] v@[i].pos())[axis as int] <= pc,
            forall|i: int| store <= i < scan ==> (#[trigger] v@[i].pos())[axis as int] > pc,
        decreases hi - 1 - scan,
    {
        let c = v[scan].position().coord(axis);
        if c <= pc {
            let ghost pre = v@;
            swap_items(v, store, scan);
            proof {
                lemma_swap_perm(pre, store as int, scan as int, lo as int, hi as int);
            }
            store = store + 1;
        }
        scan = scan + 1;
    }
    let ghost pre = v@;
    swap_items(v, store, hi - 1);
    proof {
        lemma_swap_perm(pre, store as int, hi - 1, lo as int, hi as int);
    }
    store
}

/// Rearrange the subrange `[lo, hi)` of `v` so that the object of rank
/// `k - lo` along `axis` stands at index `k`, everything before `k`
/// compares at most equal to it, and everything after `k` at least equal.
fn select_rank<O: Object>(v: &mut Vec<O>, lo: usize, hi: usize, k: usize, axis: usize)
    requires
        lo <= k < hi <= old(v)@.len(),
        forall|i: int| lo <= i < hi ==> axis < (#[trigger] old(v)@[i].pos()).len(),
    ensures
        same_outside(old(v)@, final(v)@, lo as int, hi as int),
        perm_range(old(v)@, final(v)@, lo as int, hi as int),
        forall|i: int|
            lo <= i < k ==> (#[trigger] final(v)@[i].pos())[axis as int] <= final(v)@[k as int].pos()[axis as int],
        forall|i: int|
            k < i < hi ==> (#[trigger] final(v)@[i].pos())[axis as int] >= final(v)@[k as int].pos()[axis as int],
        forall|i: int| lo <= i < hi ==> axis < (#[trigger] final(v)@[i].pos()).len(),
    decreases hi - lo,
{
    let p = partition(v, lo, hi, axis);
    let ghost s1 = v@;
    if p == k {
        return ;
    }
    if k < p {
        let ghost c = s1[p as int].pos()[axis as int] as int;
        select_rank(v, lo, p, k, axis);
        proof {
            lemma_perm_coord_le(s1, v@, lo as int, p as int, axis as int, c);
            assert forall|i: int|
                k < i < hi implies (#[trigger] v@[i].pos())[axis as int] >= v@[k as int].pos()[axis as int] by {
                if i >= p {
                    assert(v@[i] == s1[i]);
                }
            }
            lemma_perm_widen(s1, v@, lo as int, lo as int, p as int, hi as int);
        }
    } else {
        let ghost c = s1[p as int].pos()[axis as int] as int;
        select_rank(v, p + 1, hi, k, axis);
        proof {
            lemma_perm_coord_ge(s1, v@, p + 1, hi as int, axis as int, c);
            assert forall|i: int|
                lo <= i < k implies (#[trigger] v@[i].pos())[axis as int] <= v@[k as int].pos()[axis as int] by {
                if i <= p {
                    assert(v@[i] == s1[i]);
                }
            }
            lemma_perm_widen(s1, v@, lo as int, p + 1, hi as int, hi as int);
        }
    }
}

/// Arrange the subrange `[lo, hi)` of `v` into the k-d layout for a split
/// on `axis`.
fn sort_range<O: Object>(v: &mut Vec<O>, lo: usize, hi: usize, axis: usize, dim: usize)
    requires
        lo <= hi <= old(v)@.len(),
        axis < dim,
        all_dim(old(v)@, dim as int),
    ensures
        same_outside(old(v)@, final(v)@, lo as int, hi as int),
        perm_range(old(v)@, final(v)@, lo as int, hi as int),
        all_dim(final(v)@, dim as int),
        kd_range(final(v)@, lo as int, hi as int, axis as int, dim as int),
    decreases hi - lo,
{
    if hi - lo < 2 {
        assert(v@.subrange(lo as int, hi as int) =~= old(v)@.subrange(lo as int, hi as int));
        return ;
    }
    let ghost s0 = v@;
    let mid = lo + (hi - lo) / 2;
    select_rank(v, lo, hi, mid, axis);
    let ghost s1 = v@;
    proof {
        lemma_all_dim_perm(s0, s1, lo as int, hi as int, dim as int);
    }
    let next = if axis + 1 < dim {
        axis + 1
    } else {
        0
    };
    sort_range(v, lo, mid, next, dim);
    let ghost s2 = v@;
    sort_range(v, mid + 1, hi, next, dim);
    let ghost s3 = v@;
    proof {
        let l = lo as int;
        let h = hi as int;
        let m = mid as int;
        let ax = axis as int;
        let d = dim as int;
        // The midpoint object never moves after its selection.
        assert(s2[m] == s1[m]);
        assert(s3[m] == s2[m]);
        // The left side still holds objects comparing at most equal to
        // the midpoint along `axis`, the right side at least equal.
        let c = s1[m].pos()[ax] as int;
        lemma_perm_coord_le(s1, s2, l, m, ax, c);
        assert forall|i: int| l <= i < m implies (#[trigger] s3[i].pos())[ax] <= s3[m].pos()[ax] by {
            assert(s3[i] == s2[i]);
        }
        assert(forall|j: int| m < j < h ==> (#[trigger] s2[j].pos())[ax] >= c) by {
            assert(forall|j: int| m < j < h ==> s2[j] == #[trigger] s1[j]);
        }
        lemma_perm_coord_ge(s2, s3, m + 1, h, ax, c);
        // The two recursively arranged sides keep their invariant in the
        // final sequence.
        lemma_kd_range_frame(s2, s3, l, m, next_axis(ax, d), d);
        // The whole subrange is a rearrangement of what it held at entry.
        lemma_perm_widen(s1, s2, l, l, m, h);
        lemma_perm_widen(s2, s3, l, m + 1, h, h);
        assert(kd_range(s3, l, h, ax, d));
    }
}

impl<O: Object> KdTree<O> {
    /// Construct a new tree by arranging the given `objects` in place into
    /// the k-d layout.
    ///
    /// The result holds exactly the given objects and satisfies the k-d
    /// invariant that both query engines rely on.
    pub fn new(objects: Vec<O>) -> (t: KdTree<O>)
        requires
            uniform(objects@),
        ensures
            t.wf(),
            t.kd_sorted(),
            t.spec_dim() == dim_of(objects@),
            t@.len() == objects@.len(),
            t@.to_multiset() == objects@.to_multiset(),
    {
        let mut objects = objects;
        let n = objects.len();
        if n >= 2 {
            let ghost s0 = objects@;
            let dim = objects[0].position().dim();
            sort_range(&mut objects, 0, n, 0, dim);
            proof {
                assert(s0.subrange(0, n as int) =~= s0);
                assert(objects@.subrange(0, n as int) =~= objects@);
                assert(dim_of(objects@) == dim as int);
            }
        }
        KdTree::new_unchecked(objects)
    }

    /// Construct a new tree by arranging the given `objects` into the k-d
    /// layout, handing the two sides of the root split to the current
    /// thread pool as concurrent tasks.
    ///
    /// Establishes exactly what [`Self::new`] establishes: among objects
    /// with equal coordinate values the placement may differ from the
    /// sequential construction, but the k-d invariant and the stored
    /// multiset of objects never do.
    pub fn par_new(objects: Vec<O>) -> (t: KdTree<O>) where O: Send
        requires
            uniform(objects@),
        ensures
            t.wf(),
            t.kd_sorted(),
            t.spec_dim() == dim_of(objects@),
            t@.len() == objects@.len(),
            t@.to_multiset() == objects@.to_multiset(),
    {
        let mut objects = objects;
        let n = objects.len();
        if n < 2 {
            return KdTree::new_unchecked(objects);
        }
        let ghost s0 = objects@;
        let dim = objects[0].position().dim();
        let mid = n / 2;
        select_rank(&mut objects, 0, n, mid, 0);
        let ghost s1 = objects@;
        proof {
            assert(s0.subrange(0, n as int) =~= s0);
            assert(s1.subrange(0, n as int) =~= s1);
            lemma_all_dim_perm(s0, s1, 0, n as int, dim as int);
        }
        let next = if 1 < dim {
            1
        } else {
            0
        };
        let mut right = objects.split_off(mid + 1);
        let mid_elem = objects.pop().unwrap();
        let left = objects;
        proof {
            assert(left@ == s1.subrange(0, mid as int));
            assert(right@ == s1.subrange(mid + 1, n as int));
            assert(mid_elem == s1[mid as int]);
            assert(forall|i: int|
                0 <= i < left@.len() ==> (#[trigger] left@[i].pos()).len() == dim);
            assert(forall|i: int|
                0 <= i < right@.len() ==> (#[trigger] right@[i].pos()).len() == dim);
        }
        let task_left = move || -> (res: Vec<O>)
            ensures
                res@.len() == mid,
                res@.to_multiset() == s1.subrange(0, mid as int).to_multiset(),
                all_dim(res@, dim as int),
                kd_range(res@, 0, mid as int, next as int, dim as int),
            {
                let mut part = left;
                let ghost before = part@;
                let ln = part.len();
                sort_range(&mut part, 0, ln, next, dim);
                proof {
                    assert(before.subrange(0, ln as int) =~= before);
                    assert(part@.subrange(0, ln as int) =~= part@);
                }
                part
            };
        let task_right = move || -> (res: Vec<O>)
            ensures
                res@.len() == n - mid - 1,
                res@.to_multiset() == s1.subrange(mid + 1, n as int).to_multiset(),
                all_dim(res@, dim as int),
                kd_range(res@, 0, n - mid - 1, next as int, dim as int),
            {
                let mut part = right;
                let ghost before = part@;
                let ln = part.len();
                sort_range(&mut part, 0, ln, next, dim);
                proof {
                    assert(before.subrange(0, ln as int) =~= before);
                    assert(part@.subrange(0, ln as int) =~= part@);
                }
                part
            };
        let (sorted_left, mut sorted_right) = crate::join(task_left, task_right);
        let ghost lsorted = sorted_left@;
        let ghost rsorted = sorted_right@;
        let mut whole = sorted_left;
        whole.push(mid_elem);
        whole.append(&mut sorted_right);
        let ghost s3 = whole@;
        proof {
            let m = mid as int;
            let nn = n as int;
            let d = dim as int;
            let nx = next as int;
            assert(s3 =~= lsorted + seq![mid_elem] + rsorted);
            assert(s3.len() == nn);
            assert(s3[m] == mid_elem);
            assert(forall|i: int| 0 <= i < m ==> s3[i] == #[trigger] lsorted[i]);
            assert(forall|i: int| 0 <= i < nn - m - 1 ==> #[trigger] rsorted[i] == s3[i + m + 1]);
            // The two sides of the root split are rearrangements of what
            // selection put there, so the root ordering still holds.
            assert(perm_range(s1, s3, 0, m)) by {
                assert(s3.subrange(0, m) =~= lsorted);
            }
            assert(perm_range(s1, s3, m + 1, nn)) by {
                assert(s3.subrange(m + 1, nn) =~= rsorted);
            }
            let c = s1[m].pos()[0] as int;
            lemma_perm_coord_le(s1, s3, 0, m, 0, c);
            lemma_perm_coord_ge(s1, s3, m + 1, nn, 0, c);
            // Each side keeps its own recursively established invariant.
            lemma_kd_range_frame(lsorted, s3, 0, m, nx, d);
            lemma_kd_range_shift(rsorted, s3, m + 1, 0, nn - m - 1, nx, d);
            assert(next_axis(0, d) == nx);
            assert(mid_of(0, nn) == m);
            assert(kd_range(s3, 0, nn, 0, d));
            // The whole holds the objects given at entry: piecewise multisets.
            lemma_multiset_commutative(lsorted + seq![mid_elem], rsorted);
            lemma_multiset_commutative(lsorted, seq![mid_elem]);
            assert(s1 =~= s1.subrange(0, m) + seq![s1[m]] + s1.subrange(m + 1, nn));
            lemma_multiset_commutative(s1.subrange(0, m) + seq![s1[m]], s1.subrange(m + 1, nn));
            lemma_multiset_commutative(s1.subrange(0, m), seq![s1[m]]);
            assert(s3.to_multiset() == s1.to_multiset());
            // Every position still has the common number of axes.
            assert forall|i: int| 0 <= i < s3.len() implies (#[trigger] s3[i].pos()).len()
                == d by {
                if i < m {
                    assert(s3[i] == lsorted[i]);
                } else if i == m {
                    assert(s3[i] == s1[m]);
                } else {
                    assert(s3[i] == rsorted[i - m - 1]);
                }
            }
            assert(dim_of(s3) == d);
            assert(uniform(s3));
        }
        KdTree::new_unchecked(whole)
    }
}

} // verus!
