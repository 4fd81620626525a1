use vstd::prelude::*;
use crate::options::{VectorizeMode, VectorizeOptions, scaled_tolerance, scaled_tolerance_spec};
use crate::wide::{mul_wide, wide_lt, wide_value};

verus! {

/// A contour point in half-pixel units: `(x, y)` stands for `(x / 2, y / 2)`,
/// so the centre of pixel `(px, py)` is `(2 * px + 1, 2 * py + 1)`.
#[derive(Clone, Copy, Debug, PartialEq, Eq, Structural)]
pub struct Point {
    pub x: u64,
    pub y: u64,
}

/// Largest coordinate a point may have: the centre of the last pixel of a
/// `u32`-wide row.
pub const MAX_COORD: u64 = 8589934591;

impl Point {
    pub open spec fn wf(&self) -> bool {
        self.x <= MAX_COORD && self.y <= MAX_COORD
    }

    pub open spec fn center_spec(px: int, py: int) -> Point {
        Point { x: (2 * px + 1) as u64, y: (2 * py + 1) as u64 }
    }

    /// The centre of pixel `(px, py)`.
    pub fn new(px: u32, py: u32) -> (p: Point)
        ensures
            p == Point::center_spec(px as int, py as int),
            p.wf(),
    {
        Point { x: 2 * px as u64 + 1, y: 2 * py as u64 + 1 }
    }
}

pub open spec fn all_wf(s: Seq<Point>) -> bool {
    forall|i: int| 0 <= i < s.len() ==> (#[trigger] s[i]).wf()
}

/// Squared distance from `p` to the segment `a`-`b` (its parameter clamped to
/// the segment), multiplied by the squared length of the segment when that is
/// not zero. All points of one run share the segment, so this orders them as
/// the distance does, and stays exact in integers.
pub open spec fn seg_dist_scaled(p: Point, a: Point, b: Point) -> int {
    let dx = b.x - a.x;
    let dy = b.y - a.y;
    let len_sq = dx * dx + dy * dy;
    let px = p.x - a.x;
    let py = p.y - a.y;
    let dot = px * dx + py * dy;
    if len_sq == 0 {
        px * px + py * py
    } else if dot <= 0 {
        (px * px + py * py) * len_sq
    } else if dot >= len_sq {
        ((p.x - b.x) * (p.x - b.x) + (p.y - b.y) * (p.y - b.y)) * len_sq
    } else {
        (px * dy - py * dx) * (px * dy - py * dx)
    }
}

/// The factor `seg_dist_scaled` carries: the squared segment length, or 1.
pub open spec fn seg_scale(a: Point, b: Point) -> int {
    let dx = b.x - a.x;
    let dy = b.y - a.y;
    if dx * dx + dy * dy == 0 {
        1
    } else {
        dx * dx + dy * dy
    }
}

proof fn lemma_sq_bound(v: int)
    requires
        -8589934592 <= v <= 8589934592,
    ensures
        0 <= v * v <= 73786976294838206464,
{
    assert(0 <= v * v <= 8589934592 * 8589934592) by (nonlinear_arith)
        requires -8589934592 <= v <= 8589934592;
}

proof fn lemma_prod_bound(u: int, v: int)
    requires
        -8589934592 <= u <= 8589934592,
        -8589934592 <= v <= 8589934592,
    ensures
        -73786976294838206464 <= u * v <= 73786976294838206464,
{
    assert(-8589934592 * 8589934592 <= u * v <= 8589934592 * 8589934592) by (nonlinear_arith)
        requires -8589934592 <= u <= 8589934592, -8589934592 <= v <= 8589934592;
}

/// Squared distance from `p` to the segment `a`-`b` as an exact fraction
/// `wide_value(r.0) / r.1` of squared half-pixels: `r.1` is `seg_scale(a, b)`
/// and the numerator is `seg_dist_scaled(p, a, b)`. When `a == b` the fraction
/// is `|p - a|^2 / 1`; when the clamped projection falls on `a` or `b` it is
/// `|p - a|^2` or `|p - b|^2` times `|b - a|^2` over `|b - a|^2`; otherwise it is
/// the squared cross product over `|b - a|^2`.
pub fn point_to_line_dist_sq(p: Point, a: Point, b: Point) -> (r: ((u128, u128), u128))
    requires
        p.wf(),
        a.wf(),
        b.wf(),
    ensures
        wide_value(r.0) == seg_dist_scaled(p, a, b),
        r.1 as int == seg_scale(a, b),
        r.1 >= 1,
{
    let dx: i128 = b.x as i128 - a.x as i128;
    let dy: i128 = b.y as i128 - a.y as i128;
    proof {
        lemma_sq_bound(dx as int);
        lemma_sq_bound(dy as int);
    }
    let len_sq: u128 = (dx * dx + dy * dy) as u128;
    let scale: u128 = if len_sq == 0 { 1 } else { len_sq };
    (scaled_dist(p, a, b), scale)
}

fn scaled_dist(p: Point, a: Point, b: Point) -> (d: (u128, u128))
    requires
        p.wf(),
        a.wf(),
        b.wf(),
    ensures
        wide_value(d) == seg_dist_scaled(p, a, b),
{
    let dx: i128 = b.x as i128 - a.x as i128;
    let dy: i128 = b.y as i128 - a.y as i128;
    let px: i128 = p.x as i128 - a.x as i128;
    let py: i128 = p.y as i128 - a.y as i128;
    proof {
        lemma_sq_bound(dx as int);
        lemma_sq_bound(dy as int);
        lemma_sq_bound(px as int);
        lemma_sq_bound(py as int);
        lemma_prod_bound(px as int, dx as int);
        lemma_prod_bound(py as int, dy as int);
        lemma_prod_bound(px as int, dy as int);
        lemma_prod_bound(py as int, dx as int);
    }
    let len_sq: i128 = dx * dx + dy * dy;
    let near: i128 = px * px + py * py;
    let dot: i128 = px * dx + py * dy;
    if len_sq == 0 {
        return (0, near as u128);
    }
    if dot <= 0 {
        mul_wide(near as u128, len_sq as u128)
    } else if dot >= len_sq {
        let qx: i128 = p.x as i128 - b.x as i128;
        let qy: i128 = p.y as i128 - b.y as i128;
        proof {
            lemma_sq_bound(qx as int);
            lemma_sq_bound(qy as int);
        }
        let far: i128 = qx * qx + qy * qy;
        mul_wide(far as u128, len_sq as u128)
    } else {
        let cross: i128 = px * dy - py * dx;
        let c: u128 = if cross < 0 { (-cross) as u128 } else { cross as u128 };
        assert(c * c == cross * cross) by (nonlinear_arith)
            requires c == cross || c == -cross;
        mul_wide(c, c)
    }
}

/// For a count `m`, being beyond `x / 1000000` (rounded down) is being beyond
/// `x` after scaling by a million.
proof fn lemma_scaled_gt(m: int, x: int)
    requires
        m >= 0,
        x >= 0,
    ensures
        (m > x / 1000000) == (m * 1000000 > x),
{
    let q = x / 1000000;
    let r = x % 1000000;
    assert(x == q * 1000000 + r && 0 <= r < 1000000);
    if m > q {
        assert(m * 1000000 >= (q + 1) * 1000000) by (nonlinear_arith)
            requires m >= q + 1;
    } else {
        assert(m * 1000000 <= q * 1000000) by (nonlinear_arith)
            requires m <= q;
    }
}

pub open spec fn count_true(s: Seq<bool>) -> nat
    decreases s.len(),
{
    if s.len() == 0 {
        0
    } else {
        count_true(s.drop_last()) + if s.last() {
            1nat
        } else {
            0nat
        }
    }
}

proof fn lemma_count_true_set(s: Seq<bool>, i: int)
    requires
        0 <= i < s.len(),
        !s[i],
    ensures
        count_true(s.update(i, true)) == count_true(s) + 1,
        count_true(s) < s.len(),
    decreases s.len(),
{
    let t = s.update(i, true);
    lemma_count_true_le(s.drop_last());
    if i == s.len() - 1 {
        assert(t.drop_last() =~= s.drop_last());
    } else {
        assert(t.drop_last() =~= s.drop_last().update(i, true));
        lemma_count_true_set(s.drop_last(), i);
    }
}

proof fn lemma_count_true_le(s: Seq<bool>)
    ensures
        count_true(s) <= s.len(),
    decreases s.len(),
{
    if s.len() > 0 {
        lemma_count_true_le(s.drop_last());
    }
}

/// The first interior point of the run `lo ..= hi` farthest from its chord
/// among places `lo + 1 .. i`, with its scaled distance; `(lo, 0)` when none
/// lies off the chord.
pub open spec fn farthest(pts: Seq<Point>, lo: int, hi: int, i: int) -> (int, int)
    decreases i - lo,
{
    if i <= lo + 1 {
        (lo, 0)
    } else {
        let b = farthest(pts, lo, hi, i - 1);
        let d = seg_dist_scaled(pts[i - 1], pts[lo], pts[hi]);
        if d > b.1 {
            (i - 1, d)
        } else {
            b
        }
    }
}

/// Where the run `lo ..= hi` is split: at its farthest interior point, when
/// that lies farther than `tol / 2000` pixels from the chord.
pub open spec fn split_spec(pts: Seq<Point>, tol: int, lo: int, hi: int) -> Option<int> {
    let b = farthest(pts, lo, hi, hi);
    if hi - lo >= 2 && lo < b.0 < hi && b.1 * 1000000 > tol * tol * seg_scale(pts[lo], pts[hi]) {
        Some(b.0)
    } else {
        None
    }
}

/// The interior places of the run `lo ..= hi` that the simplification keeps.
pub open spec fn kept_spec(pts: Seq<Point>, tol: int, lo: int, hi: int) -> Set<int>
    decreases hi - lo,
{
    match split_spec(pts, tol, lo, hi) {
        Some(m) => if lo < m < hi {
            set![m] + kept_spec(pts, tol, lo, m) + kept_spec(pts, tol, m, hi)
        } else {
            Set::empty()
        },
        None => Set::empty(),
    }
}

/// The places kept of a whole contour: both ends and what the runs keep.
pub open spec fn keep_spec(pts: Seq<Point>, tol: int) -> Set<int> {
    set![0, pts.len() - 1] + kept_spec(pts, tol, 0, pts.len() - 1)
}

/// The points of `pts` before place `i` whose places are in `keep`, in order.
pub open spec fn select(pts: Seq<Point>, keep: Set<int>, i: int) -> Seq<Point>
    decreases i,
{
    if i <= 0 {
        Seq::empty()
    } else if keep.contains(i - 1) {
        select(pts, keep, i - 1).push(pts[i - 1])
    } else {
        select(pts, keep, i - 1)
    }
}

/// What the runs on a work stack keep, together.
pub open spec fn stack_kept(pts: Seq<Point>, tol: int, st: Seq<(usize, usize)>) -> Set<int>
    decreases st.len(),
{
    if st.len() == 0 {
        Set::empty()
    } else {
        stack_kept(pts, tol, st.drop_last()) + kept_spec(
            pts,
            tol,
            st.last().0 as int,
            st.last().1 as int,
        )
    }
}

proof fn lemma_kept_interior(pts: Seq<Point>, tol: int, lo: int, hi: int)
    ensures
        forall|i: int| #[trigger] kept_spec(pts, tol, lo, hi).contains(i) ==> lo < i < hi,
    decreases hi - lo,
{
    match split_spec(pts, tol, lo, hi) {
        Some(m) => if lo < m < hi {
            lemma_kept_interior(pts, tol, lo, m);
            lemma_kept_interior(pts, tol, m, hi);
            let k = kept_spec(pts, tol, lo, hi);
            assert(k == set![m] + kept_spec(pts, tol, lo, m) + kept_spec(pts, tol, m, hi));
            assert forall|i: int| #[trigger] k.contains(i) implies lo < i < hi by {
                if i != m && !kept_spec(pts, tol, lo, m).contains(i) {
                    assert(kept_spec(pts, tol, m, hi).contains(i));
                }
            }
        },
        None => {},
    }
}

proof fn lemma_stack_kept_interior(pts: Seq<Point>, tol: int, st: Seq<(usize, usize)>)
    ensures
        forall|i: int|
            #[trigger] stack_kept(pts, tol, st).contains(i) ==> exists|k: int|
                0 <= k < st.len() && (#[trigger] st[k]).0 < i < st[k].1,
    decreases st.len(),
{
    if st.len() > 0 {
        let p = st.drop_last();
        lemma_stack_kept_interior(pts, tol, p);
        lemma_kept_interior(pts, tol, st.last().0 as int, st.last().1 as int);
        assert forall|i: int| #[trigger] stack_kept(pts, tol, st).contains(i) implies exists|k: int|
            0 <= k < st.len() && (#[trigger] st[k]).0 < i < st[k].1 by {
            if stack_kept(pts, tol, p).contains(i) {
                let k = choose|k: int| 0 <= k < p.len() && (#[trigger] p[k]).0 < i < p[k].1;
                assert(st[k] == p[k]);
            } else {
                assert(st[st.len() - 1] == st.last());
            }
        }
    }
}

/// Whether place `i` lies strictly inside the run `r`.
pub open spec fn inside(r: (usize, usize), i: int) -> bool {
    r.0 < i < r.1
}

/// Invariant of the work stack: the runs are within the contour, nothing
/// inside a pending run is marked yet, pending runs do not overlap inside, and
/// the marks together with what the pending runs keep are the final places.
pub open spec fn rdp_inv(
    pts: Seq<Point>,
    tol: int,
    keep: Seq<bool>,
    st: Seq<(usize, usize)>,
) -> bool {
    let n = pts.len();
    &&& keep.len() == n
    &&& forall|k: int| 0 <= k < st.len() ==> (#[trigger] st[k]).0 < st[k].1 < n
    &&& forall|k: int, i: int| 0 <= k < st.len() && #[trigger] inside(st[k], i) ==> !keep[i]
    &&& forall|k1: int, k2: int, i: int|
        0 <= k1 < st.len() && 0 <= k2 < st.len() && k1 != k2 && #[trigger] inside(st[k1], i)
            ==> !#[trigger] inside(st[k2], i)
    &&& forall|i: int|
        0 <= i < n ==> (#[trigger] keep_spec(pts, tol).contains(i) <==> (keep[i] || stack_kept(
            pts,
            tol,
            st,
        ).contains(i)))
}

proof fn lemma_rdp_split(
    pts: Seq<Point>,
    tol: int,
    keep: Seq<bool>,
    st: Seq<(usize, usize)>,
    lo: usize,
    m: usize,
    hi: usize,
)
    requires
        st.len() > 0,
        st.last() == (lo, hi),
        rdp_inv(pts, tol, keep, st),
        split_spec(pts, tol, lo as int, hi as int) == Some(m as int),
        lo < m < hi,
    ensures
        !keep[m as int],
        rdp_inv(pts, tol, keep.update(m as int, true), st.drop_last().push((lo, m)).push((m, hi))),
{
    let n = pts.len();
    let top = st.len() - 1;
    assert(st[top] == (lo, hi));
    let p = st.drop_last();
    let s2 = p.push((lo, m)).push((m, hi));
    let k2 = keep.update(m as int, true);
    assert(inside(st[top], m as int));
    assert(s2.drop_last().drop_last() =~= p);
    assert(s2.drop_last() =~= p.push((lo, m)));
    assert(st.drop_last() =~= p);
    assert(s2[p.len() as int] == (lo, m));
    assert(s2[p.len() as int + 1] == (m, hi));
    assert forall|k: int| 0 <= k < s2.len() implies (#[trigger] s2[k]).0 < s2[k].1 < n by {
        if k < p.len() {
            assert(s2[k] == st[k]);
        }
    }
    assert forall|k: int, i: int| 0 <= k < s2.len() && #[trigger] inside(s2[k], i) implies !k2[i] by {
        if k < p.len() {
            assert(s2[k] == st[k]);
            assert(!inside(st[top], i));
        } else {
            assert(inside(st[top], i));
        }
    }
    assert forall|k1: int, k2i: int, i: int|
        0 <= k1 < s2.len() && 0 <= k2i < s2.len() && k1 != k2i && #[trigger] inside(s2[k1], i)
            implies !#[trigger] inside(s2[k2i], i) by {
        if k1 < p.len() {
            assert(s2[k1] == st[k1]);
        }
        if k2i < p.len() {
            assert(s2[k2i] == st[k2i]);
        }
        if k1 < p.len() && k2i >= p.len() {
            assert(!inside(st[top], i));
        }
        if k2i < p.len() && k1 >= p.len() {
            assert(inside(st[top], i));
            assert(!inside(st[k2i], i));
        }
    }
    lemma_kept_interior(pts, tol, lo as int, m as int);
    lemma_kept_interior(pts, tol, m as int, hi as int);
    let before = stack_kept(pts, tol, st);
    let after = stack_kept(pts, tol, s2);
    assert(before == stack_kept(pts, tol, p) + kept_spec(pts, tol, lo as int, hi as int));
    let s1 = p.push((lo, m));
    assert(s1.drop_last() =~= p);
    assert(s1.last() == (lo, m));
    assert(s2.last() == (m, hi));
    assert(stack_kept(pts, tol, s1) == stack_kept(pts, tol, p) + kept_spec(pts, tol, lo as int, m as int));
    assert(after == stack_kept(pts, tol, s1) + kept_spec(pts, tol, m as int, hi as int));
    assert(kept_spec(pts, tol, lo as int, hi as int) == set![m as int] + kept_spec(pts, tol, lo as int, m as int) + kept_spec(pts, tol, m as int, hi as int));
    assert forall|i: int| 0 <= i < n implies (#[trigger] keep_spec(pts, tol).contains(i) <==> (k2[i] || after.contains(i))) by {
        assert(keep_spec(pts, tol).contains(i) <==> (keep[i] || before.contains(i)));
    }
}

proof fn lemma_rdp_leaf(
    pts: Seq<Point>,
    tol: int,
    keep: Seq<bool>,
    st: Seq<(usize, usize)>,
)
    requires
        st.len() > 0,
        rdp_inv(pts, tol, keep, st),
        kept_spec(pts, tol, st.last().0 as int, st.last().1 as int) == Set::<int>::empty(),
    ensures
        rdp_inv(pts, tol, keep, st.drop_last()),
{
    let p = st.drop_last();
    assert forall|k: int| 0 <= k < p.len() implies (#[trigger] p[k]).0 < p[k].1 < pts.len() by {
        assert(p[k] == st[k]);
    }
    assert forall|k: int, i: int| 0 <= k < p.len() && #[trigger] inside(p[k], i) implies !keep[i] by {
        assert(p[k] == st[k]);
    }
    assert forall|k1: int, k2: int, i: int|
        0 <= k1 < p.len() && 0 <= k2 < p.len() && k1 != k2 && #[trigger] inside(p[k1], i)
            implies !#[trigger] inside(p[k2], i) by {
        assert(p[k1] == st[k1]);
        assert(p[k2] == st[k2]);
    }
    assert(stack_kept(pts, tol, st) =~= stack_kept(pts, tol, p));
}

/// Ramer-Douglas-Peucker simplification with bound `tol` in two-thousandths of
/// a pixel: within a run, the interior point farthest from the chord (the
/// first one on a tie) is kept when it lies beyond the bound and the two halves
/// are simplified in turn; otherwise the run keeps only its ends. Runs are kept
/// on an explicit work stack, so that long contours need no deep recursion.
pub fn rdp_simplify(points: &Vec<Point>, tol: u32) -> (r: Vec<Point>)
    requires
        all_wf(points@),
        tol <= 262140,
    ensures
        points@.len() <= 2 ==> r@ == points@,
        points@.len() > 2 ==> r@ == select(points@, keep_spec(points@, tol as int), points@.len() as int),
        r@.len() <= points@.len(),
        points@.len() > 0 ==> r@.len() >= 1 && r@[0] == points@[0] && r@.last()
            == points@.last(),
        points@.len() >= 2 ==> r@.len() >= 2,
        forall|i: int| 0 <= i < r@.len() ==> points@.contains(#[trigger] r@[i]),
{
    let n = points.len();
    if n <= 2 {
        let mut r: Vec<Point> = Vec::new();
        let mut i: usize = 0;
        while i < n
            invariant
                n == points@.len(),
                i <= n,
                r@ == points@.take(i as int),
            decreases n - i,
        {
            r.push(points[i]);
            i = i + 1;
            assert(r@ =~= points@.take(i as int));
        }
        assert(points@.take(n as int) =~= points@);
        return r;
    }
    let ghost pts = points@;
    let ghost tl = tol as int;
    let mut keep: Vec<bool> = vec![false; n];
    keep.set(0, true);
    keep.set(n - 1, true);
    let mut stack: Vec<(usize, usize)> = Vec::new();
    stack.push((0, n - 1));
    proof {
        lemma_count_true_le(keep@);
        let st = stack@;
        assert(st[0] == (0usize, (n - 1) as usize));
        assert(stack_kept(pts, tl, st) == stack_kept(pts, tl, st.drop_last()) + kept_spec(pts, tl, 0, n - 1));
        assert(st.drop_last() =~= Seq::<(usize, usize)>::empty());
        assert(stack_kept(pts, tl, st) =~= kept_spec(pts, tl, 0, n - 1));
        lemma_kept_interior(pts, tl, 0, n - 1);
        assert forall|i: int| 0 <= i < n implies (#[trigger] keep_spec(pts, tl).contains(i) <==> (keep@[i] || stack_kept(pts, tl, st).contains(i))) by {}
    }
    assert(tol * tol <= 262140 * 262140) by (nonlinear_arith)
        requires tol <= 262140;
    let t2: u128 = tol as u128 * tol as u128;
    while stack.len() > 0
        invariant
            n == points@.len(),
            pts == points@,
            tl == tol as int,
            n > 2,
            keep@.len() == n,
            count_true(keep@) <= n,
            keep@[0],
            keep@[n - 1],
            all_wf(points@),
            t2 == tol * tol,
            t2 <= 262140 * 262140,
            rdp_inv(pts, tl, keep@, stack@),
        decreases 2 * (n - count_true(keep@)) + stack@.len(),
    {
        let ghost st = stack@;
        let (lo, hi) = stack.pop().unwrap();
        assert(st[st.len() - 1] == (lo, hi));
        assert(stack@ =~= st.drop_last());
        if hi - lo >= 2 {
            let a = points[lo];
            let b = points[hi];
            let mut max_d: (u128, u128) = (0, 0);
            let mut max_idx: usize = lo;
            let mut i: usize = lo + 1;
            while i < hi
                invariant
                    n == points@.len(),
                    pts == points@,
                    all_wf(points@),
                    lo < i <= hi < n,
                    lo <= max_idx < hi,
                    a == pts[lo as int],
                    b == pts[hi as int],
                    (max_idx as int, wide_value(max_d)) == farthest(pts, lo as int, hi as int, i as int),
                decreases hi - i,
            {
                let d = scaled_dist(points[i], a, b);
                if wide_lt(max_d, d) {
                    max_d = d;
                    max_idx = i;
                }
                i = i + 1;
            }
            let dx: i128 = b.x as i128 - a.x as i128;
            let dy: i128 = b.y as i128 - a.y as i128;
            proof {
                lemma_sq_bound(dx as int);
                lemma_sq_bound(dy as int);
            }
            let len_sq: u128 = (dx * dx + dy * dy) as u128;
            let scale: u128 = if len_sq == 0 { 1 } else { len_sq };
            assert(scale as int == seg_scale(a, b));
            assert(t2 * scale <= 262140 * 262140 * 147573952589676412928) by (nonlinear_arith)
                requires t2 <= 262140 * 262140, scale <= 147573952589676412928;
            let threshold: u128 = t2 * scale / 1000000;
            let beyond = wide_lt((0, threshold), max_d);
            proof {
                assert(wide_value((0u128, threshold)) == threshold);
                assert(wide_value(max_d) >= 0);
                lemma_scaled_gt(wide_value(max_d), t2 * scale);
            }
            if max_idx > lo && beyond && !keep[max_idx] {
                proof {
                    lemma_rdp_split(pts, tl, keep@, st, lo, max_idx, hi);
                    lemma_count_true_set(keep@, max_idx as int);
                }
                keep.set(max_idx, true);
                stack.push((lo, max_idx));
                stack.push((max_idx, hi));
            } else {
                proof {
                    if max_idx > lo && beyond {
                        lemma_rdp_split(pts, tl, keep@, st, lo, max_idx, hi);
                    }
                    assert(split_spec(pts, tl, lo as int, hi as int) is None);
                    lemma_rdp_leaf(pts, tl, keep@, st);
                }
            }
        } else {
            proof {
                assert(split_spec(pts, tl, lo as int, hi as int) is None);
                lemma_rdp_leaf(pts, tl, keep@, st);
            }
        }
    }
    assert(stack_kept(pts, tl, stack@) =~= Set::<int>::empty());
    let mut r: Vec<Point> = Vec::new();
    let mut i: usize = 0;
    while i < n
        invariant
            n == points@.len(),
            pts == points@,
            tl == tol as int,
            n > 2,
            keep@.len() == n,
            keep@[0],
            keep@[n - 1],
            forall|j: int| 0 <= j < n ==> (#[trigger] keep_spec(pts, tl).contains(j) <==> keep@[j]),
            i <= n,
            r@ == select(pts, keep_spec(pts, tl), i as int),
            r@.len() <= i,
            i > 0 ==> r@.len() >= 1 && r@[0] == points@[0],
            i > 0 && keep@[i - 1] ==> r@.last() == points@[i - 1],
            i == n ==> r@.len() >= 2,
            i >= n - 1 ==> r@.len() >= 1,
            forall|j: int| 0 <= j < r@.len() ==> points@.contains(#[trigger] r@[j]),
        decreases n - i,
    {
        if keep[i] {
            r.push(points[i]);
        }
        i = i + 1;
    }
    r
}

/// A contour simplified as the mode asks: unchanged for Logo, otherwise the
/// points Ramer-Douglas-Peucker keeps under the mode's scaled tolerance.
pub open spec fn simplified_spec(points: Seq<Point>, o: VectorizeOptions) -> Seq<Point> {
    match scaled_tolerance_spec(o) {
        None => points,
        Some(t) => if points.len() <= 2 {
            points
        } else {
            select(points, keep_spec(points, t), points.len() as int)
        },
    }
}

/// Simplifies a contour as the mode asks: Logo keeps it whole; Poster and
/// PixelArt apply `rdp_simplify` with the mode's scaled tolerance. The result
/// never has more points, and keeps the first and the last point.
pub fn simplify_for_mode(points: Vec<Point>, options: &VectorizeOptions) -> (r: Vec<Point>)
    requires
        all_wf(points@),
    ensures
        options.mode == VectorizeMode::Logo ==> r@ == points@,
        r@ == simplified_spec(points@, *options),
        r@.len() <= points@.len(),
        points@.len() >= 2 ==> r@.len() >= 2,
        points@.len() > 0 ==> r@.len() >= 1 && r@[0] == points@[0] && r@.last() == points@.last(),
        all_wf(r@),
{
    match scaled_tolerance(options) {
        None => points,
        Some(t) => {
            let r = rdp_simplify(&points, t);
            assert(all_wf(r@)) by {
                assert forall|i: int| 0 <= i < r@.len() implies (#[trigger] r@[i]).wf() by {
                    assert(points@.contains(r@[i]));
                }
            }
            r
        },
    }
}

} // verus!
