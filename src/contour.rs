use vstd::prelude::*;
use crate::components::{component_ok, has_color, step, step_spec};
use crate::quantize::QuantizedImage;
use crate::simplify::Point;
use crate::components::count_false;
use vstd::arithmetic::div_mod::lemma_fundamental_div_mod_converse;

verus! {

/// Whether a pixel bearing `color` touches the image edge or another colour
/// among its eight neighbours.
pub open spec fn boundary_spec(q: QuantizedImage, x: int, y: int, color: int) -> bool {
    &&& has_color(q, x, y, color)
    &&& exists|k: int| 0 <= k < 8 && #[trigger] leaves_color(q, x, y, k, color)
}

/// Whether the neighbour of `(x, y)` in direction `k` is outside the image or
/// bears another colour.
pub open spec fn leaves_color(q: QuantizedImage, x: int, y: int, k: int, color: int) -> bool {
    match step_spec(x, y, k, 1, q.width as int, q.height as int) {
        None => true,
        Some(n) => !has_color(q, n.0 as int, n.1 as int, color),
    }
}

/// A contour point is the centre of a boundary pixel.
pub open spec fn on_boundary(q: QuantizedImage, p: Point, color: int) -> bool {
    exists|x: int, y: int|
        #[trigger] boundary_spec(q, x, y, color) && p == Point::center_spec(x, y)
}

fn is_boundary(q: &QuantizedImage, x: u32, y: u32, color: usize) -> (r: bool)
    requires
        q.wf(),
        has_color(*q, x as int, y as int, color as int),
    ensures
        r == boundary_spec(*q, x as int, y as int, color as int),
{
    let w = q.width;
    let h = q.height;
    let total: usize = q.indices.len();
    let mut k: usize = 0;
    while k < 8
        invariant
            q.wf(),
            total == w * h,
            has_color(*q, x as int, y as int, color as int),
            w == q.width,
            h == q.height,
            x < w,
            y < h,
            k <= 8,
            forall|j: int| 0 <= j < k ==> !#[trigger] leaves_color(*q, x as int, y as int, j, color as int),
        decreases 8 - k,
    {
        match step(x, y, k, 1, w, h) {
            None => {
                assert(leaves_color(*q, x as int, y as int, k as int, color as int));
                return true;
            },
            Some((nx, ny)) => {
                proof {
                    lemma_index_in(nx as int, ny as int, w as int, h as int);
                }
                let nidx: usize = ny as usize * w as usize + nx as usize;
                if q.indices[nidx] != color {
                    assert(leaves_color(*q, x as int, y as int, k as int, color as int));
                    return true;
                }
            },
        }
        k = k + 1;
    }
    false
}

proof fn lemma_index_in(x: int, y: int, w: int, h: int)
    requires
        0 <= x < w,
        0 <= y < h,
    ensures
        0 <= y * w + x < w * h,
{
    assert(y * w + x < w * h) by (nonlinear_arith)
        requires 0 <= x < w, 0 <= y < h;
    assert(0 <= y * w) by (nonlinear_arith)
        requires 0 <= y, 0 <= w;
}

pub(crate) proof fn lemma_index_unique(x1: int, y1: int, x2: int, y2: int, w: int)
    requires
        0 <= x1 < w,
        0 <= x2 < w,
        0 <= y1,
        0 <= y2,
        y1 * w + x1 == y2 * w + x2,
    ensures
        x1 == x2 && y1 == y2,
{
    if y1 < y2 {
        assert(y1 * w + w <= y2 * w) by (nonlinear_arith)
            requires y1 < y2, 0 <= w;
    } else if y2 < y1 {
        assert(y2 * w + w <= y1 * w) by (nonlinear_arith)
            requires y2 < y1, 0 <= w;
    }
}

proof fn lemma_pix(x: int, y: int, w: int)
    requires
        0 <= x < w,
        0 <= y,
    ensures
        (y * w + x) % w == x,
        (y * w + x) / w == y,
{
    lemma_fundamental_div_mod_converse(y * w + x, w, y, x);
}

/// Marks of boundary pixels, indexed row-major.
pub open spec fn marks_boundary(q: QuantizedImage, m: Seq<bool>, color: int) -> bool {
    forall|i: int|
        0 <= i < m.len() && #[trigger] m[i] ==> boundary_spec(q, i % q.width as int, i / q.width as int, color)
}

pub open spec fn points_on_boundary(q: QuantizedImage, s: Seq<Point>, color: int) -> bool {
    forall|i: int| 0 <= i < s.len() ==> on_boundary(q, #[trigger] s[i], color)
}

/// Squared distance of two points, in squared half-pixels.
pub open spec fn dist_sq_spec(p: Point, q: Point) -> int {
    (p.x - q.x) * (p.x - q.x) + (p.y - q.y) * (p.y - q.y)
}

fn dist_sq(p: Point, q: Point) -> (d: u128)
    requires
        p.wf(),
        q.wf(),
    ensures
        d as int == dist_sq_spec(p, q),
{
    let dx: i128 = p.x as i128 - q.x as i128;
    let dy: i128 = p.y as i128 - q.y as i128;
    assert(0 <= dx * dx <= 8589934592 * 8589934592) by (nonlinear_arith)
        requires -8589934592 <= dx <= 8589934592;
    assert(0 <= dy * dy <= 8589934592 * 8589934592) by (nonlinear_arith)
        requires -8589934592 <= dy <= 8589934592;
    (dx * dx + dy * dy) as u128
}

/// Whether pixel `a` comes no earlier than `b` in row-major order.
pub open spec fn not_before(a: (u32, u32), b: (u32, u32)) -> bool {
    a.1 > b.1 || (a.1 == b.1 && a.0 >= b.0)
}

/// Whether place `k` of a component holds a boundary pixel that no boundary
/// pixel of the component precedes in row-major order.
pub open spec fn top_left(q: QuantizedImage, comp: Seq<(u32, u32)>, color: int, k: int) -> bool {
    &&& boundary_spec(q, comp[k].0 as int, comp[k].1 as int, color)
    &&& forall|m: int|
        0 <= m < comp.len() && #[trigger] boundary_spec(q, comp[m].0 as int, comp[m].1 as int, color)
            ==> not_before(comp[m], comp[k])
}

/// Whether some place before `jj` of the component holds a boundary pixel at
/// row-major offset `i`.
pub open spec fn marks_at(q: QuantizedImage, comp: Seq<(u32, u32)>, color: int, jj: int, i: int) -> bool {
    exists|j: int|
        0 <= j < jj && #[trigger] boundary_spec(q, comp[j].0 as int, comp[j].1 as int, color)
            && comp[j].1 * q.width + comp[j].0 == i
}

/// The boundary pixels of a component, as marks by row-major offset.
pub open spec fn bmask_spec(q: QuantizedImage, comp: Seq<(u32, u32)>, color: int) -> Seq<bool> {
    Seq::new((q.width * q.height) as nat, |i: int| marks_at(q, comp, color, comp.len() as int, i))
}

/// The neighbour `n` when it is a boundary pixel not yet visited.
pub open spec fn free(q: QuantizedImage, bm: Seq<bool>, vis: Seq<bool>, n: Option<(u32, u32)>) -> Option<(u32, u32)> {
    match n {
        Some(p) => if bm[p.1 * q.width + p.0] && !vis[p.1 * q.width + p.0] {
            Some(p)
        } else {
            None
        },
        None => None,
    }
}

pub open spec fn is_cardinal(k: int) -> bool {
    k == 1 || k == 3 || k == 4 || k == 6
}

/// Scan of the first `k` directions from `cur`: the first free neighbour, or
/// the first free cardinal one once a diagonal one was taken; with whether the
/// choice is cardinal.
pub open spec fn near_scan(q: QuantizedImage, bm: Seq<bool>, vis: Seq<bool>, cur: (u32, u32), k: int) -> (Option<(u32, u32)>, bool)
    decreases k,
{
    if k <= 0 {
        (None, false)
    } else {
        let prev = near_scan(q, bm, vis, cur, k - 1);
        match free(q, bm, vis, step_spec(cur.0 as int, cur.1 as int, k - 1, 1, q.width as int, q.height as int)) {
            Some(n) => if prev.0 is None || (is_cardinal(k - 1) && !prev.1) {
                (Some(n), is_cardinal(k - 1))
            } else {
                prev
            },
            None => prev,
        }
    }
}

/// The first free pixel `r` steps from `cur` in directions `k` onwards.
pub open spec fn far_dir(q: QuantizedImage, bm: Seq<bool>, vis: Seq<bool>, cur: (u32, u32), r: int, k: int) -> Option<(u32, u32)>
    decreases 8 - k,
{
    if k >= 8 {
        None
    } else {
        match free(q, bm, vis, step_spec(cur.0 as int, cur.1 as int, k, r, q.width as int, q.height as int)) {
            Some(n) => Some(n),
            None => far_dir(q, bm, vis, cur, r, k + 1),
        }
    }
}

/// The first free pixel two, then three steps away.
pub open spec fn far_pick(q: QuantizedImage, bm: Seq<bool>, vis: Seq<bool>, cur: (u32, u32)) -> Option<(u32, u32)> {
    match far_dir(q, bm, vis, cur, 2, 0) {
        Some(n) => Some(n),
        None => far_dir(q, bm, vis, cur, 3, 0),
    }
}

/// Closes a walk by returning to its first point, when it has more than two.
pub open spec fn close(c: Seq<Point>, first: Point) -> Seq<Point> {
    if c.len() > 2 {
        c.push(first)
    } else {
        c
    }
}

/// The boundary walk from pixel `cur` with visit marks `vis`, points `c` so
/// far and `vc` pixels visited, for at most `fuel` more steps.
pub open spec fn walk(
    q: QuantizedImage,
    bm: Seq<bool>,
    bc: int,
    start: (u32, u32),
    first: Point,
    cur: (u32, u32),
    vis: Seq<bool>,
    c: Seq<Point>,
    vc: int,
    fuel: nat,
) -> Seq<Point>
    decreases fuel,
{
    if fuel == 0 {
        c
    } else {
        match near_scan(q, bm, vis, cur, 8).0 {
            Some(n) => {
                let p = Point::center_spec(n.0 as int, n.1 as int);
                let c2 = c.push(p);
                let v2 = vis.update(n.1 * q.width + n.0, true);
                if c2.len() > 3 && n == start {
                    c2
                } else if c2.len() > 10 && dist_sq_spec(p, first) < 9 {
                    c2.push(first)
                } else if c2.len() > 2 * bc {
                    c2
                } else {
                    walk(q, bm, bc, start, first, n, v2, c2, vc + 1, (fuel - 1) as nat)
                }
            },
            None => if vc >= bc {
                close(c, first)
            } else {
                match far_pick(q, bm, vis, cur) {
                    Some(n) => {
                        let c2 = c.push(Point::center_spec(n.0 as int, n.1 as int));
                        let v2 = vis.update(n.1 * q.width + n.0, true);
                        if c2.len() > 2 * bc {
                            c2
                        } else {
                            walk(q, bm, bc, start, first, n, v2, c2, vc + 1, (fuel - 1) as nat)
                        }
                    },
                    None => close(c, first),
                }
            },
        }
    }
}

/// The top-most, then left-most boundary pixel of a component.
pub open spec fn start_spec(q: QuantizedImage, comp: Seq<(u32, u32)>, color: int) -> (u32, u32) {
    comp[choose|k: int| 0 <= k < comp.len() && top_left(q, comp, color, k)]
}

/// The traced outline of a component (see `trace_contour`).
pub open spec fn trace_spec(q: QuantizedImage, comp: Seq<(u32, u32)>, color: int) -> Option<Seq<Point>> {
    let bm = bmask_spec(q, comp, color);
    let bc = q.width * q.height - count_false(bm);
    if bc == 0 {
        None
    } else {
        let s = start_spec(q, comp, color);
        let first = Point::center_spec(s.0 as int, s.1 as int);
        let vis = Seq::new((q.width * q.height) as nat, |i: int| i == s.1 * q.width + s.0);
        let c = walk(q, bm, bc, s, first, s, vis, seq![first], 1, (2 * bc + 1) as nat);
        if c.len() < 3 {
            None
        } else if c.last() != first {
            Some(c.push(first))
        } else {
            Some(c)
        }
    }
}

proof fn lemma_top_left_unique(q: QuantizedImage, comp: Seq<(u32, u32)>, color: int, k1: int, k2: int)
    requires
        0 <= k1 < comp.len(),
        0 <= k2 < comp.len(),
        top_left(q, comp, color, k1),
        top_left(q, comp, color, k2),
    ensures
        comp[k1] == comp[k2],
{
    assert(not_before(comp[k1], comp[k2]));
    assert(not_before(comp[k2], comp[k1]));
}

/// Walks the boundary of a component into a closed list of pixel centres.
///
/// The walk starts at the top-most, then left-most boundary pixel and moves to
/// an unvisited boundary neighbour, a cardinal one before a diagonal one and
/// otherwise in direction order. It closes on returning to the start, or when
/// past ten points it comes within 1.5 pixels of the start; with no neighbour
/// left it jumps to an unvisited boundary pixel two or three steps away in
/// some direction, or closes. It never takes more than twice as many points
/// as there are boundary pixels. `None` when the component has no boundary
/// pixel or fewer than three points come out.
pub fn trace_contour(q: &QuantizedImage, component: &Vec<(u32, u32)>, color: usize) -> (r: Option<Vec<Point>>)
    requires
        q.wf(),
        component_ok(*q, component@, color as int),
    ensures
        match r {
            None => trace_spec(*q, component@, color as int) is None,
            Some(c) => {
                &&& trace_spec(*q, component@, color as int) == Some(c@)
                &&& c@.len() >= 3
                &&& c@[0] == c@.last()
                &&& points_on_boundary(*q, c@, color as int)
                &&& exists|k: int|
                    0 <= k < component@.len() && #[trigger] top_left(*q, component@, color as int, k)
                        && c@[0] == Point::center_spec(component@[k].0 as int, component@[k].1 as int)
            },
        },
{
    let w = q.width;
    let h = q.height;
    let total: usize = q.indices.len();
    proof {
        assert(w * h <= u32::MAX * u32::MAX) by (nonlinear_arith)
            requires w <= u32::MAX, h <= u32::MAX;
    }
    let mut bmask: Vec<bool> = vec![false; total];
    let mut bcount: u128 = 0;
    proof {
        crate::components::lemma_count_false_all(bmask@);
    }
    let mut start: (u32, u32) = (0, 0);
    let mut found = false;
    let ghost mut start_at: int = 0;
    let mut j: usize = 0;
    while j < component.len()
        invariant
            q.wf(),
            component_ok(*q, component@, color as int),
            w == q.width,
            h == q.height,
            total == w * h,
            total <= u32::MAX * u32::MAX,
            bmask@.len() == total,
            j <= component@.len(),
            bcount + count_false(bmask@) == total,
            marks_boundary(*q, bmask@, color as int),
            bcount > 0 ==> found,
            !found ==> forall|k: int| 0 <= k < j ==> !#[trigger] boundary_spec(*q, component@[k].0 as int, component@[k].1 as int, color as int),
            found ==> 0 <= start_at < j && component@[start_at] == start && boundary_spec(*q, start.0 as int, start.1 as int, color as int),
            found ==> forall|k: int| 0 <= k < j && #[trigger] boundary_spec(*q, component@[k].0 as int, component@[k].1 as int, color as int) ==> not_before(component@[k], start),
            forall|i: int| 0 <= i < total ==> (#[trigger] bmask@[i] <==> marks_at(*q, component@, color as int, j as int, i)),
        decreases component@.len() - j,
    {
        let (x, y) = component[j];
        assert(has_color(*q, component@[j as int].0 as int, component@[j as int].1 as int, color as int));
        if is_boundary(q, x, y, color) {
            proof {
                lemma_index_in(x as int, y as int, w as int, h as int);
                lemma_pix(x as int, y as int, w as int);
            }
            let idx: usize = y as usize * w as usize + x as usize;
            if !bmask[idx] {
                proof {
                    crate::components::lemma_count_false_set(bmask@, idx as int);
                }
                bmask.set(idx, true);
                bcount = bcount + 1;
            }
            if !found || y < start.1 || (y == start.1 && x < start.0) {
                start = (x, y);
                found = true;
                proof {
                    start_at = j as int;
                }
            }
            proof {
                assert forall|i: int| 0 <= i < total implies (#[trigger] bmask@[i] <==> marks_at(*q, component@, color as int, j + 1, i)) by {
                    if i == idx {
                        assert(boundary_spec(*q, component@[j as int].0 as int, component@[j as int].1 as int, color as int));
                    } else {
                        if marks_at(*q, component@, color as int, j + 1, i) {
                            let jj = choose|jj: int| 0 <= jj < j + 1 && #[trigger] boundary_spec(*q, component@[jj].0 as int, component@[jj].1 as int, color as int)
                                && component@[jj].1 * q.width + component@[jj].0 == i;
                            assert(jj != j);
                        }
                    }
                }
            }
        } else {
            proof {
                assert forall|i: int| 0 <= i < total implies (#[trigger] bmask@[i] <==> marks_at(*q, component@, color as int, j + 1, i)) by {
                    if marks_at(*q, component@, color as int, j + 1, i) {
                        let jj = choose|jj: int| 0 <= jj < j + 1 && #[trigger] boundary_spec(*q, component@[jj].0 as int, component@[jj].1 as int, color as int)
                            && component@[jj].1 * q.width + component@[jj].0 == i;
                        assert(jj != j);
                    }
                }
            }
        }
        j = j + 1;
    }
    let ghost bm = bmask@;
    assert(bm =~= bmask_spec(*q, component@, color as int));
    if bcount == 0 {
        return None;
    }
    proof {
        assert(top_left(*q, component@, color as int, start_at));
    }
    let mut visited: Vec<bool> = vec![false; total];
    let mut cur: (u32, u32) = start;
    proof {
        lemma_index_in(start.0 as int, start.1 as int, w as int, h as int);
    }
    let sidx: usize = start.1 as usize * w as usize + start.0 as usize;
    visited.set(sidx, true);
    let first = Point::new(start.0, start.1);
    let mut contour: Vec<Point> = Vec::new();
    contour.push(first);
    let mut vcount: u128 = 1;
    let ghost target = walk(*q, bm, bcount as int, start, first, start, visited@, contour@, 1, (2 * bcount + 1) as nat);
    proof {
        let k = choose|k: int| 0 <= k < component@.len() && top_left(*q, component@, color as int, k);
        lemma_top_left_unique(*q, component@, color as int, k, start_at);
        assert(start == start_spec(*q, component@, color as int));
        assert(visited@ =~= Seq::new((q.width * q.height) as nat, |i: int| i == start.1 * q.width + start.0));
        assert(contour@ =~= seq![first]);
    }
    loop
        invariant_except_break
            contour@.len() <= 2 * bcount + 1,
            vcount <= contour@.len(),
            walk(*q, bm, bcount as int, start, first, cur, visited@, contour@, vcount as int, (2 * bcount + 2 - contour@.len()) as nat) == target,
        invariant
            bmask@ == bm,
            q.wf(),
            w == q.width,
            h == q.height,
            total == w * h,
            total <= u32::MAX * u32::MAX,
            bmask@.len() == total,
            visited@.len() == total,
            marks_boundary(*q, bmask@, color as int),
            1 <= bcount <= total,
            cur.0 < w,
            cur.1 < h,
            contour@.len() >= 1,
            contour@[0] == first,
            first.wf(),
            first == Point::center_spec(start.0 as int, start.1 as int),
            0 <= start_at < component@.len(),
            top_left(*q, component@, color as int, start_at),
            component@[start_at] == start,
            points_on_boundary(*q, contour@, color as int),
        ensures
            contour@ == target,
            contour@.len() >= 1,
            contour@[0] == first,
            first == Point::center_spec(start.0 as int, start.1 as int),
            0 <= start_at < component@.len(),
            top_left(*q, component@, color as int, start_at),
            component@[start_at] == start,
            points_on_boundary(*q, contour@, color as int),
        decreases 2 * bcount + 1 - contour@.len(),
    {
        let ghost cur0 = cur;
        let ghost vis0 = visited@;
        let ghost c0 = contour@;
        let mut best: Option<(u32, u32)> = None;
        let mut best_cardinal = false;
        let mut k: usize = 0;
        while k < 8
            invariant
                bmask@ == bm,
                (best, best_cardinal) == near_scan(*q, bm, visited@, cur, k as int),
                q.wf(),
                w == q.width,
                h == q.height,
                total == w * h,
                bmask@.len() == total,
                visited@.len() == total,
                marks_boundary(*q, bmask@, color as int),
                cur.0 < w,
                cur.1 < h,
                k <= 8,
                match best {
                    None => true,
                    Some(b) => b.0 < w && b.1 < h && boundary_spec(*q, b.0 as int, b.1 as int, color as int),
                },
            decreases 8 - k,
        {
            match step(cur.0, cur.1, k, 1, w, h) {
                Some((nx, ny)) => {
                    proof {
                        lemma_index_in(nx as int, ny as int, w as int, h as int);
                        lemma_pix(nx as int, ny as int, w as int);
                    }
                    let nidx: usize = ny as usize * w as usize + nx as usize;
                    if bmask[nidx] && !visited[nidx] {
                        let cardinal = k == 1 || k == 3 || k == 4 || k == 6;
                        if best.is_none() || (cardinal && !best_cardinal) {
                            best = Some((nx, ny));
                            best_cardinal = cardinal;
                        }
                    }
                },
                None => {},
            }
            k = k + 1;
        }
        match best {
            Some((nx, ny)) => {
                let p = Point::new(nx, ny);
                proof {
                    lemma_index_in(nx as int, ny as int, w as int, h as int);
                    assert(on_boundary(*q, p, color as int)) by {
                        assert(boundary_spec(*q, nx as int, ny as int, color as int) && p == Point::center_spec(nx as int, ny as int));
                    }
                }
                contour.push(p);
                let nidx: usize = ny as usize * w as usize + nx as usize;
                visited.set(nidx, true);
                vcount = vcount + 1;
                cur = (nx, ny);
                if contour.len() > 3 && cur.0 == start.0 && cur.1 == start.1 {
                    break;
                }
                if contour.len() > 10 && dist_sq(p, first) < 9 {
                    contour.push(first);
                    break;
                }
            },
            None => {
                if vcount >= bcount {
                    if contour.len() > 2 {
                        contour.push(first);
                    }
                    break;
                }
                let mut found = false;
                let ghost len0 = contour@.len();
                let ghost vc0 = vcount;
                let mut radius: u32 = 2;
                while radius <= 3 && !found
                    invariant
                        q.wf(),
                        w == q.width,
                        h == q.height,
                        total == w * h,
                        bmask@.len() == total,
                        visited@.len() == total,
                        marks_boundary(*q, bmask@, color as int),
                        cur.0 < w,
                        cur.1 < h,
                        2 <= radius <= 4,
                        contour@.len() >= 1,
                        contour@[0] == first,
                        vc0 <= len0 <= 2 * bcount + 1,
                        bcount <= total <= u32::MAX * u32::MAX,
                        !found ==> contour@.len() == len0 && vcount == vc0,
                        found ==> contour@.len() == len0 + 1 && vcount == vc0 + 1,
                        points_on_boundary(*q, contour@, color as int),
                        bmask@ == bm,
                        !found ==> cur == cur0 && visited@ == vis0 && contour@ == c0,
                        !found && radius >= 3 ==> far_dir(*q, bm, vis0, cur0, 2, 0) is None,
                        !found && radius >= 4 ==> far_dir(*q, bm, vis0, cur0, 3, 0) is None,
                        found ==> far_pick(*q, bm, vis0, cur0) == Some(cur) && visited@ == vis0.update(cur.1 * q.width + cur.0, true)
                            && contour@ == c0.push(Point::center_spec(cur.0 as int, cur.1 as int)),
                    decreases 4 - radius + if found { 0int } else { 1int },
                {
                    let mut k: usize = 0;
                    while k < 8 && !found
                        invariant
                            q.wf(),
                            w == q.width,
                            h == q.height,
                            total == w * h,
                            bmask@.len() == total,
                            visited@.len() == total,
                            marks_boundary(*q, bmask@, color as int),
                            cur.0 < w,
                            cur.1 < h,
                            2 <= radius <= 3,
                            k <= 8,
                            contour@.len() >= 1,
                            contour@[0] == first,
                            vc0 <= len0 <= 2 * bcount + 1,
                        bcount <= total <= u32::MAX * u32::MAX,
                        !found ==> contour@.len() == len0 && vcount == vc0,
                            found ==> contour@.len() == len0 + 1 && vcount == vc0 + 1,
                            points_on_boundary(*q, contour@, color as int),
                            bmask@ == bm,
                            !found ==> cur == cur0 && visited@ == vis0 && contour@ == c0,
                            !found ==> far_dir(*q, bm, vis0, cur0, radius as int, 0) == far_dir(*q, bm, vis0, cur0, radius as int, k as int),
                            radius == 3 ==> far_dir(*q, bm, vis0, cur0, 2, 0) is None,
                            found ==> far_pick(*q, bm, vis0, cur0) == Some(cur) && visited@ == vis0.update(cur.1 * q.width + cur.0, true)
                                && contour@ == c0.push(Point::center_spec(cur.0 as int, cur.1 as int)),
                        decreases 8 - k,
                    {
                        match step(cur.0, cur.1, k, radius, w, h) {
                            Some((nx, ny)) => {
                                proof {
                                    lemma_index_in(nx as int, ny as int, w as int, h as int);
                                    lemma_pix(nx as int, ny as int, w as int);
                                }
                                let nidx: usize = ny as usize * w as usize + nx as usize;
                                if bmask[nidx] && !visited[nidx] {
                                    let p = Point::new(nx, ny);
                                    proof {
                                        assert(on_boundary(*q, p, color as int)) by {
                                            assert(boundary_spec(*q, nx as int, ny as int, color as int) && p == Point::center_spec(nx as int, ny as int));
                                        }
                                    }
                                    proof {
                                        assert(far_dir(*q, bm, vis0, cur0, radius as int, k as int) == Some((nx, ny)));
                                    }
                                    contour.push(p);
                                    visited.set(nidx, true);
                                    vcount = vcount + 1;
                                    cur = (nx, ny);
                                    found = true;
                                }
                            },
                            None => {},
                        }
                        k = k + 1;
                    }
                    if !found {
                        radius = radius + 1;
                    }
                }
                if !found {
                    if contour.len() > 2 {
                        contour.push(first);
                    }
                    break;
                }
            },
        }
        if contour.len() as u128 > 2 * bcount {
            break;
        }
    }
    if contour.len() < 3 {
        return None;
    }
    let last = contour[contour.len() - 1];
    if last != first {
        contour.push(first);
    }
    Some(contour)
}

} // verus!
