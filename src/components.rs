use vstd::prelude::*;
use crate::quantize::QuantizedImage;

verus! {

/// The eight neighbour directions, row by row: up-left, up, up-right, left,
/// right, down-left, down, down-right.
pub open spec fn dir_spec(k: int) -> (int, int) {
    if k == 0 {
        (-1, -1)
    } else if k == 1 {
        (0, -1)
    } else if k == 2 {
        (1, -1)
    } else if k == 3 {
        (-1, 0)
    } else if k == 4 {
        (1, 0)
    } else if k == 5 {
        (-1, 1)
    } else if k == 6 {
        (0, 1)
    } else {
        (1, 1)
    }
}

/// The pixel `radius` steps from `(x, y)` in direction `k`, when it lies in a
/// `width` by `height` grid.
pub open spec fn step_spec(x: int, y: int, k: int, radius: int, width: int, height: int) -> Option<
    (u32, u32),
> {
    let nx = x + dir_spec(k).0 * radius;
    let ny = y + dir_spec(k).1 * radius;
    if 0 <= nx < width && 0 <= ny < height {
        Some((nx as u32, ny as u32))
    } else {
        None
    }
}

pub fn step(x: u32, y: u32, k: usize, radius: u32, width: u32, height: u32) -> (r: Option<(u32, u32)>)
    requires
        x < width,
        y < height,
        k < 8,
        radius <= 3,
    ensures
        r == step_spec(x as int, y as int, k as int, radius as int, width as int, height as int),
{
    let dx: i64 = if k == 0 || k == 3 || k == 5 { -1 } else if k == 1 || k == 6 { 0 } else { 1 };
    let dy: i64 = if k <= 2 { -1 } else if k <= 4 { 0 } else { 1 };
    let nx: i64 = x as i64 + dx * radius as i64;
    let ny: i64 = y as i64 + dy * radius as i64;
    if 0 <= nx && nx < width as i64 && 0 <= ny && ny < height as i64 {
        Some((nx as u32, ny as u32))
    } else {
        None
    }
}

/// Whether pixel `(x, y)` of the image bears palette index `color`.
pub open spec fn has_color(q: QuantizedImage, x: int, y: int, color: int) -> bool {
    &&& 0 <= x < q.width
    &&& 0 <= y < q.height
    &&& q.indices@[y * q.width + x] == color
}

pub open spec fn count_false(s: Seq<bool>) -> nat
    decreases s.len(),
{
    if s.len() == 0 {
        0
    } else {
        count_false(s.drop_last()) + if s.last() {
            0nat
        } else {
            1nat
        }
    }
}

pub(crate) proof fn lemma_count_false_all(s: Seq<bool>)
    requires
        forall|i: int| 0 <= i < s.len() ==> !s[i],
    ensures
        count_false(s) == s.len(),
    decreases s.len(),
{
    if s.len() > 0 {
        lemma_count_false_all(s.drop_last());
    }
}

pub(crate) proof fn lemma_count_false_set(s: Seq<bool>, i: int)
    requires
        0 <= i < s.len(),
        !s[i],
    ensures
        count_false(s.update(i, true)) + 1 == count_false(s),
    decreases s.len(),
{
    let t = s.update(i, true);
    if i == s.len() - 1 {
        assert(t.drop_last() =~= s.drop_last());
    } else {
        assert(t.drop_last() =~= s.drop_last().update(i, true));
        lemma_count_false_set(s.drop_last(), i);
    }
}

proof fn lemma_index_bound(x: int, y: int, w: int, h: int)
    requires
        0 <= x < w,
        0 <= y < h,
    ensures
        0 <= y * w + x < w * h,
{
    assert(y * w + x < w * h) by (nonlinear_arith)
        requires 0 <= x < w, 0 <= y < h;
    assert(0 <= y * w) by (nonlinear_arith)
        requires 0 <= y, 0 <= w;
}

/// A component is a non-empty list of in-bounds pixels, all bearing `color`.
pub open spec fn component_ok(q: QuantizedImage, c: Seq<(u32, u32)>, color: int) -> bool {
    &&& c.len() > 0
    &&& forall|j: int| 0 <= j < c.len() ==> has_color(q, (#[trigger] c[j]).0 as int, c[j].1 as int, color)
}

/// Row-major offset of a pixel in a grid `w` wide.
pub open spec fn pidx(w: int, p: (u32, u32)) -> int {
    p.1 * w + p.0
}

/// Where a labelled pixel stands, by its label `at`: place `at.1` of finished
/// component `at.0`; or, for the component being filled, place `at.1` in it,
/// or place `-1 - at.1` on the work stack.
pub open spec fn located(
    w: int,
    at: (int, int),
    i: int,
    comps: Seq<Vec<(u32, u32)>>,
    component: Seq<(u32, u32)>,
    stack: Seq<(u32, u32)>,
) -> bool {
    if at.0 < comps.len() {
        0 <= at.1 < comps[at.0]@.len() && pidx(w, comps[at.0]@[at.1]) == i
    } else if at.1 >= 0 {
        at.1 < component.len() && pidx(w, component[at.1]) == i
    } else {
        -1 - at.1 < stack.len() && pidx(w, stack[-1 - at.1]) == i
    }
}

/// State of the flood fill: each visited pixel has a label saying where it
/// stands, and each listed pixel bears `color` and the label of its place.
pub open spec fn fill_inv(
    q: QuantizedImage,
    color: int,
    visited: Seq<bool>,
    label: Seq<(int, int)>,
    comps: Seq<Vec<(u32, u32)>>,
    component: Seq<(u32, u32)>,
    stack: Seq<(u32, u32)>,
) -> bool {
    let w = q.width as int;
    let n = q.width * q.height;
    &&& visited.len() == n
    &&& label.len() == n
    &&& forall|i: int| 0 <= i < n ==> (#[trigger] visited[i] <==> label[i].0 >= 0)
    &&& forall|i: int|
        0 <= i < n && (#[trigger] label[i]).0 >= 0 ==> label[i].0 <= comps.len() && located(
            w,
            label[i],
            i,
            comps,
            component,
            stack,
        )
    &&& forall|c: int| 0 <= c < comps.len() ==> (#[trigger] comps[c])@.len() > 0
    &&& forall|c: int, j: int|
        0 <= c < comps.len() && 0 <= j < comps[c]@.len() ==> has_color(
            q,
            (#[trigger] comps[c]@[j]).0 as int,
            comps[c]@[j].1 as int,
            color,
        ) && label[pidx(w, comps[c]@[j])] == (c, j)
    &&& forall|j: int|
        0 <= j < component.len() ==> has_color(
            q,
            (#[trigger] component[j]).0 as int,
            component[j].1 as int,
            color,
        ) && label[pidx(w, component[j])] == (comps.len() as int, j)
    &&& forall|k: int|
        0 <= k < stack.len() ==> has_color(
            q,
            (#[trigger] stack[k]).0 as int,
            stack[k].1 as int,
            color,
        ) && label[pidx(w, stack[k])] == (comps.len() as int, -1 - k)
}

proof fn lemma_has_color_index(q: QuantizedImage, p: (u32, u32), color: int)
    requires
        has_color(q, p.0 as int, p.1 as int, color),
    ensures
        0 <= pidx(q.width as int, p) < q.width * q.height,
{
    lemma_index_bound(p.0 as int, p.1 as int, q.width as int, q.height as int);
}

proof fn lemma_start(
    q: QuantizedImage,
    color: int,
    visited: Seq<bool>,
    label: Seq<(int, int)>,
    comps: Seq<Vec<(u32, u32)>>,
    p: (u32, u32),
)
    requires
        fill_inv(q, color, visited, label, comps, Seq::empty(), Seq::empty()),
        has_color(q, p.0 as int, p.1 as int, color),
        !visited[pidx(q.width as int, p)],
    ensures
        fill_inv(
            q,
            color,
            visited.update(pidx(q.width as int, p), true),
            label.update(pidx(q.width as int, p), (comps.len() as int, -1)),
            comps,
            Seq::empty(),
            seq![p],
        ),
{
    let w = q.width as int;
    let i0 = pidx(w, p);
    lemma_has_color_index(q, p, color);
    let l2 = label.update(i0, (comps.len() as int, -1));
    assert forall|c: int, j: int| 0 <= c < comps.len() && 0 <= j < comps[c]@.len() implies l2[pidx(w, #[trigger] comps[c]@[j])] == (c, j) by {
        lemma_has_color_index(q, comps[c]@[j], color);
    }
}

proof fn lemma_pop(
    q: QuantizedImage,
    color: int,
    visited: Seq<bool>,
    label: Seq<(int, int)>,
    comps: Seq<Vec<(u32, u32)>>,
    component: Seq<(u32, u32)>,
    stack: Seq<(u32, u32)>,
)
    requires
        fill_inv(q, color, visited, label, comps, component, stack),
        stack.len() > 0,
    ensures
        fill_inv(
            q,
            color,
            visited,
            label.update(pidx(q.width as int, stack.last()), (comps.len() as int, component.len() as int)),
            comps,
            component.push(stack.last()),
            stack.drop_last(),
        ),
{
    let w = q.width as int;
    let p = stack.last();
    let i0 = pidx(w, p);
    assert(stack[stack.len() - 1] == p);
    lemma_has_color_index(q, p, color);
    let l2 = label.update(i0, (comps.len() as int, component.len() as int));
    let c2 = component.push(p);
    let s2 = stack.drop_last();
    assert forall|c: int, j: int| 0 <= c < comps.len() && 0 <= j < comps[c]@.len() implies l2[pidx(w, #[trigger] comps[c]@[j])] == (c, j) by {
        lemma_has_color_index(q, comps[c]@[j], color);
    }
    assert forall|j: int| 0 <= j < c2.len() implies has_color(q, (#[trigger] c2[j]).0 as int, c2[j].1 as int, color) && l2[pidx(w, c2[j])] == (comps.len() as int, j) by {
        if j < component.len() {
            assert(c2[j] == component[j]);
            lemma_has_color_index(q, component[j], color);
        }
    }
    assert forall|k: int| 0 <= k < s2.len() implies has_color(q, (#[trigger] s2[k]).0 as int, s2[k].1 as int, color) && l2[pidx(w, s2[k])] == (comps.len() as int, -1 - k) by {
        assert(s2[k] == stack[k]);
        lemma_has_color_index(q, stack[k], color);
    }
    assert forall|i: int| 0 <= i < q.width * q.height && (#[trigger] l2[i]).0 >= 0 implies l2[i].0 <= comps.len() && located(w, l2[i], i, comps, c2, s2) by {
        if i != i0 {
            assert(located(w, label[i], i, comps, component, stack));
            if label[i].0 == comps.len() && label[i].1 < 0 {
                let k = -1 - label[i].1;
                if k == stack.len() - 1 {
                    assert(pidx(w, stack[k]) == i);
                }
                assert(s2[k] == stack[k]);
            } else if label[i].0 == comps.len() {
                assert(c2[label[i].1] == component[label[i].1]);
            }
        } else {
            assert(c2[component.len() as int] == p);
        }
    }
}

proof fn lemma_push(
    q: QuantizedImage,
    color: int,
    visited: Seq<bool>,
    label: Seq<(int, int)>,
    comps: Seq<Vec<(u32, u32)>>,
    component: Seq<(u32, u32)>,
    stack: Seq<(u32, u32)>,
    p: (u32, u32),
)
    requires
        fill_inv(q, color, visited, label, comps, component, stack),
        has_color(q, p.0 as int, p.1 as int, color),
        !visited[pidx(q.width as int, p)],
    ensures
        fill_inv(
            q,
            color,
            visited.update(pidx(q.width as int, p), true),
            label.update(pidx(q.width as int, p), (comps.len() as int, -1 - stack.len())),
            comps,
            component,
            stack.push(p),
        ),
{
    let w = q.width as int;
    let i0 = pidx(w, p);
    lemma_has_color_index(q, p, color);
    let l2 = label.update(i0, (comps.len() as int, -1 - stack.len()));
    let s2 = stack.push(p);
    assert forall|c: int, j: int| 0 <= c < comps.len() && 0 <= j < comps[c]@.len() implies l2[pidx(w, #[trigger] comps[c]@[j])] == (c, j) by {
        lemma_has_color_index(q, comps[c]@[j], color);
    }
    assert forall|j: int| 0 <= j < component.len() implies l2[pidx(w, #[trigger] component[j])] == (comps.len() as int, j) by {
        lemma_has_color_index(q, component[j], color);
    }
    assert forall|k: int| 0 <= k < s2.len() implies has_color(q, (#[trigger] s2[k]).0 as int, s2[k].1 as int, color) && l2[pidx(w, s2[k])] == (comps.len() as int, -1 - k) by {
        if k < stack.len() {
            assert(s2[k] == stack[k]);
            lemma_has_color_index(q, stack[k], color);
        }
    }
    assert forall|i: int| 0 <= i < q.width * q.height && (#[trigger] l2[i]).0 >= 0 implies l2[i].0 <= comps.len() && located(w, l2[i], i, comps, component, s2) by {
        if i != i0 {
            assert(located(w, label[i], i, comps, component, stack));
            if label[i].0 == comps.len() && label[i].1 < 0 {
                assert(s2[-1 - label[i].1] == stack[-1 - label[i].1]);
            }
        } else {
            assert(s2[stack.len() as int] == p);
        }
    }
}

proof fn lemma_finish(
    q: QuantizedImage,
    color: int,
    visited: Seq<bool>,
    label: Seq<(int, int)>,
    comps: Seq<Vec<(u32, u32)>>,
    component: Vec<(u32, u32)>,
)
    requires
        fill_inv(q, color, visited, label, comps, component@, Seq::empty()),
        component@.len() > 0,
    ensures
        fill_inv(q, color, visited, label, comps.push(component), Seq::empty(), Seq::empty()),
{
    let w = q.width as int;
    let c2 = comps.push(component);
    assert(c2[comps.len() as int] == component);
    assert forall|c: int| 0 <= c < c2.len() implies (#[trigger] c2[c])@.len() > 0 by {
        if c < comps.len() {
            assert(c2[c] == comps[c]);
        }
    }
    assert forall|c: int, j: int| 0 <= c < c2.len() && 0 <= j < c2[c]@.len() implies has_color(
        q,
        (#[trigger] c2[c]@[j]).0 as int,
        c2[c]@[j].1 as int,
        color,
    ) && label[pidx(w, c2[c]@[j])] == (c, j) by {
        if c < comps.len() {
            assert(c2[c] == comps[c]);
        } else {
            assert(c2[c]@[j] == component@[j]);
        }
    }
    assert forall|i: int| 0 <= i < q.width * q.height && (#[trigger] label[i]).0 >= 0 implies label[i].0 <= c2.len() && located(w, label[i], i, c2, Seq::empty(), Seq::empty()) by {
        assert(located(w, label[i], i, comps, component@, Seq::empty()));
        if label[i].0 < comps.len() {
            assert(c2[label[i].0] == comps[label[i].0]);
        }
    }
}

/// Whether `(x, y)` is one of the eight neighbours of `p`.
pub open spec fn adjacent(p: (u32, u32), x: int, y: int) -> bool {
    &&& !(x == p.0 && y == p.1)
    &&& p.0 - 1 <= x <= p.0 + 1
    &&& p.1 - 1 <= y <= p.1 + 1
}

/// Each finished component holds, by label, every neighbour of the colour of
/// each of its pixels.
pub open spec fn closed_done(
    q: QuantizedImage,
    color: int,
    label: Seq<(int, int)>,
    comps: Seq<Vec<(u32, u32)>>,
) -> bool {
    forall|c: int, j: int, x: int, y: int|
        #![trigger comps[c]@[j], has_color(q, x, y, color)]
        0 <= c < comps.len() && 0 <= j < comps[c]@.len() && has_color(q, x, y, color) && adjacent(
            comps[c]@[j],
            x,
            y,
        ) ==> label[y * q.width + x].0 == c
}

/// The first `upto` pixels of the component being filled have each neighbour
/// of the colour labelled for it.
pub open spec fn closed_cur(
    q: QuantizedImage,
    color: int,
    label: Seq<(int, int)>,
    cur: int,
    component: Seq<(u32, u32)>,
    upto: int,
) -> bool {
    forall|j: int, x: int, y: int|
        #![trigger component[j], has_color(q, x, y, color)]
        0 <= j < upto && has_color(q, x, y, color) && adjacent(component[j], x, y) ==> label[y
            * q.width + x].0 == cur
}

/// The neighbours of `(px, py)` of the colour in directions before `k` are
/// labelled for the component `cur`.
pub open spec fn dirs_done(
    q: QuantizedImage,
    color: int,
    label: Seq<(int, int)>,
    px: int,
    py: int,
    k: int,
    cur: int,
) -> bool {
    forall|kk: int|
        0 <= kk < k ==> match #[trigger] step_spec(px, py, kk, 1, q.width as int, q.height as int) {
            None => true,
            Some(n) => has_color(q, n.0 as int, n.1 as int, color) ==> label[n.1 * q.width
                + n.0].0 == cur,
        }
}

proof fn lemma_relabel(
    q: QuantizedImage,
    color: int,
    label: Seq<(int, int)>,
    comps: Seq<Vec<(u32, u32)>>,
    component: Seq<(u32, u32)>,
    upto: int,
    i0: int,
    v: (int, int),
)
    requires
        label.len() == q.width * q.height,
        0 <= i0 < label.len(),
        label[i0].0 < 0 || label[i0].0 == v.0,
        v.0 == comps.len(),
        closed_done(q, color, label, comps),
        closed_cur(q, color, label, comps.len() as int, component, upto),
    ensures
        closed_done(q, color, label.update(i0, v), comps),
        closed_cur(q, color, label.update(i0, v), comps.len() as int, component, upto),
{
    let l2 = label.update(i0, v);
    assert forall|c: int, j: int, x: int, y: int|
        #![trigger comps[c]@[j], has_color(q, x, y, color)]
        0 <= c < comps.len() && 0 <= j < comps[c]@.len() && has_color(q, x, y, color) && adjacent(
            comps[c]@[j],
            x,
            y,
        ) implies l2[y * q.width + x].0 == c by {
        lemma_index_bound(x, y, q.width as int, q.height as int);
    }
    assert forall|j: int, x: int, y: int|
        #![trigger component[j], has_color(q, x, y, color)]
        0 <= j < upto && has_color(q, x, y, color) && adjacent(component[j], x, y) implies l2[y
            * q.width + x].0 == comps.len() by {
        lemma_index_bound(x, y, q.width as int, q.height as int);
    }
}

proof fn lemma_visited_neighbor(
    q: QuantizedImage,
    color: int,
    visited: Seq<bool>,
    label: Seq<(int, int)>,
    comps: Seq<Vec<(u32, u32)>>,
    component: Seq<(u32, u32)>,
    stack: Seq<(u32, u32)>,
    p: (u32, u32),
    n: (u32, u32),
)
    requires
        fill_inv(q, color, visited, label, comps, component, stack),
        closed_done(q, color, label, comps),
        has_color(q, p.0 as int, p.1 as int, color),
        label[pidx(q.width as int, p)].0 == comps.len(),
        has_color(q, n.0 as int, n.1 as int, color),
        adjacent(n, p.0 as int, p.1 as int),
        visited[pidx(q.width as int, n)],
    ensures
        label[pidx(q.width as int, n)].0 == comps.len(),
{
    let w = q.width as int;
    let i = pidx(w, n);
    lemma_has_color_index(q, n, color);
    lemma_has_color_index(q, p, color);
    let at = label[i];
    if at.0 < comps.len() {
        assert(located(w, at, i, comps, component, stack));
        let m = comps[at.0]@[at.1];
        assert(has_color(q, m.0 as int, m.1 as int, color));
        crate::contour::lemma_index_unique(m.0 as int, m.1 as int, n.0 as int, n.1 as int, w);
        assert(m == n);
        assert(label[p.1 * q.width + p.0].0 == at.0);
    }
}

proof fn lemma_all_dirs(q: QuantizedImage, p: (u32, u32), x: int, y: int)
    requires
        p.0 < q.width,
        p.1 < q.height,
        0 <= x < q.width,
        0 <= y < q.height,
        adjacent(p, x, y),
    ensures
        exists|k: int|
            0 <= k < 8 && #[trigger] step_spec(p.0 as int, p.1 as int, k, 1, q.width as int, q.height as int)
                == Some((x as u32, y as u32)),
{
    let dx = x - p.0;
    let dy = y - p.1;
    let k: int = if dy == -1 {
        dx + 1
    } else if dy == 0 {
        if dx == -1 { 3 } else { 4 }
    } else {
        dx + 6
    };
    assert(step_spec(p.0 as int, p.1 as int, k, 1, q.width as int, q.height as int) == Some((x as u32, y as u32)));
}

proof fn lemma_close_last(
    q: QuantizedImage,
    color: int,
    label: Seq<(int, int)>,
    cur: int,
    component: Seq<(u32, u32)>,
)
    requires
        component.len() > 0,
        component.last().0 < q.width,
        component.last().1 < q.height,
        closed_cur(q, color, label, cur, component, component.len() - 1),
        dirs_done(q, color, label, component.last().0 as int, component.last().1 as int, 8, cur),
    ensures
        closed_cur(q, color, label, cur, component, component.len() as int),
{
    let p = component.last();
    assert forall|j: int, x: int, y: int|
        #![trigger component[j], has_color(q, x, y, color)]
        0 <= j < component.len() && has_color(q, x, y, color) && adjacent(component[j], x, y) implies label[y
            * q.width + x].0 == cur by {
        if j == component.len() - 1 {
            lemma_all_dirs(q, p, x, y);
            let k = choose|k: int|
                0 <= k < 8 && #[trigger] step_spec(p.0 as int, p.1 as int, k, 1, q.width as int, q.height as int)
                    == Some((x as u32, y as u32));
        }
    }
}

proof fn lemma_close_finish(
    q: QuantizedImage,
    color: int,
    label: Seq<(int, int)>,
    comps: Seq<Vec<(u32, u32)>>,
    component: Vec<(u32, u32)>,
)
    requires
        closed_done(q, color, label, comps),
        closed_cur(q, color, label, comps.len() as int, component@, component@.len() as int),
    ensures
        closed_done(q, color, label, comps.push(component)),
{
    let c2 = comps.push(component);
    assert forall|c: int, j: int, x: int, y: int|
        #![trigger c2[c]@[j], has_color(q, x, y, color)]
        0 <= c < c2.len() && 0 <= j < c2[c]@.len() && has_color(q, x, y, color) && adjacent(
            c2[c]@[j],
            x,
            y,
        ) implies label[y * q.width + x].0 == c by {
        if c < comps.len() {
            assert(c2[c] == comps[c]);
        } else {
            assert(c2[c] == component);
            assert(component@[j] == c2[c]@[j]);
        }
    }
}

proof fn lemma_dirs_relabel(
    q: QuantizedImage,
    color: int,
    label: Seq<(int, int)>,
    px: int,
    py: int,
    k: int,
    cur: int,
    i0: int,
    v: (int, int),
)
    requires
        label.len() == q.width * q.height,
        0 <= i0 < label.len(),
        v.0 == cur,
        dirs_done(q, color, label, px, py, k, cur),
    ensures
        dirs_done(q, color, label.update(i0, v), px, py, k, cur),
{
    let l2 = label.update(i0, v);
    assert forall|kk: int| 0 <= kk < k implies match #[trigger] step_spec(px, py, kk, 1, q.width as int, q.height as int) {
        None => true,
        Some(n) => has_color(q, n.0 as int, n.1 as int, color) ==> l2[n.1 * q.width + n.0].0 == cur,
    } by {
        match step_spec(px, py, kk, 1, q.width as int, q.height as int) {
            None => {},
            Some(n) => {
                if has_color(q, n.0 as int, n.1 as int, color) {
                    lemma_index_bound(n.0 as int, n.1 as int, q.width as int, q.height as int);
                }
            },
        }
    }
}

proof fn lemma_closed_cur_push(
    q: QuantizedImage,
    color: int,
    label: Seq<(int, int)>,
    cur: int,
    component: Seq<(u32, u32)>,
    p: (u32, u32),
)
    requires
        closed_cur(q, color, label, cur, component, component.len() as int),
    ensures
        closed_cur(q, color, label, cur, component.push(p), component.len() as int),
{
    let c2 = component.push(p);
    assert forall|j: int, x: int, y: int|
        #![trigger c2[j], has_color(q, x, y, color)]
        0 <= j < component.len() && has_color(q, x, y, color) && adjacent(c2[j], x, y) implies label[y
            * q.width + x].0 == cur by {
        assert(c2[j] == component[j]);
    }
}

/// Whether pixel `a` comes strictly before `b` in row-major order.
pub open spec fn precedes(a: (u32, u32), b: (u32, u32)) -> bool {
    a.1 < b.1 || (a.1 == b.1 && a.0 < b.0)
}

/// Whether some pixel of `s` is a neighbour of `p`.
pub open spec fn near_some(s: Seq<(u32, u32)>, p: (u32, u32)) -> bool {
    exists|j: int| 0 <= j < s.len() && adjacent(#[trigger] s[j], p.0 as int, p.1 as int)
}

/// Each pixel after the first is a neighbour of an earlier one, so the list is
/// 8-connected.
pub open spec fn linked(s: Seq<(u32, u32)>) -> bool {
    forall|j: int| 0 < j < s.len() ==> #[trigger] near_some(s.take(j), s[j])
}

/// No pixel of `s` comes before its first one in row-major order.
pub open spec fn first_least(s: Seq<(u32, u32)>) -> bool {
    forall|j: int| 0 <= j < s.len() ==> !precedes(#[trigger] s[j], s[0])
}

/// Shape of a flood in progress from `seed`.
pub open spec fn flood_shape(component: Seq<(u32, u32)>, stack: Seq<(u32, u32)>, seed: (u32, u32)) -> bool {
    &&& component.len() == 0 ==> stack == seq![seed]
    &&& component.len() > 0 ==> component[0] == seed && linked(component) && forall|k: int|
        0 <= k < stack.len() ==> near_some(component, #[trigger] stack[k])
    &&& forall|j: int| 0 <= j < component.len() ==> !precedes(#[trigger] component[j], seed)
    &&& forall|k: int| 0 <= k < stack.len() ==> !precedes(#[trigger] stack[k], seed)
}

/// Shape of the finished regions when the scan stands at `pos`.
pub open spec fn done_shape(comps: Seq<Vec<(u32, u32)>>, pos: (u32, u32)) -> bool {
    &&& forall|c: int|
        0 <= c < comps.len() ==> linked((#[trigger] comps[c])@) && first_least(comps[c]@)
            && comps[c]@.len() > 0 && precedes(comps[c]@[0], pos)
    &&& forall|c1: int, c2: int|
        0 <= c1 < c2 < comps.len() ==> precedes((#[trigger] comps[c1])@[0], (#[trigger] comps[c2])@[0])
}

proof fn lemma_pop_shape(component: Seq<(u32, u32)>, stack: Seq<(u32, u32)>, seed: (u32, u32))
    requires
        flood_shape(component, stack, seed),
        stack.len() > 0,
    ensures
        flood_shape(component.push(stack.last()), stack.drop_last(), seed),
{
    let p = stack.last();
    let c2 = component.push(p);
    let s2 = stack.drop_last();
    assert(stack[stack.len() - 1] == p);
    assert(c2.take(component.len() as int) =~= component);
    assert forall|j: int| 0 < j < c2.len() implies #[trigger] near_some(c2.take(j), c2[j]) by {
        if j < component.len() {
            assert(c2.take(j) =~= component.take(j));
            assert(c2[j] == component[j]);
        } else {
            assert(near_some(component, p));
        }
    }
    assert forall|k: int| 0 <= k < s2.len() implies near_some(c2, #[trigger] s2[k]) by {
        assert(s2[k] == stack[k]);
        if component.len() > 0 {
            assert(near_some(component, stack[k]));
            let j = choose|j: int| 0 <= j < component.len() && adjacent(#[trigger] component[j], stack[k].0 as int, stack[k].1 as int);
            assert(c2[j] == component[j]);
        }
    }
    assert forall|j: int| 0 <= j < c2.len() implies !precedes(#[trigger] c2[j], seed) by {
        if j < component.len() {
            assert(c2[j] == component[j]);
        }
    }
    assert forall|k: int| 0 <= k < s2.len() implies !precedes(#[trigger] s2[k], seed) by {
        assert(s2[k] == stack[k]);
    }
    if component.len() == 0 {
        assert(c2[0] == seed);
    } else {
        assert(c2[0] == component[0]);
    }
}

proof fn lemma_push_shape(component: Seq<(u32, u32)>, stack: Seq<(u32, u32)>, seed: (u32, u32), n: (u32, u32))
    requires
        flood_shape(component, stack, seed),
        component.len() > 0,
        adjacent(component.last(), n.0 as int, n.1 as int),
        !precedes(n, seed),
    ensures
        flood_shape(component, stack.push(n), seed),
{
    let s2 = stack.push(n);
    assert(component[component.len() - 1] == component.last());
    assert forall|k: int| 0 <= k < s2.len() implies near_some(component, #[trigger] s2[k]) by {
        if k < stack.len() {
            assert(s2[k] == stack[k]);
        }
    }
    assert forall|k: int| 0 <= k < s2.len() implies !precedes(#[trigger] s2[k], seed) by {
        if k < stack.len() {
            assert(s2[k] == stack[k]);
        }
    }
}

proof fn lemma_finish_shape(
    comps: Seq<Vec<(u32, u32)>>,
    component: Vec<(u32, u32)>,
    seed: (u32, u32),
    next: (u32, u32),
)
    requires
        done_shape(comps, seed),
        flood_shape(component@, Seq::empty(), seed),
        component@.len() > 0,
        precedes(seed, next),
    ensures
        done_shape(comps.push(component), next),
{
    let c2 = comps.push(component);
    assert(c2[comps.len() as int] == component);
    assert forall|c: int| 0 <= c < c2.len() implies linked((#[trigger] c2[c])@) && first_least(c2[c]@)
        && c2[c]@.len() > 0 && precedes(c2[c]@[0], next) by {
        if c < comps.len() {
            assert(c2[c] == comps[c]);
        }
    }
    assert forall|c1: int, c2i: int| 0 <= c1 < c2i < c2.len() implies precedes((#[trigger] c2[c1])@[0], (#[trigger] c2[c2i])@[0]) by {
        assert(c2[c1] == comps[c1]);
        if c2i < comps.len() {
            assert(c2[c2i] == comps[c2i]);
        }
    }
}

proof fn lemma_shape_advance(comps: Seq<Vec<(u32, u32)>>, pos: (u32, u32), next: (u32, u32))
    requires
        done_shape(comps, pos),
        pos == next || precedes(pos, next),
    ensures
        done_shape(comps, next),
{
}

proof fn lemma_step_adjacent(x: int, y: int, k: int, w: int, h: int)
    requires
        0 <= k < 8,
        0 <= x < w <= u32::MAX,
        0 <= y < h <= u32::MAX,
        step_spec(x, y, k, 1, w, h) is Some,
    ensures
        adjacent((x as u32, y as u32), step_spec(x, y, k, 1, w, h).unwrap().0 as int, step_spec(x, y, k, 1, w, h).unwrap().1 as int),
{
}

/// Every pixel of `color` before `(x, y)` in row-major order is visited.
pub open spec fn scanned(q: QuantizedImage, color: int, visited: Seq<bool>, x: int, y: int) -> bool {
    forall|x2: int, y2: int|
        #[trigger] has_color(q, x2, y2, color) && (y2 < y || (y2 == y && x2 < x)) ==> visited[y2
            * q.width + x2]
}

proof fn lemma_scanned_set(q: QuantizedImage, color: int, visited: Seq<bool>, x: int, y: int, j: int)
    requires
        scanned(q, color, visited, x, y),
        visited.len() == q.width * q.height,
        0 <= j < visited.len(),
    ensures
        scanned(q, color, visited.update(j, true), x, y),
{
    assert forall|x2: int, y2: int|
        #[trigger] has_color(q, x2, y2, color) && (y2 < y || (y2 == y && x2 < x)) implies visited.update(j, true)[y2
            * q.width + x2] by {
        lemma_index_bound(x2, y2, q.width as int, q.height as int);
    }
}

proof fn lemma_scanned_next(q: QuantizedImage, color: int, visited: Seq<bool>, x: int, y: int)
    requires
        scanned(q, color, visited, x, y),
        has_color(q, x, y, color) ==> visited[y * q.width + x],
    ensures
        scanned(q, color, visited, x + 1, y),
{
}

proof fn lemma_scanned_row(q: QuantizedImage, color: int, visited: Seq<bool>, y: int)
    requires
        scanned(q, color, visited, q.width as int, y),
    ensures
        scanned(q, color, visited, 0, y + 1),
{
}

/// What the labeller yields for `color`: non-empty 8-connected regions of
/// pixels bearing it, each listed from its row-major first pixel and the
/// regions in row-major order of those pixels; every such pixel in exactly one
/// region at exactly one place; and each region holding every neighbour of the
/// colour of each of its pixels.
#[verifier::opaque]
pub open spec fn cc_post(q: QuantizedImage, color: int, r: Seq<Vec<(u32, u32)>>) -> bool {
    &&& forall|i: int| 0 <= i < r.len() ==> linked((#[trigger] r[i])@) && first_least(r[i]@)
    &&& forall|i1: int, i2: int|
        0 <= i1 < i2 < r.len() ==> precedes((#[trigger] r[i1])@[0], (#[trigger] r[i2])@[0])
    &&& forall|i: int| 0 <= i < r.len() ==> component_ok(q, #[trigger] r[i]@, color)
    &&& forall|x: int, y: int|
        #[trigger] has_color(q, x, y, color) ==> exists|i: int, j: int|
            0 <= i < r.len() && 0 <= j < r[i]@.len() && #[trigger] r[i]@[j] == (
            x as u32,
            y as u32,
        )
    &&& forall|i1: int, j1: int, i2: int, j2: int|
        0 <= i1 < r.len() && 0 <= j1 < r[i1]@.len() && 0 <= i2 < r.len() && 0 <= j2
            < r[i2]@.len() && #[trigger] r[i1]@[j1] == #[trigger] r[i2]@[j2] ==> i1 == i2
            && j1 == j2
    &&& forall|i: int, j: int, x: int, y: int|
        0 <= i < r.len() && 0 <= j < r[i]@.len() && #[trigger] has_color(q, x, y, color)
            && adjacent(#[trigger] r[i]@[j], x, y) ==> exists|j2: int|
            0 <= j2 < r[i]@.len() && #[trigger] r[i]@[j2] == (x as u32, y as u32)
}

/// The 8-connected regions of the pixels bearing `color`, found by flood fill
/// from each not yet visited pixel in row-major order. Every pixel of the
/// colour lies in exactly one region, at exactly one place, and each region
/// holds every neighbour of the colour of each of its pixels.
pub fn find_connected_components(q: &QuantizedImage, color: usize) -> (r: Vec<Vec<(u32, u32)>>)
    requires
        q.wf(),
    ensures
        cc_post(*q, color as int, r@),
{
    let w = q.width;
    let h = q.height;
    proof {
        assert(w * h <= u32::MAX * u32::MAX) by (nonlinear_arith)
            requires w <= u32::MAX, h <= u32::MAX;
        reveal(cc_post);
    }
    let total: usize = q.indices.len();
    let mut visited: Vec<bool> = vec![false; total];
    let ghost mut label: Seq<(int, int)> = Seq::new(total as nat, |i: int| (-1int, 0int));
    let mut components: Vec<Vec<(u32, u32)>> = Vec::new();
    let mut y: u32 = 0;
    while y < h
        invariant
            q.wf(),
            w == q.width,
            h == q.height,
            total == w * h,
            y <= h,
            fill_inv(*q, color as int, visited@, label, components@, Seq::empty(), Seq::empty()),
            closed_done(*q, color as int, label, components@),
            done_shape(components@, (0u32, y)),
            scanned(*q, color as int, visited@, 0, y as int),
        decreases h - y,
    {
        let mut x: u32 = 0;
        while x < w
            invariant
                q.wf(),
                w == q.width,
                h == q.height,
                total == w * h,
                y < h,
                x <= w,
                fill_inv(*q, color as int, visited@, label, components@, Seq::empty(), Seq::empty()),
                closed_done(*q, color as int, label, components@),
                done_shape(components@, (x, y)),
                scanned(*q, color as int, visited@, x as int, y as int),
            decreases w - x,
        {
            proof {
                lemma_index_bound(x as int, y as int, w as int, h as int);
            }
            let idx: usize = y as usize * w as usize + x as usize;
            if q.indices[idx] == color && !visited[idx] {
                let mut component: Vec<(u32, u32)> = Vec::new();
                let mut stack: Vec<(u32, u32)> = Vec::new();
                proof {
                    lemma_start(*q, color as int, visited@, label, components@, (x, y));
                    lemma_relabel(*q, color as int, label, components@, Seq::empty(), 0, idx as int, (components@.len() as int, -1));
                    lemma_count_false_set(visited@, idx as int);
                    label = label.update(idx as int, (components@.len() as int, -1));
                }
                proof {
                    lemma_scanned_set(*q, color as int, visited@, x as int, y as int, idx as int);
                }
                stack.push((x, y));
                visited.set(idx, true);
                assert(stack@ =~= seq![(x, y)]);
                proof {
                    lemma_scanned_next(*q, color as int, visited@, x as int, y as int);
                }
                while stack.len() > 0
                    invariant
                        q.wf(),
                        w == q.width,
                        h == q.height,
                        total == w * h,
                        y < h,
                        x < w,
                        fill_inv(*q, color as int, visited@, label, components@, component@, stack@),
                        closed_done(*q, color as int, label, components@),
                        closed_cur(*q, color as int, label, components@.len() as int, component@, component@.len() as int),
                        done_shape(components@, (x, y)),
                        flood_shape(component@, stack@, (x, y)),
                        scanned(*q, color as int, visited@, x as int + 1, y as int),
                        component@.len() > 0 || stack@.len() > 0,
                    decreases 2 * count_false(visited@) + stack@.len(),
                {
                    let ghost m0 = 2 * count_false(visited@) + stack@.len();
                    proof {
                        lemma_pop(*q, color as int, visited@, label, components@, component@, stack@);
                        lemma_pop_shape(component@, stack@, (x, y));
                        let top = stack@.last();
                        assert(stack@[stack@.len() - 1] == top);
                        lemma_has_color_index(*q, top, color as int);
                        lemma_relabel(*q, color as int, label, components@, component@, component@.len() as int, pidx(w as int, top), (components@.len() as int, component@.len() as int));
                        lemma_closed_cur_push(*q, color as int, label.update(pidx(w as int, top), (components@.len() as int, component@.len() as int)), components@.len() as int, component@, top);
                        label = label.update(pidx(w as int, stack@.last()), (components@.len() as int, component@.len() as int));
                    }
                    let (px, py) = stack.pop().unwrap();
                    component.push((px, py));
                    proof {
                        assert(has_color(*q, px as int, py as int, color as int)) by {
                            assert(component@[component@.len() - 1] == (px, py));
                        }
                    }
                    let mut k: usize = 0;
                    while k < 8
                        invariant
                            q.wf(),
                            w == q.width,
                            h == q.height,
                            total == w * h,
                            y < h,
                            x < w,
                            px < w,
                            py < h,
                            k <= 8,
                            component@.len() > 0,
                            fill_inv(*q, color as int, visited@, label, components@, component@, stack@),
                            closed_done(*q, color as int, label, components@),
                            closed_cur(*q, color as int, label, components@.len() as int, component@, component@.len() - 1),
                            component@.last() == (px, py),
                            done_shape(components@, (x, y)),
                            flood_shape(component@, stack@, (x, y)),
                            component@.len() > 0,
                            w <= u32::MAX,
                            h <= u32::MAX,
                            has_color(*q, px as int, py as int, color as int),
                            dirs_done(*q, color as int, label, px as int, py as int, k as int, components@.len() as int),
                            scanned(*q, color as int, visited@, x as int + 1, y as int),
                            2 * count_false(visited@) + stack@.len() + 1 <= m0,
                        decreases 8 - k,
                    {
                        match step(px, py, k, 1, w, h) {
                            Some((nx, ny)) => {
                                proof {
                                    lemma_index_bound(nx as int, ny as int, w as int, h as int);
                                }
                                let nidx: usize = ny as usize * w as usize + nx as usize;
                                proof {
                                    assert(component@[component@.len() - 1] == (px, py));
                                    assert(label[pidx(w as int, (px, py))].0 == components@.len());
                                    if q.indices[nidx as int] == color && visited@[nidx as int] {
                                        lemma_visited_neighbor(*q, color as int, visited@, label, components@, component@, stack@, (px, py), (nx, ny));
                                    }
                                }
                                if q.indices[nidx] == color && !visited[nidx] {
                                    proof {
                                        lemma_relabel(*q, color as int, label, components@, component@, component@.len() - 1, nidx as int, (components@.len() as int, -1 - stack@.len()));
                                        lemma_dirs_relabel(*q, color as int, label, px as int, py as int, k as int, components@.len() as int, nidx as int, (components@.len() as int, -1 - stack@.len()));
                                        lemma_push(*q, color as int, visited@, label, components@, component@, stack@, (nx, ny));
                                        lemma_step_adjacent(px as int, py as int, k as int, w as int, h as int);
                                        assert(has_color(*q, nx as int, ny as int, color as int));
                                        assert(!precedes((nx, ny), (x, y)));
                                        lemma_push_shape(component@, stack@, (x, y), (nx, ny));
                                        lemma_count_false_set(visited@, nidx as int);
                                        lemma_scanned_set(*q, color as int, visited@, x as int + 1, y as int, nidx as int);
                                        label = label.update(nidx as int, (components@.len() as int, -1 - stack@.len()));
                                    }
                                    visited.set(nidx, true);
                                    stack.push((nx, ny));
                                }
                            },
                            None => {},
                        }
                        proof {
                            let cur = components@.len() as int;
                            assert forall|kk: int| 0 <= kk < k + 1 implies match #[trigger] step_spec(px as int, py as int, kk, 1, q.width as int, q.height as int) {
                                None => true,
                                Some(n) => has_color(*q, n.0 as int, n.1 as int, color as int) ==> label[n.1 * q.width + n.0].0 == cur,
                            } by {}
                        }
                        k = k + 1;
                    }
                    proof {
                        lemma_close_last(*q, color as int, label, components@.len() as int, component@);
                    }
                }
                proof {
                    lemma_close_finish(*q, color as int, label, components@, component);
                    lemma_finish_shape(components@, component, (x, y), ((x + 1) as u32, y));
                    lemma_finish(*q, color as int, visited@, label, components@, component);
                }
                components.push(component);
            } else {
                proof {
                    lemma_scanned_next(*q, color as int, visited@, x as int, y as int);
                    lemma_shape_advance(components@, (x, y), ((x + 1) as u32, y));
                }
            }
            x = x + 1;
        }
        proof {
            lemma_scanned_row(*q, color as int, visited@, y as int);
            lemma_shape_advance(components@, (x, y), (0u32, (y + 1) as u32));
        }
        y = y + 1;
    }
    proof {
        let comps = components@;
        let wi = w as int;
        assert forall|i: int| 0 <= i < comps.len() implies component_ok(*q, #[trigger] comps[i]@, color as int) by {
            assert(comps[i]@.len() > 0);
            assert forall|j: int| 0 <= j < comps[i]@.len() implies has_color(*q, (#[trigger] comps[i]@[j]).0 as int, comps[i]@[j].1 as int, color as int) by {}
        }
        assert forall|x2: int, y2: int| #[trigger] has_color(*q, x2, y2, color as int) implies exists|i: int, j: int|
                0 <= i < comps.len() && 0 <= j < comps[i]@.len() && #[trigger] comps[i]@[j] == (x2 as u32, y2 as u32) by {
            lemma_index_bound(x2, y2, wi, h as int);
            let i0 = y2 * wi + x2;
            assert(visited@[i0]);
            let at = label[i0];
            assert(located(wi, at, i0, comps, Seq::empty(), Seq::empty()));
            let p = comps[at.0]@[at.1];
            assert(has_color(*q, p.0 as int, p.1 as int, color as int));
            crate::contour::lemma_index_unique(p.0 as int, p.1 as int, x2, y2, wi);
        }
        assert forall|i1: int, j1: int, i2: int, j2: int|
            0 <= i1 < comps.len() && 0 <= j1 < comps[i1]@.len() && 0 <= i2 < comps.len() && 0 <= j2
                < comps[i2]@.len() && #[trigger] comps[i1]@[j1] == #[trigger] comps[i2]@[j2] implies i1 == i2
                && j1 == j2 by {
            assert(label[pidx(wi, comps[i1]@[j1])] == (i1, j1));
            assert(label[pidx(wi, comps[i2]@[j2])] == (i2, j2));
        }
        assert forall|i: int, j: int, x2: int, y2: int|
            0 <= i < comps.len() && 0 <= j < comps[i]@.len() && #[trigger] has_color(*q, x2, y2, color as int)
                && adjacent(#[trigger] comps[i]@[j], x2, y2) implies exists|j2: int|
                0 <= j2 < comps[i]@.len() && #[trigger] comps[i]@[j2] == (x2 as u32, y2 as u32) by {
            lemma_index_bound(x2, y2, wi, h as int);
            let i0 = y2 * wi + x2;
            assert(label[i0].0 == i);
            let at = label[i0];
            assert(located(wi, at, i0, comps, Seq::empty(), Seq::empty()));
            let p = comps[at.0]@[at.1];
            assert(has_color(*q, p.0 as int, p.1 as int, color as int));
            crate::contour::lemma_index_unique(p.0 as int, p.1 as int, x2, y2, wi);
        }
    }
    components
}

} // verus!
