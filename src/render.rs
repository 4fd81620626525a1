use vstd::prelude::*;
use vstd::string::{StrSliceExecFns, StringExecFns};
use crate::color::{Color, hex_spec, to_hex};
use crate::components::{cc_post, component_ok, find_connected_components};
use crate::contour::{trace_contour, trace_spec};
use crate::options::{VectorizeMode, VectorizeOptions, opacity_from_options, opacity_spec,
    smoothness_spec};
use crate::quantize::QuantizedImage;
use crate::simplify::{Point, all_wf, simplify_for_mode, simplified_spec};
use crate::text::{decimal, fixed_point, push_decimal, push_fixed_point};

verus! {

/// A coordinate given in hundredths of a pixel, written with two decimals.
pub open spec fn coord_text(v: int) -> Seq<char> {
    fixed_point(v, 2)
}

pub open spec fn point_text(p: Point) -> Seq<char> {
    coord_text(p.x * 50) + " "@ + coord_text(p.y * 50)
}

/// `v / d` rounded to the nearest integer, halves away from zero.
pub open spec fn round_div(v: int, d: int) -> int {
    if v >= 0 {
        (v + d / 2) / d
    } else {
        -((-v + d / 2) / d)
    }
}

/// Cubic segment ending at `p1`, with control points pulled from `p1` toward
/// `p0` and `p2` by `smoothness * 0.3` of the way (smoothness in thousandths).
pub open spec fn curve_text(p0: Point, p1: Point, p2: Point, s: int) -> Seq<char> {
    let c1x = round_div(p1.x * 10000 - (p1.x - p0.x) * s * 3, 200);
    let c1y = round_div(p1.y * 10000 - (p1.y - p0.y) * s * 3, 200);
    let c2x = round_div(p1.x * 10000 + (p2.x - p1.x) * s * 3, 200);
    let c2y = round_div(p1.y * 10000 + (p2.y - p1.y) * s * 3, 200);
    " C "@ + coord_text(c1x) + " "@ + coord_text(c1y) + " "@ + coord_text(c2x) + " "@ + coord_text(
        c2y,
    ) + " "@ + point_text(p1)
}

pub open spec fn segment_text(pts: Seq<Point>, smooth: bool, s: int, i: int) -> Seq<char> {
    if smooth && i < pts.len() - 1 {
        curve_text(pts[i - 1], pts[i], pts[i + 1], s)
    } else {
        " L "@ + point_text(pts[i])
    }
}

pub open spec fn segments_text(pts: Seq<Point>, smooth: bool, s: int, i: int) -> Seq<char>
    decreases i,
{
    if i <= 1 {
        Seq::empty()
    } else {
        segments_text(pts, smooth, s, i - 1) + segment_text(pts, smooth, s, i - 1)
    }
}

/// Whether a path is drawn with curves: Logo mode, smoothness above one half,
/// and more than four points.
pub open spec fn smooth_spec(pts: Seq<Point>, o: VectorizeOptions) -> bool {
    o.mode == VectorizeMode::Logo && smoothness_spec(o) > 500 && pts.len() > 4
}

/// Path data of a point list: empty for fewer than two points; otherwise a move
/// to the first point, a segment to each further point, and a close command.
pub open spec fn path_spec(pts: Seq<Point>, o: VectorizeOptions) -> Seq<char> {
    if pts.len() < 2 {
        Seq::empty()
    } else {
        "M "@ + point_text(pts[0]) + segments_text(
            pts,
            smooth_spec(pts, o),
            smoothness_spec(o),
            pts.len() as int,
        ) + " Z"@
    }
}

fn push_point(out: &mut String, p: Point)
    requires
        p.wf(),
    ensures
        final(out)@ == old(out)@ + point_text(p),
{
    push_fixed_point(out, p.x as i64 * 50, 2);
    out.append(" ");
    push_fixed_point(out, p.y as i64 * 50, 2);
    assert(final(out)@ =~= old(out)@ + point_text(p));
}

fn round_div_exec(v: i64, d: i64) -> (r: i64)
    requires
        d == 200,
        -0x1000000000000 <= v <= 0x1000000000000,
    ensures
        r as int == round_div(v as int, d as int),
        -0x1000000000000 <= r <= 0x1000000000000,
{
    if v >= 0 {
        (v + d / 2) / d
    } else {
        -((-v + d / 2) / d)
    }
}

fn push_curve(out: &mut String, p0: Point, p1: Point, p2: Point, s: i64)
    requires
        p0.wf(),
        p1.wf(),
        p2.wf(),
        0 <= s <= 1000,
    ensures
        final(out)@ == old(out)@ + curve_text(p0, p1, p2, s as int),
{
    let x0 = p0.x as i64;
    let y0 = p0.y as i64;
    let x1 = p1.x as i64;
    let y1 = p1.y as i64;
    let x2 = p2.x as i64;
    let y2 = p2.y as i64;
    assert(-8589934592 * 3000 <= (x1 - x0) * s * 3 <= 8589934592 * 3000) by (nonlinear_arith)
        requires -8589934592 <= x1 - x0 <= 8589934592, 0 <= s <= 1000;
    assert(-8589934592 * 3000 <= (y1 - y0) * s * 3 <= 8589934592 * 3000) by (nonlinear_arith)
        requires -8589934592 <= y1 - y0 <= 8589934592, 0 <= s <= 1000;
    assert(-8589934592 * 3000 <= (x2 - x1) * s * 3 <= 8589934592 * 3000) by (nonlinear_arith)
        requires -8589934592 <= x2 - x1 <= 8589934592, 0 <= s <= 1000;
    assert(-8589934592 * 3000 <= (y2 - y1) * s * 3 <= 8589934592 * 3000) by (nonlinear_arith)
        requires -8589934592 <= y2 - y1 <= 8589934592, 0 <= s <= 1000;
    let c1x = round_div_exec(x1 * 10000 - (x1 - x0) * s * 3, 200);
    let c1y = round_div_exec(y1 * 10000 - (y1 - y0) * s * 3, 200);
    let c2x = round_div_exec(x1 * 10000 + (x2 - x1) * s * 3, 200);
    let c2y = round_div_exec(y1 * 10000 + (y2 - y1) * s * 3, 200);
    out.append(" C ");
    push_fixed_point(out, c1x, 2);
    out.append(" ");
    push_fixed_point(out, c1y, 2);
    out.append(" ");
    push_fixed_point(out, c2x, 2);
    out.append(" ");
    push_fixed_point(out, c2y, 2);
    out.append(" ");
    push_point(out, p1);
    assert(final(out)@ =~= old(out)@ + curve_text(p0, p1, p2, s as int));
}

/// Path data for a point list (see `path_spec`).
#[verifier::rlimit(40)]
pub fn points_to_path(points: &Vec<Point>, options: &VectorizeOptions) -> (r: String)
    requires
        all_wf(points@),
    ensures
        r@ == path_spec(points@, *options),
{
    let n = points.len();
    let mut path = String::new();
    if n < 2 {
        return path;
    }
    let s: i64 = if options.smoothness > 1000 { 1000 } else { options.smoothness as i64 };
    let smooth = options.mode == VectorizeMode::Logo && s > 500 && n > 4;
    let ghost pts = points@;
    path.append("M ");
    push_point(&mut path, points[0]);
    let ghost head = path@;
    let mut i: usize = 1;
    while i < n
        invariant
            n == pts.len(),
            pts == points@,
            all_wf(pts),
            n >= 2,
            1 <= i <= n,
            s as int == smoothness_spec(*options),
            smooth == smooth_spec(pts, *options),
            path@ == head + segments_text(pts, smooth, s as int, i as int),
        decreases n - i,
    {
        if smooth && i < n - 1 {
            push_curve(&mut path, points[i - 1], points[i], points[i + 1], s);
        } else {
            path.append(" L ");
            push_point(&mut path, points[i]);
        }
        i = i + 1;
        assert(path@ =~= head + segments_text(pts, smooth, s as int, i as int));
    }
    path.append(" Z");
    assert(path@ =~= path_spec(pts, *options));
    path
}

/// Outline of the pixel block `x0 .. x1` by `y0 .. y1`, in whole pixels.
pub open spec fn rect_text(x0: int, y0: int, x1: int, y1: int) -> Seq<char> {
    "M "@ + decimal(x0 as nat) + " "@ + decimal(y0 as nat) + " L "@ + decimal(x1 as nat) + " "@
        + decimal(y0 as nat) + " L "@ + decimal(x1 as nat) + " "@ + decimal(y1 as nat) + " L "@
        + decimal(x0 as nat) + " "@ + decimal(y1 as nat) + " Z"@
}

fn rect_path(x0: u32, y0: u32, x1: u32, y1: u32) -> (r: String)
    ensures
        r@ == rect_text(x0 as int, y0 as int, x1 as int, y1 as int),
{
    let mut r = String::new();
    r.append("M ");
    push_decimal(&mut r, x0 as u64);
    r.append(" ");
    push_decimal(&mut r, y0 as u64);
    r.append(" L ");
    push_decimal(&mut r, x1 as u64);
    r.append(" ");
    push_decimal(&mut r, y0 as u64);
    r.append(" L ");
    push_decimal(&mut r, x1 as u64);
    r.append(" ");
    push_decimal(&mut r, y1 as u64);
    r.append(" L ");
    push_decimal(&mut r, x0 as u64);
    r.append(" ");
    push_decimal(&mut r, y1 as u64);
    r.append(" Z");
    assert(r@ =~= rect_text(x0 as int, y0 as int, x1 as int, y1 as int));
    r
}

/// Bounding box `(min_x, min_y, max_x, max_y)` of a non-empty pixel list.
pub open spec fn bbox_spec(s: Seq<(u32, u32)>) -> (u32, u32, u32, u32)
    decreases s.len(),
{
    if s.len() <= 1 {
        (s[0].0, s[0].1, s[0].0, s[0].1)
    } else {
        let b = bbox_spec(s.drop_last());
        let p = s.last();
        (
            if p.0 < b.0 { p.0 } else { b.0 },
            if p.1 < b.1 { p.1 } else { b.1 },
            if p.0 > b.2 { p.0 } else { b.2 },
            if p.1 > b.3 { p.1 } else { b.3 },
        )
    }
}

/// Path data of one region: its traced outline, simplified as the mode asks,
/// or, when tracing fails, the outline of its bounding box.
pub open spec fn component_path_spec(
    q: QuantizedImage,
    comp: Seq<(u32, u32)>,
    color: int,
    o: VectorizeOptions,
) -> Seq<char> {
    match trace_spec(q, comp, color) {
        Some(c) => path_spec(simplified_spec(c, o), o),
        None => {
            let b = bbox_spec(comp);
            rect_text(b.0 as int, b.1 as int, b.2 + 1, b.3 + 1)
        },
    }
}

/// The bounding box of a component as `(min_x, min_y, max_x, max_y)`.
fn bounding_box(comp: &Vec<(u32, u32)>) -> (r: (u32, u32, u32, u32))
    requires
        comp@.len() > 0,
    ensures
        r == bbox_spec(comp@),
        forall|j: int|
            0 <= j < comp@.len() ==> r.0 <= (#[trigger] comp@[j]).0 <= r.2 && r.1 <= comp@[j].1
                <= r.3,
        exists|j: int| 0 <= j < comp@.len() && (#[trigger] comp@[j]).0 == r.0,
        exists|j: int| 0 <= j < comp@.len() && (#[trigger] comp@[j]).1 == r.1,
        exists|j: int| 0 <= j < comp@.len() && (#[trigger] comp@[j]).0 == r.2,
        exists|j: int| 0 <= j < comp@.len() && (#[trigger] comp@[j]).1 == r.3,
{
    let (x, y) = comp[0];
    let mut r: (u32, u32, u32, u32) = (x, y, x, y);
    assert(comp@.take(1)[0] == comp@[0]);
    let mut i: usize = 1;
    while i < comp.len()
        invariant
            1 <= i <= comp@.len(),
            r == bbox_spec(comp@.take(i as int)),
            forall|j: int|
                0 <= j < i ==> r.0 <= (#[trigger] comp@[j]).0 <= r.2 && r.1 <= comp@[j].1 <= r.3,
            exists|j: int| 0 <= j < i && (#[trigger] comp@[j]).0 == r.0,
            exists|j: int| 0 <= j < i && (#[trigger] comp@[j]).1 == r.1,
            exists|j: int| 0 <= j < i && (#[trigger] comp@[j]).0 == r.2,
            exists|j: int| 0 <= j < i && (#[trigger] comp@[j]).1 == r.3,
        decreases comp@.len() - i,
    {
        let (x, y) = comp[i];
        proof {
            assert(comp@.take(i + 1).drop_last() =~= comp@.take(i as int));
        }
        if x < r.0 {
            r.0 = x;
        }
        if y < r.1 {
            r.1 = y;
        }
        if x > r.2 {
            r.2 = x;
        }
        if y > r.3 {
            r.3 = y;
        }
        i = i + 1;
    }
    assert(comp@.take(i as int) =~= comp@);
    r
}

proof fn lemma_contour_wf(q: QuantizedImage, c: Seq<Point>, color: int)
    requires
        q.wf(),
        crate::contour::points_on_boundary(q, c, color),
    ensures
        all_wf(c),
{
    assert forall|i: int| 0 <= i < c.len() implies (#[trigger] c[i]).wf() by {
        assert(crate::contour::on_boundary(q, c[i], color));
    }
}

/// Path data for one component: its traced outline, simplified as the mode
/// asks, or, when tracing fails, the rectangle of its bounding box.
fn component_path(
    q: &QuantizedImage,
    comp: &Vec<(u32, u32)>,
    color: usize,
    options: &VectorizeOptions,
) -> (r: String)
    requires
        q.wf(),
        component_ok(*q, comp@, color as int),
    ensures
        r@ == component_path_spec(*q, comp@, color as int, *options),
{
    match trace_contour(q, comp, color) {
        Some(contour) => {
            proof {
                lemma_contour_wf(*q, contour@, color as int);
            }
            let simplified = simplify_for_mode(contour, options);
            points_to_path(&simplified, options)
        },
        None => {
            let (x0, y0, x1, y1) = bounding_box(comp);
            assert(x1 < u32::MAX && y1 < u32::MAX) by {
                let j = choose|j: int| 0 <= j < comp@.len() && (#[trigger] comp@[j]).0 == x1;
                let k = choose|k: int| 0 <= k < comp@.len() && (#[trigger] comp@[k]).1 == y1;
                assert(crate::components::has_color(*q, comp@[j].0 as int, comp@[j].1 as int, color as int));
                assert(crate::components::has_color(*q, comp@[k].0 as int, comp@[k].1 as int, color as int));
            }
            rect_path(x0, y0, x1 + 1, y1 + 1)
        },
    }
}

/// Opening tag of the document, with a view box of the image size.
pub open spec fn header_text(w: int, h: int) -> Seq<char> {
    "<svg xmlns=\"http://www.w3.org/2000/svg\" viewBox=\"0 0 "@ + decimal(w as nat) + " "@
        + decimal(h as nat) + "\" aria-label=\"vectorized\">\n"@
}

/// One colour group: its fill and opacity, then its path elements.
pub open spec fn group_text(c: Color, paths: Seq<char>) -> Seq<char> {
    "  <g fill=\"#"@ + hex_spec(c) + "\" fill-opacity=\""@ + fixed_point(opacity_spec(c.a), 3)
        + "\">\n"@ + paths + "  </g>\n"@
}

/// One path element with the given path data.
pub open spec fn path_element(d: Seq<char>) -> Seq<char> {
    "    <path d=\""@ + d + "\"/>\n"@
}

/// The path elements of the first `j` regions of colour `color`.
pub open spec fn paths_text(
    q: QuantizedImage,
    comps: Seq<Vec<(u32, u32)>>,
    color: int,
    o: VectorizeOptions,
    j: int,
) -> Seq<char>
    decreases j,
{
    if j <= 0 {
        Seq::empty()
    } else {
        paths_text(q, comps, color, o, j - 1) + path_element(
            component_path_spec(q, comps[j - 1]@, color, o),
        )
    }
}

/// The group of palette entry `i` with regions `comps`: none for a transparent
/// entry or an entry no pixel bears.
pub open spec fn colour_text(
    q: QuantizedImage,
    comps: Seq<Vec<(u32, u32)>>,
    i: int,
    o: VectorizeOptions,
) -> Seq<char> {
    if q.palette@[i].a > 0 && comps.len() > 0 {
        group_text(q.palette@[i], paths_text(q, comps, i, o, comps.len() as int))
    } else {
        Seq::empty()
    }
}

/// The groups of the first `n` palette entries, in palette order.
pub open spec fn body_text(
    q: QuantizedImage,
    comps: Seq<Seq<Vec<(u32, u32)>>>,
    o: VectorizeOptions,
    n: int,
) -> Seq<char>
    decreases n,
{
    if n <= 0 {
        Seq::empty()
    } else {
        body_text(q, comps, o, n - 1) + colour_text(q, comps[n - 1], n - 1, o)
    }
}

proof fn lemma_body_prefix(
    q: QuantizedImage,
    s1: Seq<Seq<Vec<(u32, u32)>>>,
    s2: Seq<Seq<Vec<(u32, u32)>>>,
    o: VectorizeOptions,
    n: int,
)
    requires
        0 <= n <= s1.len(),
        n <= s2.len(),
        forall|i: int| 0 <= i < n ==> s1[i] == s2[i],
    ensures
        body_text(q, s1, o, n) == body_text(q, s2, o, n),
    decreases n,
{
    if n > 0 {
        lemma_body_prefix(q, s1, s2, o, n - 1);
    }
}

/// What rendering yields: the header, then for each palette entry with nonzero
/// alpha that some pixel bears, in palette order, one group with the entry's
/// fill and opacity holding one path per region of the entry (the regions
/// being those the labeller gives), then the closing tag.
pub open spec fn svg_post(q: QuantizedImage, o: VectorizeOptions, text: Seq<char>) -> bool {
    exists|comps: Seq<Seq<Vec<(u32, u32)>>>|
        comps.len() == q.palette@.len() && (forall|i: int|
            0 <= i < comps.len() && q.palette@[i].a > 0 ==> cc_post(q, i, #[trigger] comps[i]))
            && text == header_text(q.width as int, q.height as int) + body_text(
            q,
            comps,
            o,
            q.palette@.len() as int,
        ) + "</svg>"@
}

/// Whether `text` is the group of palette entry `color` with regions `comps`,
/// those the labeller gives when the entry is visible.
pub open spec fn group_of(
    q: QuantizedImage,
    color: int,
    o: VectorizeOptions,
    comps: Seq<Vec<(u32, u32)>>,
    text: Seq<char>,
) -> bool {
    (q.palette@[color].a > 0 ==> cc_post(q, color, comps)) && text == colour_text(q, comps, color, o)
}

/// The group of palette entry `color` (see `colour_text`).
fn colour_group(q: &QuantizedImage, color: usize, options: &VectorizeOptions) -> (r: String)
    requires
        q.wf(),
        color < q.palette@.len(),
    ensures
        exists|comps: Seq<Vec<(u32, u32)>>| #[trigger] group_of(*q, color as int, *options, comps, r@),
{
    let c = q.palette[color];
    let mut out = String::new();
    if c.a > 0 {
        let comps = find_connected_components(q, color);
        let mut group = String::new();
        let mut j: usize = 0;
        while j < comps.len()
            invariant
                q.wf(),
                cc_post(*q, color as int, comps@),
                j <= comps@.len(),
                group@ == paths_text(*q, comps@, color as int, *options, j as int),
            decreases comps@.len() - j,
        {
            assert(component_ok(*q, comps@[j as int]@, color as int)) by {
                reveal(cc_post);
            }
            let d = component_path(q, &comps[j], color, options);
            group.append("    <path d=\"");
            group.append(d.as_str());
            group.append("\"/>\n");
            j = j + 1;
            assert(group@ =~= paths_text(*q, comps@, color as int, *options, j as int));
        }
        if comps.len() > 0 {
            out.append("  <g fill=\"#");
            let hex = to_hex(c);
            out.append(hex.as_str());
            out.append("\" fill-opacity=\"");
            let o = opacity_from_options(c.a, options);
            push_fixed_point(&mut out, o as i64, 3);
            out.append("\">\n");
            out.append(group.as_str());
            out.append("  </g>\n");
        }
        assert(out@ =~= colour_text(*q, comps@, color as int, *options));
        assert(q.palette@[color as int] == c);
        assert(group_of(*q, color as int, *options, comps@, out@));
    } else {
        assert(q.palette@[color as int] == c);
        let ghost none: Seq<Vec<(u32, u32)>> = Seq::empty();
        assert(out@ =~= colour_text(*q, none, color as int, *options));
        assert(group_of(*q, color as int, *options, none, out@));
    }
    out
}

/// Renders the quantised image as an SVG document (see `svg_post`).
pub fn render_svg(q: &QuantizedImage, options: &VectorizeOptions) -> (r: String)
    requires
        q.wf(),
    ensures
        svg_post(*q, *options, r@),
{
    let mut svg = String::new();
    svg.append("<svg xmlns=\"http://www.w3.org/2000/svg\" viewBox=\"0 0 ");
    push_decimal(&mut svg, q.width as u64);
    svg.append(" ");
    push_decimal(&mut svg, q.height as u64);
    svg.append("\" aria-label=\"vectorized\">\n");
    let ghost header = svg@;
    assert(header =~= header_text(q.width as int, q.height as int));
    let ghost mut all: Seq<Seq<Vec<(u32, u32)>>> = Seq::empty();
    let mut color: usize = 0;
    while color < q.palette.len()
        invariant
            q.wf(),
            color <= q.palette@.len(),
            all.len() == color,
            header == header_text(q.width as int, q.height as int),
            svg@ == header + body_text(*q, all, *options, color as int),
            forall|i: int| 0 <= i < all.len() && q.palette@[i].a > 0 ==> cc_post(*q, i, #[trigger] all[i]),
        decreases q.palette@.len() - color,
    {
        let g = colour_group(q, color, options);
        let ghost before = svg@;
        svg.append(g.as_str());
        proof {
            let these = choose|comps: Seq<Vec<(u32, u32)>>| #[trigger] group_of(*q, color as int, *options, comps, g@);
            let a2 = all.push(these);
            assert(a2.drop_last() =~= all);
            assert(a2[color as int] == these);
            lemma_body_prefix(*q, a2, all, *options, color as int);
            assert(svg@ =~= header + body_text(*q, a2, *options, color + 1));
            assert forall|i: int| 0 <= i < a2.len() && q.palette@[i].a > 0 implies cc_post(*q, i, #[trigger] a2[i]) by {
                if i < all.len() {
                    assert(a2[i] == all[i]);
                }
            }
            all = a2;
        }
        color = color + 1;
    }
    svg.append("</svg>");
    assert(svg@ =~= header_text(q.width as int, q.height as int) + body_text(*q, all, *options, q.palette@.len() as int) + "</svg>"@);
    svg
}

} // verus!
