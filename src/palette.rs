use vstd::prelude::*;
use crate::color::{Color, channel, channel_spec, color_distance, distance_spec, transparent,
    transparent_spec};
use crate::raster::RasterImage;

verus! {

/// Largest number of pixels a colour box may hold (keeps channel sums in `u128`).
pub const MAX_PIXELS: u128 = 18446744073709551616;

/// The pixels with nonzero alpha, in order.
pub open spec fn opaque_spec(s: Seq<Color>) -> Seq<Color>
    decreases s.len(),
{
    if s.len() == 0 {
        s
    } else if s.last().a > 0 {
        opaque_spec(s.drop_last()).push(s.last())
    } else {
        opaque_spec(s.drop_last())
    }
}

/// The distinct colours of `s`, in order of first occurrence.
pub open spec fn distinct_spec(s: Seq<Color>) -> Seq<Color>
    decreases s.len(),
{
    if s.len() == 0 {
        s
    } else {
        let d = distinct_spec(s.drop_last());
        if d.contains(s.last()) {
            d
        } else {
            d.push(s.last())
        }
    }
}

/// The colours of `s` whose channel `dim` equals `v`, in order.
pub open spec fn with_key(s: Seq<Color>, dim: nat, v: int) -> Seq<Color>
    decreases s.len(),
{
    if s.len() == 0 {
        s
    } else if channel_spec(s.last(), dim) == v {
        with_key(s.drop_last(), dim, v).push(s.last())
    } else {
        with_key(s.drop_last(), dim, v)
    }
}

/// Stable ordering of `s` by channel `dim`, over the key values `lo .. hi`.
pub open spec fn sorted_range(s: Seq<Color>, dim: nat, lo: int, hi: int) -> Seq<Color>
    decreases hi - lo,
{
    if hi <= lo {
        Seq::empty()
    } else {
        sorted_range(s, dim, lo, hi - 1) + with_key(s, dim, hi - 1)
    }
}

/// Smallest value of channel `dim` (255 for no colours).
pub open spec fn cmin(s: Seq<Color>, dim: nat) -> u8
    decreases s.len(),
{
    if s.len() == 0 {
        255
    } else {
        let m = cmin(s.drop_last(), dim);
        let v = channel_spec(s.last(), dim);
        if v < m {
            v
        } else {
            m
        }
    }
}

/// Largest value of channel `dim` (0 for no colours).
pub open spec fn cmax(s: Seq<Color>, dim: nat) -> u8
    decreases s.len(),
{
    if s.len() == 0 {
        0
    } else {
        let m = cmax(s.drop_last(), dim);
        let v = channel_spec(s.last(), dim);
        if v > m {
            v
        } else {
            m
        }
    }
}

/// Sum of channel `dim`.
pub open spec fn csum(s: Seq<Color>, dim: nat) -> int
    decreases s.len(),
{
    if s.len() == 0 {
        0
    } else {
        csum(s.drop_last(), dim) + channel_spec(s.last(), dim)
    }
}

pub open spec fn all_opaque(s: Seq<Color>) -> bool {
    forall|i: int| 0 <= i < s.len() ==> (#[trigger] s[i]).a > 0
}

proof fn lemma_with_key_push(s: Seq<Color>, x: Color, dim: nat, v: int)
    ensures
        with_key(s.push(x), dim, v) == if channel_spec(x, dim) == v {
            with_key(s, dim, v).push(x)
        } else {
            with_key(s, dim, v)
        },
{
    assert(s.push(x).drop_last() =~= s);
}

proof fn lemma_sorted_range_push(s: Seq<Color>, x: Color, dim: nat, lo: int, hi: int)
    ensures
        sorted_range(s.push(x), dim, lo, hi).len() == sorted_range(s, dim, lo, hi).len() + if lo
            <= channel_spec(x, dim) < hi {
            1int
        } else {
            0int
        },
    decreases hi - lo,
{
    if hi > lo {
        lemma_sorted_range_push(s, x, dim, lo, hi - 1);
        lemma_with_key_push(s, x, dim, hi - 1);
    }
}

proof fn lemma_sorted_range_len(s: Seq<Color>, dim: nat, lo: int, hi: int)
    requires
        forall|i: int| 0 <= i < s.len() ==> lo <= #[trigger] channel_spec(s[i], dim) < hi,
    ensures
        sorted_range(s, dim, lo, hi).len() == s.len(),
    decreases s.len(),
{
    if s.len() == 0 {
        lemma_sorted_range_empty(s, dim, lo, hi);
    } else {
        let p = s.drop_last();
        assert forall|i: int| 0 <= i < p.len() implies lo <= #[trigger] channel_spec(p[i], dim)
            < hi by {
            assert(p[i] == s[i]);
        }
        lemma_sorted_range_len(p, dim, lo, hi);
        lemma_sorted_range_push(p, s.last(), dim, lo, hi);
        assert(p.push(s.last()) =~= s);
    }
}

proof fn lemma_sorted_range_empty(s: Seq<Color>, dim: nat, lo: int, hi: int)
    requires
        s.len() == 0,
    ensures
        sorted_range(s, dim, lo, hi).len() == 0,
    decreases hi - lo,
{
    if hi > lo {
        lemma_sorted_range_empty(s, dim, lo, hi - 1);
    }
}

proof fn lemma_with_key_opaque(s: Seq<Color>, dim: nat, v: int)
    requires
        all_opaque(s),
    ensures
        all_opaque(with_key(s, dim, v)),
    decreases s.len(),
{
    if s.len() > 0 {
        let p = s.drop_last();
        assert(all_opaque(p)) by {
            assert forall|i: int| 0 <= i < p.len() implies (#[trigger] p[i]).a > 0 by {
                assert(p[i] == s[i]);
            }
        }
        lemma_with_key_opaque(p, dim, v);
    }
}

proof fn lemma_sorted_range_opaque(s: Seq<Color>, dim: nat, lo: int, hi: int)
    requires
        all_opaque(s),
    ensures
        all_opaque(sorted_range(s, dim, lo, hi)),
    decreases hi - lo,
{
    if hi > lo {
        lemma_sorted_range_opaque(s, dim, lo, hi - 1);
        lemma_with_key_opaque(s, dim, hi - 1);
        let a = sorted_range(s, dim, lo, hi - 1);
        let b = with_key(s, dim, hi - 1);
        assert forall|i: int| 0 <= i < (a + b).len() implies (#[trigger] (a + b)[i]).a > 0 by {
            if i < a.len() {
                assert((a + b)[i] == a[i]);
            } else {
                assert((a + b)[i] == b[i - a.len()]);
            }
        }
    }
}

/// The colours of `pixels` whose channel `dim` equals `v`, in order.
fn collect_key(pixels: &Vec<Color>, dim: usize, v: u8, out: &mut Vec<Color>)
    ensures
        final(out)@ == old(out)@ + with_key(pixels@, dim as nat, v as int),
{
    let ghost start = out@;
    let mut i: usize = 0;
    while i < pixels.len()
        invariant
            i <= pixels@.len(),
            out@ == start + with_key(pixels@.take(i as int), dim as nat, v as int),
        decreases pixels@.len() - i,
    {
        proof {
            lemma_with_key_push(pixels@.take(i as int), pixels@[i as int], dim as nat, v as int);
            assert(pixels@.take(i as int).push(pixels@[i as int]) =~= pixels@.take(i + 1));
        }
        let c = pixels[i];
        if channel(c, dim) == v {
            out.push(c);
        }
        i = i + 1;
        proof {
            assert(out@ =~= start + with_key(pixels@.take(i as int), dim as nat, v as int));
        }
    }
    assert(pixels@.take(i as int) =~= pixels@);
}

/// Stable sort of `pixels` by channel `dim`, whose values all lie in `lo ..= hi`.
pub fn sort_by_channel(pixels: &Vec<Color>, dim: usize, lo: u8, hi: u8) -> (r: Vec<Color>)
    requires
        lo <= hi,
        forall|i: int|
            0 <= i < pixels@.len() ==> lo <= #[trigger] channel_spec(pixels@[i], dim as nat)
                <= hi,
    ensures
        r@ == sorted_range(pixels@, dim as nat, lo as int, hi as int + 1),
        r@.len() == pixels@.len(),
{
    let mut out: Vec<Color> = Vec::new();
    let mut v: u16 = lo as u16;
    while v <= hi as u16
        invariant
            lo <= v <= hi as int + 1,
            out@ == sorted_range(pixels@, dim as nat, lo as int, v as int),
        decreases hi as int + 1 - v,
    {
        collect_key(pixels, dim, v as u8, &mut out);
        v = v + 1;
    }
    proof {
        lemma_sorted_range_len(pixels@, dim as nat, lo as int, hi as int + 1);
    }
    out
}

proof fn lemma_bounds(s: Seq<Color>, dim: nat)
    ensures
        forall|i: int|
            0 <= i < s.len() ==> cmin(s, dim) <= #[trigger] channel_spec(s[i], dim) <= cmax(
                s,
                dim,
            ),
        0 <= csum(s, dim) <= 255 * s.len(),
        dim == 3 && all_opaque(s) ==> csum(s, dim) >= s.len(),
    decreases s.len(),
{
    if s.len() > 0 {
        let p = s.drop_last();
        lemma_bounds(p, dim);
        assert forall|i: int| 0 <= i < s.len() implies cmin(s, dim) <= #[trigger] channel_spec(
            s[i],
            dim,
        ) <= cmax(s, dim) by {
            if i < p.len() {
                assert(s[i] == p[i]);
            }
        }
        if dim == 3 && all_opaque(s) {
            assert(all_opaque(p)) by {
                assert forall|i: int| 0 <= i < p.len() implies (#[trigger] p[i]).a > 0 by {
                    assert(p[i] == s[i]);
                }
            }
        }
    }
}

/// A set of sampled pixels with the range of each colour channel over them.
pub struct ColorBox {
    pub pixels: Vec<Color>,
    pub r_min: u8,
    pub r_max: u8,
    pub g_min: u8,
    pub g_max: u8,
    pub b_min: u8,
    pub b_max: u8,
}

impl ColorBox {
    /// The channel ranges are those of the pixels (all zero for no pixels).
    pub open spec fn wf(&self) -> bool {
        let s = self.pixels@;
        &&& s.len() <= MAX_PIXELS
        &&& s.len() > 0 ==> {
            &&& self.r_min == cmin(s, 0)
            &&& self.r_max == cmax(s, 0)
            &&& self.g_min == cmin(s, 1)
            &&& self.g_max == cmax(s, 1)
            &&& self.b_min == cmin(s, 2)
            &&& self.b_max == cmax(s, 2)
        }
        &&& s.len() == 0 ==> {
            &&& self.r_min == 0
            &&& self.r_max == 0
            &&& self.g_min == 0
            &&& self.g_max == 0
            &&& self.b_min == 0
            &&& self.b_max == 0
        }
    }

    pub open spec fn range_spec(&self, dim: nat) -> int {
        if dim == 0 {
            self.r_max - self.r_min
        } else if dim == 1 {
            self.g_max - self.g_min
        } else {
            self.b_max - self.b_min
        }
    }

    pub fn new(pixels: Vec<Color>) -> (b: ColorBox)
        requires
            pixels@.len() <= MAX_PIXELS,
        ensures
            b.wf(),
            b.pixels@ == pixels@,
    {
        if pixels.len() == 0 {
            return ColorBox { pixels, r_min: 0, r_max: 0, g_min: 0, g_max: 0, b_min: 0, b_max: 0 };
        }
        let mut r_min: u8 = 255;
        let mut r_max: u8 = 0;
        let mut g_min: u8 = 255;
        let mut g_max: u8 = 0;
        let mut b_min: u8 = 255;
        let mut b_max: u8 = 0;
        let mut i: usize = 0;
        while i < pixels.len()
            invariant
                i <= pixels@.len(),
                r_min == cmin(pixels@.take(i as int), 0),
                r_max == cmax(pixels@.take(i as int), 0),
                g_min == cmin(pixels@.take(i as int), 1),
                g_max == cmax(pixels@.take(i as int), 1),
                b_min == cmin(pixels@.take(i as int), 2),
                b_max == cmax(pixels@.take(i as int), 2),
            decreases pixels@.len() - i,
        {
            let c = pixels[i];
            proof {
                assert(pixels@.take(i + 1).drop_last() =~= pixels@.take(i as int));
            }
            if c.r < r_min {
                r_min = c.r;
            }
            if c.r > r_max {
                r_max = c.r;
            }
            if c.g < g_min {
                g_min = c.g;
            }
            if c.g > g_max {
                g_max = c.g;
            }
            if c.b < b_min {
                b_min = c.b;
            }
            if c.b > b_max {
                b_max = c.b;
            }
            i = i + 1;
        }
        assert(pixels@.take(i as int) =~= pixels@);
        ColorBox { pixels, r_min, r_max, g_min, g_max, b_min, b_max }
    }

    /// The channel of greatest range; ties go to red, then green.
    pub fn longest_dimension(&self) -> (d: usize)
        ensures
            d == if self.range_spec(0) >= self.range_spec(1) && self.range_spec(0)
                >= self.range_spec(2) {
                0usize
            } else if self.range_spec(1) >= self.range_spec(2) {
                1usize
            } else {
                2usize
            },
    {
        let r_range: i32 = self.r_max as i32 - self.r_min as i32;
        let g_range: i32 = self.g_max as i32 - self.g_min as i32;
        let b_range: i32 = self.b_max as i32 - self.b_min as i32;
        if r_range >= g_range && r_range >= b_range {
            0
        } else if g_range >= b_range {
            1
        } else {
            2
        }
    }

    /// Channel-wise truncated mean of the pixels, alpha included.
    pub fn average_color(&self) -> (c: Color)
        requires
            self.wf(),
        ensures
            self.pixels@.len() == 0 ==> c == transparent_spec(),
            self.pixels@.len() > 0 ==> c == average_spec(self.pixels@),
    {
        let n = self.pixels.len();
        if n == 0 {
            return transparent();
        }
        let ghost s = self.pixels@;
        let mut sums: [u128; 4] = [0, 0, 0, 0];
        let mut i: usize = 0;
        while i < n
            invariant
                n == s.len(),
                s == self.pixels@,
                n <= MAX_PIXELS,
                i <= n,
                forall|d: int| 0 <= d < 4 ==> sums[d] == csum(#[trigger] s.take(i as int), d as nat),
            decreases n - i,
        {
            let c = self.pixels[i];
            proof {
                assert(s.take(i + 1).drop_last() =~= s.take(i as int));
                lemma_bounds(s.take(i as int), 0);
                lemma_bounds(s.take(i as int), 1);
                lemma_bounds(s.take(i as int), 2);
                lemma_bounds(s.take(i as int), 3);
            }
            sums = [sums[0] + c.r as u128, sums[1] + c.g as u128, sums[2] + c.b as u128, sums[3] + c.a as u128];
            i = i + 1;
            proof {
                assert forall|d: int| 0 <= d < 4 implies sums[d] == csum(#[trigger] s.take(i as int), d as nat) by {
                    assert(s.take(i as int).drop_last() =~= s.take(i - 1));
                }
            }
        }
        assert(s.take(n as int) =~= s);
        proof {
            lemma_bounds(s, 0);
            lemma_bounds(s, 1);
            lemma_bounds(s, 2);
            lemma_bounds(s, 3);
        }
        let cnt = n as u128;
        assert(sums[0] / cnt <= 255) by (nonlinear_arith) requires sums[0] <= 255 * cnt, cnt > 0;
        assert(sums[1] / cnt <= 255) by (nonlinear_arith) requires sums[1] <= 255 * cnt, cnt > 0;
        assert(sums[2] / cnt <= 255) by (nonlinear_arith) requires sums[2] <= 255 * cnt, cnt > 0;
        assert(sums[3] / cnt <= 255) by (nonlinear_arith) requires sums[3] <= 255 * cnt, cnt > 0;
        Color {
            r: (sums[0] / cnt) as u8,
            g: (sums[1] / cnt) as u8,
            b: (sums[2] / cnt) as u8,
            a: (sums[3] / cnt) as u8,
        }
    }
}

/// Channel-wise truncated mean of a non-empty run of colours.
pub open spec fn average_spec(s: Seq<Color>) -> Color {
    Color {
        r: (csum(s, 0) / s.len() as int) as u8,
        g: (csum(s, 1) / s.len() as int) as u8,
        b: (csum(s, 2) / s.len() as int) as u8,
        a: (csum(s, 3) / s.len() as int) as u8,
    }
}

/// Whether `c` lies at squared distance above 100 from every colour of `palette`.
pub open spec fn dissimilar_spec(palette: Seq<Color>, c: Color) -> bool {
    forall|k: int| 0 <= k < palette.len() ==> distance_spec(c, #[trigger] palette[k]) > 100
}

fn is_dissimilar(palette: &Vec<Color>, c: Color) -> (r: bool)
    ensures
        r == dissimilar_spec(palette@, c),
{
    let mut k: usize = 0;
    while k < palette.len()
        invariant
            k <= palette@.len(),
            forall|j: int| 0 <= j < k ==> distance_spec(c, #[trigger] palette@[j]) > 100,
        decreases palette@.len() - k,
    {
        if color_distance(c, palette[k]) <= 100 {
            return false;
        }
        k = k + 1;
    }
    true
}

fn copy_colors(pixels: &Vec<Color>) -> (r: Vec<Color>)
    ensures
        r@ == pixels@,
{
    let mut r: Vec<Color> = Vec::new();
    let mut i: usize = 0;
    while i < pixels.len()
        invariant
            i <= pixels@.len(),
            r@ == pixels@.take(i as int),
        decreases pixels@.len() - i,
    {
        r.push(pixels[i]);
        i = i + 1;
        assert(r@ =~= pixels@.take(i as int));
    }
    assert(pixels@.take(i as int) =~= pixels@);
    r
}

pub open spec fn budget_spec(max_colors: int) -> int {
    if max_colors < 1 {
        1
    } else {
        max_colors
    }
}

pub open spec fn boxes_ok(boxes: Seq<ColorBox>, opaque: bool) -> bool {
    forall|i: int|
        0 <= i < boxes.len() ==> {
            &&& (#[trigger] boxes[i]).wf()
            &&& boxes[i].pixels@.len() > 0
            &&& opaque ==> all_opaque(boxes[i].pixels@)
        }
}

/// The channel of greatest range over `s`; ties go to red, then green.
pub open spec fn dim_spec(s: Seq<Color>) -> nat {
    let r = cmax(s, 0) - cmin(s, 0);
    let g = cmax(s, 1) - cmin(s, 1);
    let b = cmax(s, 2) - cmin(s, 2);
    if r >= g && r >= b {
        0
    } else if g >= b {
        1
    } else {
        2
    }
}

/// `s` ordered by its widest channel, stably.
pub open spec fn by_widest(s: Seq<Color>) -> Seq<Color> {
    let d = dim_spec(s);
    sorted_range(s, d, cmin(s, d) as int, cmax(s, d) as int + 1)
}

/// Among boxes `0 .. j`, the first of the most pixels among those of more
/// than one, with its size; `(0, 0)` when there is none.
pub open spec fn pick_spec(boxes: Seq<Seq<Color>>, j: int) -> (int, int)
    decreases j,
{
    if j <= 0 {
        (0, 0)
    } else {
        let b = pick_spec(boxes, j - 1);
        let l = boxes[j - 1].len() as int;
        if l > 1 && l > b.1 {
            (j - 1, l)
        } else {
            b
        }
    }
}

/// One median cut: box `j` leaves, and the two halves of it ordered by its
/// widest channel join at the end.
pub open spec fn cut_step(boxes: Seq<Seq<Color>>, j: int) -> Seq<Seq<Color>> {
    let s = by_widest(boxes[j]);
    let half = s.len() / 2;
    boxes.remove(j).push(s.take(half as int)).push(s.skip(half as int))
}

/// Median cuts until there are `budget` boxes, no box can be split, or `fuel`
/// cuts are made.
pub open spec fn cut_spec(boxes: Seq<Seq<Color>>, budget: int, fuel: nat) -> Seq<Seq<Color>>
    decreases fuel,
{
    if fuel == 0 || boxes.len() >= budget || pick_spec(boxes, boxes.len() as int).1 == 0 {
        boxes
    } else {
        cut_spec(cut_step(boxes, pick_spec(boxes, boxes.len() as int).0), budget, (fuel - 1) as nat)
    }
}

/// Adds, in order, each colour of `px` before place `i` that lies far enough
/// from every colour so far, while fewer than `budget` colours are chosen.
pub open spec fn supplement(pal: Seq<Color>, px: Seq<Color>, budget: int, i: int) -> Seq<Color>
    decreases i,
{
    if i <= 0 {
        pal
    } else {
        let p = supplement(pal, px, budget, i - 1);
        if p.len() < budget && dissimilar_spec(p, px[i - 1]) {
            p.push(px[i - 1])
        } else {
            p
        }
    }
}

/// The median-cut palette of a non-empty run of pixels under `budget`.
pub open spec fn median_cut_spec(px: Seq<Color>, budget: int) -> Seq<Color> {
    let boxes = cut_spec(seq![px], budget, (budget - 1) as nat);
    let averages = Seq::new(boxes.len(), |k: int| average_spec(boxes[k]));
    supplement(averages, px, budget, px.len() as int)
}

pub open spec fn box_pixels(bs: Seq<ColorBox>) -> Seq<Seq<Color>> {
    Seq::new(bs.len(), |i: int| bs[i].pixels@)
}

proof fn lemma_pick_bound(boxes: Seq<Seq<Color>>, j: int)
    requires
        0 <= j <= boxes.len(),
    ensures
        pick_spec(boxes, j).1 == 0 || (0 <= pick_spec(boxes, j).0 < j && pick_spec(boxes, j).1
            == boxes[pick_spec(boxes, j).0].len() && pick_spec(boxes, j).1 > 1),
        pick_spec(boxes, j).1 >= 0,
    decreases j,
{
    if j > 0 {
        lemma_pick_bound(boxes, j - 1);
    }
}

/// Total number of pixels over a list of boxes.
pub open spec fn total_len(bs: Seq<Seq<Color>>) -> int
    decreases bs.len(),
{
    if bs.len() == 0 {
        0
    } else {
        total_len(bs.drop_last()) + bs.last().len()
    }
}

proof fn lemma_total_remove(bs: Seq<Seq<Color>>, j: int)
    requires
        0 <= j < bs.len(),
    ensures
        total_len(bs.remove(j)) == total_len(bs) - bs[j].len(),
    decreases bs.len(),
{
    let r = bs.remove(j);
    if j == bs.len() - 1 {
        assert(r =~= bs.drop_last());
    } else {
        lemma_total_remove(bs.drop_last(), j);
        assert(r.drop_last() =~= bs.drop_last().remove(j));
        assert(r.last() == bs.last());
    }
}

proof fn lemma_total_small(bs: Seq<Seq<Color>>)
    requires
        forall|i: int| 0 <= i < bs.len() ==> (#[trigger] bs[i]).len() == 1,
    ensures
        total_len(bs) == bs.len(),
    decreases bs.len(),
{
    if bs.len() > 0 {
        let p = bs.drop_last();
        assert forall|i: int| 0 <= i < p.len() implies (#[trigger] p[i]).len() == 1 by {
            assert(p[i] == bs[i]);
        }
        lemma_total_small(p);
        assert(bs[bs.len() - 1] == bs.last());
    }
}

proof fn lemma_pick_none(boxes: Seq<Seq<Color>>, j: int)
    requires
        0 <= j <= boxes.len(),
        pick_spec(boxes, j).1 == 0,
    ensures
        forall|i: int| 0 <= i < j ==> (#[trigger] boxes[i]).len() <= 1,
    decreases j,
{
    if j > 0 {
        lemma_pick_bound(boxes, j - 1);
        lemma_pick_none(boxes, j - 1);
    }
}

proof fn lemma_supplement_grows(pal: Seq<Color>, px: Seq<Color>, budget: int, i: int)
    ensures
        supplement(pal, px, budget, i).len() >= pal.len(),
        pal.len() < budget ==> supplement(pal, px, budget, i).len() >= pal.len(),
    decreases i,
{
    if i > 0 {
        lemma_supplement_grows(pal, px, budget, i - 1);
    }
}

/// Median-cut quantisation of `pixels` into at most `max(max_colors, 1)` colours:
/// the most populous splittable box is split at the median of its widest channel
/// until the budget is met, each box gives its mean colour, and a shortfall is
/// filled from source colours far enough from every colour chosen so far.
pub fn median_cut_quantize(pixels: &Vec<Color>, max_colors: usize) -> (r: Vec<Color>)
    requires
        pixels@.len() <= MAX_PIXELS,
    ensures
        pixels@.len() == 0 ==> r@ == seq![transparent_spec()],
        pixels@.len() > 0 ==> r@ == median_cut_spec(pixels@, budget_spec(max_colors as int)),
        pixels@.len() > 0 ==> 1 <= r@.len() <= budget_spec(max_colors as int),
        pixels@.len() > 0 ==> r@.len() >= budget_spec(max_colors as int) || r@.len()
            >= pixels@.len(),
        pixels@.len() > 0 && all_opaque(pixels@) ==> all_opaque(r@),
{
    if pixels.len() == 0 {
        let mut r: Vec<Color> = Vec::new();
        r.push(transparent());
        assert(r@ =~= seq![transparent_spec()]);
        return r;
    }
    let budget: usize = if max_colors < 1 { 1 } else { max_colors };
    let ghost opaque = all_opaque(pixels@);
    let mut boxes: Vec<ColorBox> = Vec::new();
    boxes.push(ColorBox::new(copy_colors(pixels)));
    let ghost target = cut_spec(seq![pixels@], budget as int, (budget - 1) as nat);
    assert(box_pixels(boxes@) =~= seq![pixels@]);
    assert(seq![pixels@].drop_last() =~= Seq::<Seq<Color>>::empty());
    assert(total_len(seq![pixels@]) == pixels@.len()) by {
        reveal_with_fuel(total_len, 2);
    }
    while boxes.len() < budget
        invariant
            1 <= boxes@.len() <= budget,
            boxes_ok(boxes@, opaque),
            cut_spec(box_pixels(boxes@), budget as int, (budget - boxes@.len()) as nat) == target,
            total_len(box_pixels(boxes@)) == pixels@.len(),
        ensures
            boxes@.len() >= budget || boxes@.len() == pixels@.len(),
            1 <= boxes@.len() <= budget,
            boxes_ok(boxes@, opaque),
            box_pixels(boxes@) == target,
        decreases budget - boxes@.len(),
    {
        let mut best: usize = 0;
        let mut best_len: usize = 0;
        let mut j: usize = 0;
        let ghost bp = box_pixels(boxes@);
        while j < boxes.len()
            invariant
                j <= boxes@.len(),
                bp == box_pixels(boxes@),
                (best as int, best_len as int) == pick_spec(bp, j as int),
                best_len == 0 || (best < boxes@.len() && boxes@[best as int].pixels@.len()
                    == best_len && best_len > 1),
            decreases boxes@.len() - j,
        {
            assert(bp[j as int] == boxes@[j as int].pixels@);
            let l = boxes[j].pixels.len();
            if l > 1 && l > best_len {
                best = j;
                best_len = l;
            }
            j = j + 1;
        }
        proof {
            lemma_pick_bound(bp, bp.len() as int);
        }
        if best_len == 0 {
            assert(cut_spec(bp, budget as int, (budget - boxes@.len()) as nat) == bp);
            proof {
                lemma_pick_none(bp, bp.len() as int);
                assert forall|i: int| 0 <= i < bp.len() implies (#[trigger] bp[i]).len() == 1 by {
                    assert(bp[i] == boxes@[i].pixels@);
                    assert(boxes@[i].pixels@.len() > 0);
                }
                lemma_total_small(bp);
            }
            break;
        }
        let ghost before = boxes@;
        let bx = boxes.remove(best);
        assert(bx == before[best as int]);
        assert(boxes_ok(boxes@, opaque)) by {
            assert forall|i: int| 0 <= i < boxes@.len() implies {
                &&& (#[trigger] boxes@[i]).wf()
                &&& boxes@[i].pixels@.len() > 0
                &&& opaque ==> all_opaque(boxes@[i].pixels@)
            } by {
                if i < best {
                    assert(boxes@[i] == before[i]);
                } else {
                    assert(boxes@[i] == before[i + 1]);
                }
            }
        }
        let dim = bx.longest_dimension();
        let lo: u8 = if dim == 0 { bx.r_min } else if dim == 1 { bx.g_min } else { bx.b_min };
        let hi: u8 = if dim == 0 { bx.r_max } else if dim == 1 { bx.g_max } else { bx.b_max };
        proof {
            lemma_bounds(bx.pixels@, dim as nat);
            assert(bx.pixels@.len() > 0);
            assert(lo <= channel_spec(bx.pixels@[0], dim as nat) <= hi);
        }
        let mut sorted = sort_by_channel(&bx.pixels, dim, lo, hi);
        proof {
            if opaque {
                lemma_sorted_range_opaque(bx.pixels@, dim as nat, lo as int, hi as int + 1);
            }
        }
        let median = sorted.len() / 2;
        let ghost whole = sorted@;
        let right = sorted.split_off(median);
        assert(sorted@ =~= whole.subrange(0, median as int));
        assert(right@ =~= whole.subrange(median as int, whole.len() as int));
        let left_box = ColorBox::new(sorted);
        let right_box = ColorBox::new(right);
        let ghost mid = boxes@;
        boxes.push(left_box);
        boxes.push(right_box);
        proof {
            let sp = bx.pixels@;
            assert(sp == bp[best as int]);
            assert(dim as nat == dim_spec(sp));
            assert(lo == cmin(sp, dim as nat) && hi == cmax(sp, dim as nat));
            assert(whole == by_widest(sp));
            let half = whole.len() / 2;
            assert(median == half);
            assert(whole.subrange(0, median as int) =~= whole.take(half as int));
            assert(whole.subrange(median as int, whole.len() as int) =~= whole.skip(half as int));
            let stepped = cut_step(bp, best as int);
            assert(box_pixels(boxes@) =~= stepped) by {
                assert(box_pixels(mid) =~= bp.remove(best as int)) by {
                    assert forall|i: int| 0 <= i < mid.len() implies #[trigger] box_pixels(mid)[i]
                        == bp.remove(best as int)[i] by {
                        if i < best {
                            assert(mid[i] == before[i]);
                        } else {
                            assert(mid[i] == before[i + 1]);
                        }
                    }
                }
                assert forall|i: int| 0 <= i < boxes@.len() implies #[trigger] box_pixels(boxes@)[i]
                    == stepped[i] by {
                    if i < mid.len() {
                        assert(boxes@[i] == mid[i]);
                        assert(box_pixels(mid)[i] == mid[i].pixels@);
                    }
                }
            }
            lemma_total_remove(bp, best as int);
            let rest = bp.remove(best as int);
            assert(stepped.drop_last().drop_last() =~= rest);
            assert(stepped.drop_last().last() == whole.take(half as int));
            assert(stepped.last() == whole.skip(half as int));
            assert(total_len(stepped) == total_len(rest) + whole.len()) by {
                reveal_with_fuel(total_len, 3);
                assert(whole.take(half as int).len() + whole.skip(half as int).len() == whole.len());
            }
            assert(bp.len() < budget);
            assert(cut_spec(bp, budget as int, (budget - bp.len()) as nat) == cut_spec(
                stepped,
                budget as int,
                (budget - boxes@.len()) as nat,
            ));
        }
        assert(boxes_ok(boxes@, opaque)) by {
            assert forall|i: int| 0 <= i < boxes@.len() implies {
                &&& (#[trigger] boxes@[i]).wf()
                &&& boxes@[i].pixels@.len() > 0
                &&& opaque ==> all_opaque(boxes@[i].pixels@)
            } by {
                if i < mid.len() {
                    assert(boxes@[i] == mid[i]);
                } else if opaque {
                    let p = boxes@[i].pixels@;
                    assert forall|k: int| 0 <= k < p.len() implies (#[trigger] p[k]).a > 0 by {
                        if i == mid.len() {
                            assert(p[k] == whole[k]);
                        } else {
                            assert(p[k] == whole[k + median]);
                        }
                    }
                }
            }
        }
    }
    let ghost fin = box_pixels(boxes@);
    assert(fin == target);
    let mut palette: Vec<Color> = Vec::new();
    let mut j: usize = 0;
    while j < boxes.len()
        invariant
            j <= boxes@.len() <= budget,
            palette@.len() == j,
            fin == box_pixels(boxes@),
            palette@ =~= Seq::new(j as nat, |k: int| average_spec(fin[k])),
            boxes_ok(boxes@, opaque),
            opaque ==> all_opaque(palette@),
        decreases boxes@.len() - j,
    {
        let c = boxes[j].average_color();
        assert(fin[j as int] == boxes@[j as int].pixels@);
        proof {
            if opaque {
                let s = boxes@[j as int].pixels@;
                lemma_bounds(s, 3);
                assert(1 <= csum(s, 3) / s.len() as int <= 255) by (nonlinear_arith)
                    requires csum(s, 3) >= s.len(), csum(s, 3) <= 255 * s.len(), s.len() > 0;
                assert(c.a > 0);
            }
        }
        palette.push(c);
        j = j + 1;
        proof {
            if opaque {
                assert forall|k: int| 0 <= k < palette@.len() implies (#[trigger] palette@[k]).a
                    > 0 by {
                    if k < j - 1 {
                        assert(palette@[k] == palette@.drop_last()[k]);
                    }
                }
            }
        }
    }
    let ghost averages = palette@;
    let mut i: usize = 0;
    while i < pixels.len()
        invariant
            1 <= palette@.len() <= budget,
            i <= pixels@.len(),
            palette@ == supplement(averages, pixels@, budget as int, i as int),
            averages.len() == boxes@.len(),
            boxes@.len() >= budget || boxes@.len() == pixels@.len(),
            palette@.len() >= averages.len(),
            opaque ==> all_opaque(palette@),
            opaque == all_opaque(pixels@),
        decreases pixels@.len() - i,
    {
        let c = pixels[i];
        if palette.len() < budget && is_dissimilar(&palette, c) {
            palette.push(c);
            proof {
                if opaque {
                    assert forall|k: int| 0 <= k < palette@.len() implies (#[trigger] palette@[k]).a
                        > 0 by {
                        if k < palette@.len() - 1 {
                            assert(palette@[k] == palette@.drop_last()[k]);
                        } else {
                            assert(pixels@[i as int].a > 0);
                        }
                    }
                }
            }
        }
        i = i + 1;
        proof {
            lemma_supplement_grows(averages, pixels@, budget as int, i as int);
        }
    }
    palette
}

proof fn lemma_opaque(s: Seq<Color>)
    ensures
        all_opaque(opaque_spec(s)),
        opaque_spec(s).len() <= s.len(),
    decreases s.len(),
{
    if s.len() > 0 {
        lemma_opaque(s.drop_last());
    }
}

proof fn lemma_distinct(s: Seq<Color>)
    ensures
        all_opaque(s) ==> all_opaque(distinct_spec(s)),
        s.len() > 0 ==> distinct_spec(s).len() >= 1,
        forall|i: int| 0 <= i <= s.len() ==> distinct_spec(#[trigger] s.take(i)).len() <= distinct_spec(s).len(),
    decreases s.len(),
{
    if s.len() > 0 {
        let p = s.drop_last();
        lemma_distinct(p);
        if all_opaque(s) {
            assert(all_opaque(p)) by {
                assert forall|i: int| 0 <= i < p.len() implies (#[trigger] p[i]).a > 0 by {
                    assert(p[i] == s[i]);
                }
            }
        }
        assert forall|i: int| 0 <= i <= s.len() implies distinct_spec(#[trigger] s.take(i)).len() <= distinct_spec(s).len() by {
            if i == s.len() {
                assert(s.take(i) =~= s);
            } else {
                assert(s.take(i) =~= p.take(i));
            }
        }
    }
}

/// The pixels with nonzero alpha, in order.
pub fn collect_opaque(pixels: &Vec<Color>) -> (r: Vec<Color>)
    ensures
        r@ == opaque_spec(pixels@),
{
    let mut r: Vec<Color> = Vec::new();
    let mut i: usize = 0;
    while i < pixels.len()
        invariant
            i <= pixels@.len(),
            r@ == opaque_spec(pixels@.take(i as int)),
        decreases pixels@.len() - i,
    {
        let c = pixels[i];
        proof {
            assert(pixels@.take(i + 1).drop_last() =~= pixels@.take(i as int));
        }
        if c.a > 0 {
            r.push(c);
        }
        i = i + 1;
    }
    assert(pixels@.take(i as int) =~= pixels@);
    r
}

fn contains_color(v: &Vec<Color>, c: Color) -> (r: bool)
    ensures
        r == v@.contains(c),
{
    let mut k: usize = 0;
    while k < v.len()
        invariant
            k <= v@.len(),
            forall|j: int| 0 <= j < k ==> v@[j] != c,
        decreases v@.len() - k,
    {
        if v[k] == c {
            return true;
        }
        k = k + 1;
    }
    false
}

/// The distinct colours of `s` in order of first occurrence, or `None` when
/// there are more than `cap` of them.
pub fn distinct_capped(s: &Vec<Color>, cap: usize) -> (r: Option<Vec<Color>>)
    ensures
        match r {
            Some(d) => d@ == distinct_spec(s@) && d@.len() <= cap,
            None => distinct_spec(s@).len() > cap,
        },
{
    let mut d: Vec<Color> = Vec::new();
    let mut i: usize = 0;
    while i < s.len()
        invariant
            i <= s@.len(),
            d@ == distinct_spec(s@.take(i as int)),
            d@.len() <= cap,
        decreases s@.len() - i,
    {
        let c = s[i];
        proof {
            assert(s@.take(i + 1).drop_last() =~= s@.take(i as int));
        }
        if !contains_color(&d, c) {
            if d.len() == cap {
                proof {
                    lemma_distinct(s@);
                    assert(distinct_spec(s@.take(i + 1)).len() == cap + 1);
                }
                return None;
            }
            d.push(c);
        }
        i = i + 1;
    }
    assert(s@.take(i as int) =~= s@);
    Some(d)
}

/// The palette of an image's opaque pixels, of at most `max(max_colors, 1)`
/// colours: their distinct colours when there are few enough, a median-cut
/// quantisation otherwise, and the transparent colour alone when there are none.
pub fn build_palette(image: &RasterImage, max_colors: usize) -> (r: Vec<Color>)
    requires
        image.wf(),
    ensures
        r@.len() >= 1,
        opaque_spec(image.pixels@).len() == 0 ==> r@ == seq![transparent_spec()],
        opaque_spec(image.pixels@).len() > 0 ==> {
            &&& 1 <= r@.len() <= budget_spec(max_colors as int)
            &&& all_opaque(r@)
            &&& distinct_spec(opaque_spec(image.pixels@)).len() <= budget_spec(max_colors as int)
                ==> r@ == distinct_spec(opaque_spec(image.pixels@))
            &&& distinct_spec(opaque_spec(image.pixels@)).len() > budget_spec(max_colors as int)
                ==> r@ == median_cut_spec(opaque_spec(image.pixels@), budget_spec(max_colors as int))
        },
{
    let budget: usize = if max_colors < 1 { 1 } else { max_colors };
    let opaque = collect_opaque(&image.pixels);
    proof {
        lemma_opaque(image.pixels@);
        lemma_distinct(opaque@);
        assert(image.width * image.height <= MAX_PIXELS) by (nonlinear_arith)
            requires image.width <= u32::MAX, image.height <= u32::MAX;
    }
    if opaque.len() == 0 {
        let mut r: Vec<Color> = Vec::new();
        r.push(transparent());
        assert(r@ =~= seq![transparent_spec()]);
        return r;
    }
    match distinct_capped(&opaque, budget) {
        Some(d) => d,
        None => median_cut_quantize(&opaque, budget),
    }
}

} // verus!
