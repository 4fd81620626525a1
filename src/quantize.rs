use vstd::prelude::*;
use crate::color::{Color, color_distance, distance_spec, transparent, transparent_spec};
use crate::options::{VectorizeOptions, palette_size_from_options, palette_size_spec};
use crate::palette::{all_opaque, build_palette, budget_spec, distinct_spec, median_cut_spec,
    opaque_spec};
use crate::raster::RasterImage;

verus! {

/// An image reduced to a palette: one palette index per pixel, row-major.
#[derive(Debug)]
pub struct QuantizedImage {
    pub palette: Vec<Color>,
    pub indices: Vec<usize>,
    pub width: u32,
    pub height: u32,
}

impl QuantizedImage {
    pub open spec fn wf(&self) -> bool {
        &&& self.palette@.len() >= 1
        &&& self.indices@.len() == self.width * self.height
        &&& forall|i: int|
            0 <= i < self.indices@.len() ==> #[trigger] self.indices@[i] < self.palette@.len()
    }
}

/// Index of the first palette entry with alpha zero, or 0 when there is none.
pub open spec fn transparent_index_spec(p: Seq<Color>) -> int
    decreases p.len(),
{
    if p.len() == 0 {
        0
    } else if transparent_found(p.drop_last()) {
        transparent_index_spec(p.drop_last())
    } else if p.last().a == 0 {
        p.len() - 1
    } else {
        0
    }
}

pub open spec fn transparent_found(p: Seq<Color>) -> bool {
    exists|i: int| 0 <= i < p.len() && #[trigger] p[i].a == 0
}

/// Among the first `k` entries with nonzero alpha, the first one nearest to `c`,
/// with its squared distance.
pub open spec fn nearest_spec(p: Seq<Color>, c: Color, k: int) -> Option<(int, int)>
    decreases k,
{
    if k <= 0 {
        None
    } else {
        let prev = nearest_spec(p, c, k - 1);
        let d = distance_spec(c, p[k - 1]);
        if p[k - 1].a > 0 && (prev is None || d < prev.unwrap().1) {
            Some((k - 1, d))
        } else {
            prev
        }
    }
}

/// The palette index a pixel maps to.
pub open spec fn map_index_spec(p: Seq<Color>, c: Color) -> int {
    if c.a == 0 {
        transparent_index_spec(p)
    } else {
        match nearest_spec(p, c, p.len() as int) {
            None => 0,
            Some(best) => best.0,
        }
    }
}

pub open spec fn map_spec(p: Seq<Color>, pixels: Seq<Color>) -> Seq<usize> {
    Seq::new(pixels.len(), |i: int| map_index_spec(p, pixels[i]) as usize)
}

proof fn lemma_nearest_bound(p: Seq<Color>, c: Color, k: int)
    requires
        k <= p.len(),
    ensures
        match nearest_spec(p, c, k) {
            None => true,
            Some(best) => 0 <= best.0 < k && best.1 == distance_spec(c, p[best.0]),
        },
    decreases k,
{
    if k > 0 {
        lemma_nearest_bound(p, c, k - 1);
    }
}

proof fn lemma_transparent_index(p: Seq<Color>)
    ensures
        p.len() > 0 ==> 0 <= transparent_index_spec(p) < p.len(),
        transparent_found(p) ==> p[transparent_index_spec(p)].a == 0,
    decreases p.len(),
{
    if p.len() > 0 {
        let q = p.drop_last();
        lemma_transparent_index(q);
        if transparent_found(q) {
            let t = transparent_index_spec(q);
            assert(p[t] == q[t]);
        } else if transparent_found(p) {
            let i = choose|i: int| 0 <= i < p.len() && #[trigger] p[i].a == 0;
            if i < q.len() {
                assert(q[i] == p[i]);
            }
        }
    }
}

fn transparent_index(palette: &Vec<Color>) -> (r: usize)
    ensures
        r == transparent_index_spec(palette@),
{
    let mut k: usize = 0;
    while k < palette.len()
        invariant
            k <= palette@.len(),
            !transparent_found(palette@.take(k as int)),
        decreases palette@.len() - k,
    {
        proof {
            assert(palette@.take(k + 1).drop_last() =~= palette@.take(k as int));
        }
        if palette[k].a == 0 {
            proof {
                lemma_transparent_prefix(palette@, k as int);
            }
            return k;
        }
        proof {
            assert forall|i: int| 0 <= i < k + 1 implies #[trigger] palette@.take(k + 1)[i].a
                != 0 by {
                if i < k {
                    assert(palette@.take(k + 1)[i] == palette@.take(k as int)[i]);
                }
            }
        }
        k = k + 1;
    }
    proof {
        assert(palette@.take(k as int) =~= palette@);
        lemma_no_transparent(palette@);
    }
    0
}

proof fn lemma_no_transparent(p: Seq<Color>)
    requires
        !transparent_found(p),
    ensures
        transparent_index_spec(p) == 0,
    decreases p.len(),
{
    if p.len() > 0 {
        let q = p.drop_last();
        assert(!transparent_found(q)) by {
            if transparent_found(q) {
                let i = choose|i: int| 0 <= i < q.len() && #[trigger] q[i].a == 0;
                assert(p[i] == q[i]);
            }
        }
        assert(p[p.len() - 1].a != 0);
    }
}

/// The first transparent entry is at `k` when none comes before it.
proof fn lemma_transparent_prefix(p: Seq<Color>, k: int)
    requires
        0 <= k < p.len(),
        p[k].a == 0,
        !transparent_found(p.take(k)),
    ensures
        transparent_index_spec(p) == k,
    decreases p.len(),
{
    let q = p.drop_last();
    if k == p.len() - 1 {
        assert(q =~= p.take(k));
    } else {
        assert(q.take(k) =~= p.take(k));
        assert(q[k] == p[k]);
        lemma_transparent_prefix(q, k);
        assert(transparent_found(q));
    }
}

fn nearest_index(palette: &Vec<Color>, c: Color) -> (r: usize)
    ensures
        r == match nearest_spec(palette@, c, palette@.len() as int) {
            None => 0,
            Some(best) => best.0,
        },
{
    let mut best_idx: usize = 0;
    let mut best_dist: u32 = u32::MAX;
    let mut k: usize = 0;
    while k < palette.len()
        invariant
            k <= palette@.len(),
            match nearest_spec(palette@, c, k as int) {
                None => best_idx == 0 && best_dist == u32::MAX,
                Some(best) => best_idx == best.0 && best_dist == best.1,
            },
        decreases palette@.len() - k,
    {
        let col = palette[k];
        if col.a > 0 {
            let d = color_distance(c, col);
            if d < best_dist {
                best_idx = k;
                best_dist = d;
            }
        }
        k = k + 1;
    }
    best_idx
}

/// Maps every pixel to a palette index: alpha zero to the first transparent
/// entry (or 0), any other pixel to the nearest entry with nonzero alpha under
/// squared RGBA distance, the lowest index winning a tie.
pub fn map_to_palette(pixels: &Vec<Color>, palette: &Vec<Color>) -> (r: Vec<usize>)
    ensures
        r@ == map_spec(palette@, pixels@),
        palette@.len() > 0 ==> forall|i: int| 0 <= i < r@.len() ==> #[trigger] r@[i]
            < palette@.len(),
{
    let t = transparent_index(palette);
    let mut r: Vec<usize> = Vec::new();
    let mut i: usize = 0;
    proof {
        lemma_transparent_index(palette@);
        lemma_nearest_bound(palette@, pixels@[0], palette@.len() as int);
    }
    while i < pixels.len()
        invariant
            t == transparent_index_spec(palette@),
            i <= pixels@.len(),
            r@ =~= map_spec(palette@, pixels@).take(i as int),
        decreases pixels@.len() - i,
    {
        let c = pixels[i];
        let idx = if c.a == 0 {
            t
        } else {
            nearest_index(palette, c)
        };
        r.push(idx);
        i = i + 1;
    }
    proof {
        assert(map_spec(palette@, pixels@).take(i as int) =~= map_spec(palette@, pixels@));
        if palette@.len() > 0 {
            assert forall|i: int| 0 <= i < r@.len() implies #[trigger] r@[i] < palette@.len() by {
                lemma_nearest_bound(palette@, pixels@[i], palette@.len() as int);
            }
        }
    }
    r
}

/// Whether some pixel has alpha zero.
pub open spec fn has_transparent_spec(s: Seq<Color>) -> bool {
    exists|i: int| 0 <= i < s.len() && #[trigger] s[i].a == 0
}

fn has_transparent(pixels: &Vec<Color>) -> (r: bool)
    ensures
        r == has_transparent_spec(pixels@),
{
    let mut i: usize = 0;
    while i < pixels.len()
        invariant
            i <= pixels@.len(),
            forall|j: int| 0 <= j < i ==> (#[trigger] pixels@[j]).a != 0,
        decreases pixels@.len() - i,
    {
        if pixels[i].a == 0 {
            return true;
        }
        i = i + 1;
    }
    false
}

/// Budget of opaque colours: one slot less than the target when the image has
/// transparent pixels, and never below one.
pub open spec fn opaque_budget_spec(image: RasterImage, options: VectorizeOptions) -> int {
    let k = palette_size_spec(options);
    if has_transparent_spec(image.pixels@) {
        budget_spec(k - 1)
    } else {
        k
    }
}

/// What quantisation yields: the image's size, a palette (that of the opaque
/// pixels under the opaque budget, followed by the transparent colour when the
/// image has both kinds of pixels) and the index each pixel maps to.
pub open spec fn quantize_post(image: RasterImage, options: VectorizeOptions, q: QuantizedImage) -> bool {
    &&& q.wf()
    &&& q.width == image.width
    &&& q.height == image.height
    &&& q.indices@ == map_spec(q.palette@, image.pixels@)
    &&& opaque_spec(image.pixels@).len() == 0 ==> q.palette@ == seq![transparent_spec()]
    &&& opaque_spec(image.pixels@).len() > 0 ==> {
        let extra: int = if has_transparent_spec(image.pixels@) { 1 } else { 0 };
        let base = q.palette@.take(q.palette@.len() - extra);
        &&& 1 <= base.len() <= opaque_budget_spec(image, options)
        &&& q.palette@.len() == base.len() + extra
        &&& all_opaque(base)
        &&& extra == 1 ==> q.palette@.last() == transparent_spec()
        &&& distinct_spec(opaque_spec(image.pixels@)).len() <= opaque_budget_spec(
            image,
            options,
        ) ==> base == distinct_spec(opaque_spec(image.pixels@))
        &&& distinct_spec(opaque_spec(image.pixels@)).len() > opaque_budget_spec(
            image,
            options,
        ) ==> base == median_cut_spec(
            opaque_spec(image.pixels@),
            opaque_budget_spec(image, options),
        )
    }
}

/// Quantising the same image with the same options twice gives the same
/// palette and the same indices.
pub proof fn lemma_quantize_repeatable(
    image: RasterImage,
    options: VectorizeOptions,
    q1: QuantizedImage,
    q2: QuantizedImage,
)
    requires
        image.wf(),
        quantize_post(image, options, q1),
        quantize_post(image, options, q2),
    ensures
        q1.palette@ == q2.palette@,
        q1.indices@ == q2.indices@,
{
    let px = image.pixels@;
    if opaque_spec(px).len() > 0 {
        let extra: int = if has_transparent_spec(px) { 1 } else { 0 };
        let b1 = q1.palette@.take(q1.palette@.len() - extra);
        let b2 = q2.palette@.take(q2.palette@.len() - extra);
        assert(b1 == b2);
        assert forall|i: int| 0 <= i < q1.palette@.len() implies q1.palette@[i] == q2.palette@[i] by {
            if i < b1.len() {
                assert(q1.palette@[i] == b1[i]);
                assert(q2.palette@[i] == b2[i]);
            }
        }
        assert(q1.palette@ =~= q2.palette@);
    }
}

/// Reduces the image to a palette and one palette index per pixel (see
/// `quantize_post`).
pub fn quantize_image(image: &RasterImage, options: &VectorizeOptions) -> (q: QuantizedImage)
    requires
        image.wf(),
    ensures
        quantize_post(*image, *options, q),
{
    let k = palette_size_from_options(options);
    let has_t = has_transparent(&image.pixels);
    let budget: usize = if has_t {
        if k > 1 { k - 1 } else { 1 }
    } else {
        k
    };
    let mut palette = build_palette(image, budget);
    let ghost base = palette@;
    if has_t && palette[0].a > 0 {
        palette.push(transparent());
    }
    proof {
        if opaque_spec(image.pixels@).len() > 0 && has_t {
            assert(palette@.take(palette@.len() - 1) =~= base);
        } else {
            assert(palette@.take(palette@.len() as int) =~= base);
        }
    }
    let indices = map_to_palette(&image.pixels, &palette);
    QuantizedImage { palette, indices, width: image.width, height: image.height }
}

} // verus!
