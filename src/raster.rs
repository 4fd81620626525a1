use vstd::prelude::*;
use crate::color::Color;

verus! {

/// A decoded image: row-major RGBA pixels.
#[derive(Debug)]
pub struct RasterImage {
    pub width: u32,
    pub height: u32,
    pub pixels: Vec<Color>,
}

impl RasterImage {
    pub open spec fn wf(&self) -> bool {
        &&& self.pixels@.len() == self.width * self.height
    }

    /// Builds an image from its pixels; `None` when their number is not
    /// `width * height`.
    pub fn new(width: u32, height: u32, pixels: Vec<Color>) -> (r: Option<RasterImage>)
        ensures
            match r {
                Some(img) => img.wf() && img.width == width && img.height == height
                    && img.pixels@ == pixels@,
                None => pixels@.len() != width * height,
            },
    {
        assert(width * height <= u32::MAX * u32::MAX) by (nonlinear_arith)
            requires width <= u32::MAX, height <= u32::MAX;
        if pixels.len() as u64 != width as u64 * height as u64 {
            return None;
        }
        Some(RasterImage { width, height, pixels })
    }

    /// Builds an image from row-major RGBA bytes, four per pixel; bytes past
    /// the `4 * width * height` the image needs are not read.
    pub fn from_rgba_bytes(width: u32, height: u32, bytes: &Vec<u8>) -> (img: RasterImage)
        requires
            bytes@.len() >= 4 * (width * height),
        ensures
            img.wf(),
            img.width == width,
            img.height == height,
            img.pixels@ == pixels_of_bytes(bytes@, width * height),
    {
        assert(width * height <= u32::MAX * u32::MAX) by (nonlinear_arith)
            requires width <= u32::MAX, height <= u32::MAX;
        let ghost n = width * height;
        let count: usize = bytes.len() / 4;
        assert(count >= n);
        let count: usize = (width as u64 * height as u64) as usize;
        let mut pixels: Vec<Color> = Vec::new();
        let mut i: usize = 0;
        while i < count
            invariant
                count == n,
                bytes@.len() >= 4 * count,
                bytes@.len() <= usize::MAX,
                i <= count,
                pixels@ =~= pixels_of_bytes(bytes@, n).take(i as int),
            decreases count - i,
        {
            let c = Color {
                r: bytes[4 * i],
                g: bytes[4 * i + 1],
                b: bytes[4 * i + 2],
                a: bytes[4 * i + 3],
            };
            pixels.push(c);
            i = i + 1;
        }
        assert(pixels@ =~= pixels_of_bytes(bytes@, n));
        RasterImage { width, height, pixels }
    }
}

/// The first `n` groups of four bytes as colours (red, green, blue, alpha).
pub open spec fn pixels_of_bytes(b: Seq<u8>, n: int) -> Seq<Color> {
    Seq::new(
        n as nat,
        |i: int| Color { r: b[4 * i], g: b[4 * i + 1], b: b[4 * i + 2], a: b[4 * i + 3] },
    )
}

} // verus!
