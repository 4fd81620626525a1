use vstd::prelude::*;

verus! {

/// Rendering preset.
#[derive(Clone, Copy, Debug, PartialEq, Eq, Structural)]
pub enum VectorizeMode {
    Logo,
    Poster,
    PixelArt,
}

impl Default for VectorizeMode {
    fn default() -> (m: Self)
        ensures
            m == VectorizeMode::Logo,
    {
        VectorizeMode::Logo
    }
}

/// Conversion settings. The fractional settings are held in thousandths:
/// `detail == 600` stands for 0.6, `tolerance == 1500` for 1.5 pixels.
#[derive(Clone, Copy, Debug, PartialEq, Eq, Structural)]
pub struct VectorizeOptions {
    /// Palette ceiling, meaningful from 2 to 64.
    pub colors: u8,
    /// Detail in thousandths, 0 to 1000.
    pub detail: u16,
    /// Smoothness in thousandths, 0 to 1000.
    pub smoothness: u16,
    /// Simplification tolerance in thousandths of a pixel, 100 to 10000.
    pub tolerance: u16,
    pub mode: VectorizeMode,
}

impl Default for VectorizeOptions {
    fn default() -> (o: Self)
        ensures
            o.colors == 8,
            o.detail == 600,
            o.smoothness == 500,
            o.tolerance == 1500,
            o.mode == VectorizeMode::Logo,
    {
        VectorizeOptions {
            colors: 8,
            detail: 600,
            smoothness: 500,
            tolerance: 1500,
            mode: VectorizeMode::Logo,
        }
    }
}

pub open spec fn clamp_spec(v: int, lo: int, hi: int) -> int {
    if v < lo {
        lo
    } else if v > hi {
        hi
    } else {
        v
    }
}

/// Target palette size: `ceil(max(colors, 2) * clamp(detail, 0.1, 1.0))`.
pub open spec fn palette_size_spec(o: VectorizeOptions) -> int {
    let base: int = if o.colors < 2 { 2 } else { o.colors as int };
    let d = clamp_spec(o.detail as int, 100, 1000);
    (base * d + 999) / 1000
}

pub fn palette_size_from_options(options: &VectorizeOptions) -> (k: usize)
    ensures
        k as int == palette_size_spec(*options),
        1 <= k <= 255,
{
    let base: u32 = if options.colors < 2 { 2 } else { options.colors as u32 };
    let d: u32 = if options.detail < 100 { 100 } else if options.detail > 1000 { 1000 } else {
        options.detail as u32
    };
    assert(200 <= base * d <= 255000) by (nonlinear_arith)
        requires 2 <= base <= 255, 100 <= d <= 1000;
    ((base * d + 999) / 1000) as usize
}

/// Smoothness clamped to the range 0 to 1000.
pub open spec fn smoothness_spec(o: VectorizeOptions) -> int {
    clamp_spec(o.smoothness as int, 0, 1000)
}

/// The simplification bound in two-thousandths of a pixel, by mode: none for
/// `Logo`, `max(tolerance * 0.5, 0.3)` for `Poster`, `tolerance * 2` for `PixelArt`.
pub open spec fn scaled_tolerance_spec(o: VectorizeOptions) -> Option<int> {
    match o.mode {
        VectorizeMode::Logo => None,
        VectorizeMode::Poster => Some(if o.tolerance < 600 { 600 } else { o.tolerance as int }),
        VectorizeMode::PixelArt => Some(4 * o.tolerance),
    }
}

pub fn scaled_tolerance(options: &VectorizeOptions) -> (t: Option<u32>)
    ensures
        match scaled_tolerance_spec(*options) {
            None => t.is_none(),
            Some(v) => t == Some(v as u32) && v <= 262140,
        },
{
    match options.mode {
        VectorizeMode::Logo => None,
        VectorizeMode::Poster => Some(
            if options.tolerance < 600 {
                600
            } else {
                options.tolerance as u32
            },
        ),
        VectorizeMode::PixelArt => Some(4 * options.tolerance as u32),
    }
}

/// Fill opacity in thousandths: `max(alpha / 255, 0.95)`, rounded to the nearest thousandth.
pub open spec fn opacity_spec(alpha: u8) -> int {
    let v = (alpha * 1000 + 127) / 255;
    if v < 950 {
        950
    } else {
        v
    }
}

pub fn opacity_from_options(alpha: u8, options: &VectorizeOptions) -> (o: u32)
    ensures
        o as int == opacity_spec(alpha),
        950 <= o <= 1000,
{
    let v: u32 = (alpha as u32 * 1000 + 127) / 255;
    if v < 950 {
        950
    } else {
        v
    }
}

} // verus!
