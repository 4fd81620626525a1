use vstd::prelude::*;
use crate::text::{hex_byte, push_hex_byte};

verus! {

/// An RGBA colour with eight bits per channel.
#[derive(Clone, Copy, Debug, PartialEq, Eq, Structural)]
pub struct Color {
    pub r: u8,
    pub g: u8,
    pub b: u8,
    pub a: u8,
}

/// Squared Euclidean distance over the four channels.
pub open spec fn distance_spec(p: Color, q: Color) -> int {
    (p.r - q.r) * (p.r - q.r) + (p.g - q.g) * (p.g - q.g) + (p.b - q.b) * (p.b - q.b) + (p.a
        - q.a) * (p.a - q.a)
}

pub fn color_distance(p: Color, q: Color) -> (d: u32)
    ensures
        d as int == distance_spec(p, q),
        d <= 260100,
{
    let dr: i32 = p.r as i32 - q.r as i32;
    let dg: i32 = p.g as i32 - q.g as i32;
    let db: i32 = p.b as i32 - q.b as i32;
    let da: i32 = p.a as i32 - q.a as i32;
    assert(0 <= dr * dr <= 65025) by (nonlinear_arith)
        requires -255 <= dr <= 255;
    assert(0 <= dg * dg <= 65025) by (nonlinear_arith)
        requires -255 <= dg <= 255;
    assert(0 <= db * db <= 65025) by (nonlinear_arith)
        requires -255 <= db <= 255;
    assert(0 <= da * da <= 65025) by (nonlinear_arith)
        requires -255 <= da <= 255;
    (dr * dr + dg * dg + db * db + da * da) as u32
}

/// The colour's red, green and blue channels as six lower-case hexadecimal digits.
pub open spec fn hex_spec(c: Color) -> Seq<char> {
    hex_byte(c.r) + hex_byte(c.g) + hex_byte(c.b)
}

pub fn to_hex(c: Color) -> (s: String)
    ensures
        s@ == hex_spec(c),
{
    let mut s = String::new();
    push_hex_byte(&mut s, c.r);
    push_hex_byte(&mut s, c.g);
    push_hex_byte(&mut s, c.b);
    assert(s@ =~= hex_spec(c));
    s
}

/// The fully transparent colour that stands for pixels with alpha zero.
pub open spec fn transparent_spec() -> Color {
    Color { r: 0, g: 0, b: 0, a: 0 }
}

pub fn transparent() -> (c: Color)
    ensures
        c == transparent_spec(),
{
    Color { r: 0, g: 0, b: 0, a: 0 }
}

/// The value of channel `dim` (0 red, 1 green, 2 blue, otherwise alpha).
pub open spec fn channel_spec(c: Color, dim: nat) -> u8 {
    if dim == 0 {
        c.r
    } else if dim == 1 {
        c.g
    } else if dim == 2 {
        c.b
    } else {
        c.a
    }
}

pub fn channel(c: Color, dim: usize) -> (v: u8)
    ensures
        v == channel_spec(c, dim as nat),
{
    if dim == 0 {
        c.r
    } else if dim == 1 {
        c.g
    } else if dim == 2 {
        c.b
    } else {
        c.a
    }
}

} // verus!
