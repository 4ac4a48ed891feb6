//! RGBA colours with eight bits per channel.

use vstd::prelude::*;
use crate::scalar::Scalar;

verus! {

/// One pixel: red, green, blue and alpha, eight bits each.
#[derive(Clone, Copy, Debug, PartialEq, Eq, Structural)]
pub struct Color {
    pub r: u8,
    pub g: u8,
    pub b: u8,
    pub a: u8,
}

impl Color {
    /// The colour with these channels.
    pub fn new(r: u8, g: u8, b: u8, a: u8) -> (c: Color)
        ensures
            c == (Color { r, g, b, a }),
    {
        Color { r, g, b, a }
    }

    /// The colour whose red, green and blue are the given numbers rounded
    /// toward zero and held to `0..=255`; a channel that is not a number
    /// becomes zero.
    pub fn from_scalars(r: Scalar, g: Scalar, b: Scalar, a: u8) -> (c: Color)
        ensures
            c.r == r.channel(),
            c.g == g.channel(),
            c.b == b.channel(),
            c.a == a,
    {
        Color { r: r.to_u8(), g: g.to_u8(), b: b.to_u8(), a }
    }

    /// Opaque magenta.
    pub fn magenta() -> (c: Color)
        ensures
            c == (Color { r: 255, g: 0, b: 255, a: 255 }),
    {
        Color { r: 255, g: 0, b: 255, a: 255 }
    }

    /// Opaque white.
    pub fn white() -> (c: Color)
        ensures
            c == (Color { r: 255, g: 255, b: 255, a: 255 }),
    {
        Color { r: 255, g: 255, b: 255, a: 255 }
    }
}

/// The seven stops of the rainbow, red first: red, orange, yellow, green,
/// blue, indigo, violet.
pub open spec fn spectrum(k: int) -> Color {
    if k == 0 {
        Color { r: 255, g: 0, b: 0, a: 255 }
    } else if k == 1 {
        Color { r: 255, g: 127, b: 0, a: 255 }
    } else if k == 2 {
        Color { r: 255, g: 255, b: 0, a: 255 }
    } else if k == 3 {
        Color { r: 0, g: 255, b: 0, a: 255 }
    } else if k == 4 {
        Color { r: 0, g: 0, b: 255, a: 255 }
    } else if k == 5 {
        Color { r: 75, g: 0, b: 130, a: 255 }
    } else {
        Color { r: 148, g: 0, b: 211, a: 255 }
    }
}

/// A stop of the rainbow.
pub fn spectrum_stop(k: u8) -> (c: Color)
    ensures
        c == spectrum(k as int),
{
    if k == 0 {
        Color { r: 255, g: 0, b: 0, a: 255 }
    } else if k == 1 {
        Color { r: 255, g: 127, b: 0, a: 255 }
    } else if k == 2 {
        Color { r: 255, g: 255, b: 0, a: 255 }
    } else if k == 3 {
        Color { r: 0, g: 255, b: 0, a: 255 }
    } else if k == 4 {
        Color { r: 0, g: 0, b: 255, a: 255 }
    } else if k == 5 {
        Color { r: 75, g: 0, b: 130, a: 255 }
    } else {
        Color { r: 148, g: 0, b: 211, a: 255 }
    }
}

/// The two stops that segment `index` of the rainbow runs between; there
/// are six segments, numbered from zero, and none beyond.
pub fn rainbow_segment(index: i32) -> (ends: Option<(Color, Color)>)
    ensures
        ends == if 0 <= index <= 5 {
            Some((spectrum(index as int), spectrum(index + 1)))
        } else {
            None
        },
{
    if 0 <= index && index <= 5 {
        let k: u8 = index as u8;
        Some((spectrum_stop(k), spectrum_stop(k + 1)))
    } else {
        None
    }
}

/// The channel of `pixels` that lands at byte `i` of the flattened raster.
pub open spec fn rgba_byte(pixels: Seq<Color>, i: int) -> u8 {
    let c = pixels[i / 4];
    if i % 4 == 0 {
        c.r
    } else if i % 4 == 1 {
        c.g
    } else if i % 4 == 2 {
        c.b
    } else {
        c.a
    }
}

/// Flattens pixels to bytes, four per pixel in the order red, green, blue,
/// alpha, keeping the order of the pixels.
pub fn to_rgba_bytes(pixels: &Vec<Color>) -> (bytes: Vec<u8>)
    ensures
        bytes@.len() == 4 * pixels@.len(),
        forall|i: int| 0 <= i < bytes@.len() ==> bytes@[i] == rgba_byte(pixels@, i),
{
    let mut bytes: Vec<u8> = Vec::new();
    let mut k: usize = 0;
    while k < pixels.len()
        invariant
            k <= pixels@.len(),
            bytes@.len() == 4 * k,
            forall|i: int| 0 <= i < bytes@.len() ==> bytes@[i] == rgba_byte(pixels@, i),
        decreases pixels@.len() - k,
    {
        let c = pixels[k];
        bytes.push(c.r);
        bytes.push(c.g);
        bytes.push(c.b);
        bytes.push(c.a);
        k += 1;
    }
    bytes
}

} // verus!
