//! Colors, each channel held as the bit pattern of an IEEE-754 single.
use vstd::prelude::*;

verus! {

/// Bit pattern of the single-precision value `1.0`.
pub const ONE_BITS: u32 = 0x3F80_0000;

/// Bit pattern of the single-precision value `0.5`.
pub const HALF_BITS: u32 = 0x3F00_0000;

/// Bit pattern of positive infinity, the largest value above zero.
pub const POS_INFINITY_BITS: u32 = 0x7F80_0000;

/// An RGBA color. Each channel is the bit pattern of a single-precision
/// value, nominally in `[0, 1]`; the range is not enforced.
#[derive(Clone, Copy, Debug, PartialEq, Eq, Structural)]
pub struct Color {
    pub r: u32,
    pub g: u32,
    pub b: u32,
    pub a: u32,
}

/// Whether the single whose bit pattern is `bits` is greater than zero: the
/// sign bit is clear and the value is neither zero nor a NaN.
pub open spec fn is_positive(bits: u32) -> bool {
    0 < bits && bits <= POS_INFINITY_BITS
}

impl Color {
    /// Fully transparent black.
    pub fn transparent() -> (c: Color)
        ensures
            c == (Color { r: 0, g: 0, b: 0, a: 0 }),
    {
        Color { r: 0, g: 0, b: 0, a: 0 }
    }

    /// Opaque black.
    pub fn black() -> (c: Color)
        ensures
            c == (Color { r: 0, g: 0, b: 0, a: ONE_BITS }),
    {
        Color { r: 0, g: 0, b: 0, a: ONE_BITS }
    }

    /// Opaque white.
    pub fn white() -> (c: Color)
        ensures
            c == (Color { r: ONE_BITS, g: ONE_BITS, b: ONE_BITS, a: ONE_BITS }),
    {
        Color { r: ONE_BITS, g: ONE_BITS, b: ONE_BITS, a: ONE_BITS }
    }

    /// Opaque mid gray.
    pub fn gray() -> (c: Color)
        ensures
            c == (Color { r: HALF_BITS, g: HALF_BITS, b: HALF_BITS, a: ONE_BITS }),
    {
        Color { r: HALF_BITS, g: HALF_BITS, b: HALF_BITS, a: ONE_BITS }
    }

    /// Opaque red.
    pub fn red() -> (c: Color)
        ensures
            c == (Color { r: ONE_BITS, g: 0, b: 0, a: ONE_BITS }),
    {
        Color { r: ONE_BITS, g: 0, b: 0, a: ONE_BITS }
    }

    /// Opaque green.
    pub fn green() -> (c: Color)
        ensures
            c == (Color { r: 0, g: ONE_BITS, b: 0, a: ONE_BITS }),
    {
        Color { r: 0, g: ONE_BITS, b: 0, a: ONE_BITS }
    }

    /// Opaque blue.
    pub fn blue() -> (c: Color)
        ensures
            c == (Color { r: 0, g: 0, b: ONE_BITS, a: ONE_BITS }),
    {
        Color { r: 0, g: 0, b: ONE_BITS, a: ONE_BITS }
    }

    /// Opaque yellow.
    pub fn yellow() -> (c: Color)
        ensures
            c == (Color { r: ONE_BITS, g: ONE_BITS, b: 0, a: ONE_BITS }),
    {
        Color { r: ONE_BITS, g: ONE_BITS, b: 0, a: ONE_BITS }
    }

    /// A color from its four channels.
    pub fn new(r: u32, g: u32, b: u32, a: u32) -> (c: Color)
        ensures
            c == (Color { r, g, b, a }),
    {
        Color { r, g, b, a }
    }

    /// Whether the alpha channel is above zero, so that the color is drawn.
    pub fn is_visible(&self) -> (v: bool)
        ensures
            v == is_positive(self.a),
    {
        0 < self.a && self.a <= POS_INFINITY_BITS
    }

    /// The four channels in the order red, green, blue, alpha.
    pub fn channels(&self) -> (v: [u32; 4])
        ensures
            v@ == seq![self.r, self.g, self.b, self.a],
    {
        let v = [self.r, self.g, self.b, self.a];
        assert(v@ =~= seq![self.r, self.g, self.b, self.a]);
        v
    }
}

impl Default for Color {
    /// Transparent black.
    fn default() -> (c: Color)
        ensures
            c == (Color { r: 0, g: 0, b: 0, a: 0 }),
    {
        Color { r: 0, g: 0, b: 0, a: 0 }
    }
}

} // verus!
