//! A single-axis length: whole pixels, a fraction of the parent, or automatic.
use vstd::prelude::*;

verus! {

/// Tag bits of a packed coordinate that mark a pixel length.
pub const PX: u64 = 0x1_0000_0000;

/// Tag bits of a packed coordinate that mark a fraction.
pub const PERC: u64 = 0x2_0000_0000;

/// Mask of the tag bits of a packed coordinate.
pub const ALL: u64 = 0x3_0000_0000;

/// Denominator of fractions: `Perc(10000)` is the whole of the parent's length.
pub const PERC_ONE: i64 = 10000;

/// The value a coordinate holds.
#[derive(Clone, Copy, Debug, PartialEq, Eq, Structural)]
pub enum CoordValue {
    /// A length in whole pixels.
    Px(i32),
    /// A fraction of the parent's (or the viewport's) length, in parts of `PERC_ONE`.
    Perc(i32),
    /// Determined by the content, or by the parent's origin for an offset.
    Auto,
}

/// Reads back the value packed in a word: the tag in bits 32 and 33, the
/// payload in the low 32 bits. The unused tag 3 reads as `Auto`.
pub open spec fn decode(bits: u64) -> CoordValue {
    let tag = bits & ALL;
    if tag == PX {
        CoordValue::Px((bits as u32) as i32)
    } else if tag == PERC {
        CoordValue::Perc((bits as u32) as i32)
    } else {
        CoordValue::Auto
    }
}

/// A coordinate packed into one 64-bit word, so that it is written and read
/// as a single unit.
#[derive(Clone, Copy, Debug)]
pub struct Coord {
    bits: u64,
}

impl View for Coord {
    type V = CoordValue;

    closed spec fn view(&self) -> CoordValue {
        decode(self.bits)
    }
}

proof fn lemma_pack(v: i32, tag: u64)
    requires
        tag == PX || tag == PERC,
    ensures
        ((v as u32) as u64 | tag) & ALL == tag,
        ((((v as u32) as u64 | tag) as u32) as i32) == v,
{
    assert(((v as u32) as u64 | tag) & ALL == tag) by (bit_vector)
        requires
            tag == 0x1_0000_0000u64 || tag == 0x2_0000_0000u64,
    ;
    assert(((((v as u32) as u64 | tag) as u32) as i32) == v) by (bit_vector)
        requires
            tag == 0x1_0000_0000u64 || tag == 0x2_0000_0000u64,
    ;
}

impl Coord {
    /// An automatic coordinate.
    pub fn new() -> (r: Coord)
        ensures
            r@ == CoordValue::Auto,
    {
        let r = Coord { bits: 0 };
        assert(0u64 & ALL == 0) by (bit_vector);
        r
    }

    /// Stores a length of `v` pixels.
    pub fn set_px(&mut self, v: i32)
        ensures
            final(self)@ == CoordValue::Px(v),
    {
        proof {
            lemma_pack(v, PX);
        }
        self.bits = (v as u32) as u64 | PX;
    }

    /// Stores a fraction of `v / PERC_ONE` of the parent's length.
    pub fn set_perc(&mut self, v: i32)
        ensures
            final(self)@ == CoordValue::Perc(v),
    {
        proof {
            lemma_pack(v, PERC);
        }
        self.bits = (v as u32) as u64 | PERC;
    }

    /// Makes the coordinate automatic.
    pub fn set_auto(&mut self)
        ensures
            final(self)@ == CoordValue::Auto,
    {
        assert(0u64 & ALL == 0) by (bit_vector);
        self.bits = 0;
    }

    /// The value stored last.
    pub fn get(&self) -> (r: CoordValue)
        ensures
            r == self@,
    {
        let v = self.bits;
        let tag = v & ALL;
        if tag == PX {
            CoordValue::Px((v as u32) as i32)
        } else if tag == PERC {
            CoordValue::Perc((v as u32) as i32)
        } else {
            CoordValue::Auto
        }
    }
}

impl Default for Coord {
    fn default() -> (r: Coord)
        ensures
            r@ == CoordValue::Auto,
    {
        Coord::new()
    }
}

} // verus!
