use vstd::math::max;
use vstd::math::min;
use vstd::prelude::*;

verus! {

/// An RGB color with three 8-bit channels.
#[derive(Clone, Copy, Debug, PartialEq, Eq, Structural)]
pub struct Color {
    pub r: u8,
    pub g: u8,
    pub b: u8,
}

/// The 24-bit packed form `0xRRGGBB` of three channels.
pub open spec fn pack_hex(r: u8, g: u8, b: u8) -> u32 {
    ((r as u32) << 16) | ((g as u32) << 8) | (b as u32)
}

/// The color whose channels are the three low bytes of `hex` (`0xRRGGBB`).
pub open spec fn unpack_hex(hex: u32) -> Color {
    Color { r: ((hex >> 16) & 0xFF) as u8, g: ((hex >> 8) & 0xFF) as u8, b: (hex & 0xFF) as u8 }
}

impl Color {
    /// The 24-bit packed form of this color.
    pub open spec fn spec_to_hex(self) -> u32 {
        pack_hex(self.r, self.g, self.b)
    }

    pub fn new(r: u8, g: u8, b: u8) -> (c: Color)
        ensures
            c == (Color { r, g, b }),
    {
        Color { r, g, b }
    }

    pub fn from_hex(hex: u32) -> (c: Color)
        ensures
            c == unpack_hex(hex),
    {
        let r = ((hex >> 16) & 0xFF) as u8;
        let g = ((hex >> 8) & 0xFF) as u8;
        let b = (hex & 0xFF) as u8;
        Color { r, g, b }
    }

    pub fn to_hex(&self) -> (h: u32)
        ensures
            h == self.spec_to_hex(),
            h <= 0xFFFFFF,
    {
        proof {
            lemma_pack_hex_bounded(self.r, self.g, self.b);
        }
        ((self.r as u32) << 16) | ((self.g as u32) << 8) | (self.b as u32)
    }

    /// Per-channel saturating addition: each channel is clamped at 255.
    pub fn add(self, other: Color) -> (c: Color)
        ensures
            c.r as int == min(self.r as int + other.r as int, 255),
            c.g as int == min(self.g as int + other.g as int, 255),
            c.b as int == min(self.b as int + other.b as int, 255),
    {
        Color {
            r: sat_add_u8(self.r, other.r),
            g: sat_add_u8(self.g, other.g),
            b: sat_add_u8(self.b, other.b),
        }
    }

    /// Per-channel saturating subtraction: each channel is clamped at 0.
    pub fn sub(self, other: Color) -> (c: Color)
        ensures
            c.r as int == max(self.r as int - other.r as int, 0),
            c.g as int == max(self.g as int - other.g as int, 0),
            c.b as int == max(self.b as int - other.b as int, 0),
    {
        Color {
            r: sat_sub_u8(self.r, other.r),
            g: sat_sub_u8(self.g, other.g),
            b: sat_sub_u8(self.b, other.b),
        }
    }

    /// Scaling by the non-negative factor `num / den`: each channel is scaled,
    /// truncated, and clamped at 255.
    pub fn mul(self, num: u32, den: u32) -> (c: Color)
        requires
            den > 0,
        ensures
            c.r as int == min(self.r as int * num as int / den as int, 255),
            c.g as int == min(self.g as int * num as int / den as int, 255),
            c.b as int == min(self.b as int * num as int / den as int, 255),
    {
        Color {
            r: scale_channel(self.r, num, den),
            g: scale_channel(self.g, num, den),
            b: scale_channel(self.b, num, den),
        }
    }
}

fn sat_add_u8(a: u8, b: u8) -> (c: u8)
    ensures
        c as int == min(a as int + b as int, 255),
{
    let s: u16 = a as u16 + b as u16;
    if s > 255 {
        255
    } else {
        s as u8
    }
}

fn sat_sub_u8(a: u8, b: u8) -> (c: u8)
    ensures
        c as int == max(a as int - b as int, 0),
{
    if a > b {
        a - b
    } else {
        0
    }
}

fn scale_channel(ch: u8, num: u32, den: u32) -> (c: u8)
    requires
        den > 0,
    ensures
        c as int == min(ch as int * num as int / den as int, 255),
{
    proof {
        assert(ch as int * num as int <= 255 * 0xFFFF_FFFF) by (nonlinear_arith)
            requires
                ch as int <= 255 && num as int <= 0xFFFF_FFFF,
        ;
    }
    let q: u64 = ch as u64 * num as u64 / den as u64;
    if q > 255 {
        255
    } else {
        q as u8
    }
}

proof fn lemma_pack_hex_bounded(r: u8, g: u8, b: u8)
    ensures
        pack_hex(r, g, b) <= 0xFFFFFF,
{
    assert(((r as u32) << 16) | ((g as u32) << 8) | (b as u32) <= 0xFFFFFF) by (bit_vector);
}

/// Packing three channels and unpacking them again gives the channels back:
/// the two hex conversions are mutually inverse on colors.
pub proof fn lemma_color_hex_round_trip(c: Color)
    ensures
        unpack_hex(c.spec_to_hex()) == c,
{
    let r = c.r;
    let g = c.g;
    let b = c.b;
    assert((((((r as u32) << 16) | ((g as u32) << 8) | (b as u32)) >> 16) & 0xFF) as u8 == r
        && (((((r as u32) << 16) | ((g as u32) << 8) | (b as u32)) >> 8) & 0xFF) as u8 == g
        && ((((r as u32) << 16) | ((g as u32) << 8) | (b as u32)) & 0xFF) as u8 == b) by (bit_vector);
}

/// Unpacking a 24-bit value and packing the result again gives the value back:
/// the two hex conversions are mutually inverse on 24-bit values.
pub proof fn lemma_hex_color_round_trip(hex: u32)
    requires
        hex <= 0xFFFFFF,
    ensures
        unpack_hex(hex).spec_to_hex() == hex,
{
    let r = ((hex >> 16) & 0xFF) as u8;
    let g = ((hex >> 8) & 0xFF) as u8;
    let b = (hex & 0xFF) as u8;
    assert(((r as u32) << 16) | ((g as u32) << 8) | (b as u32) == hex) by (bit_vector)
        requires
            hex <= 0xFFFFFF && r == ((hex >> 16) & 0xFF) as u8 && g == ((hex >> 8) & 0xFF) as u8
                && b == (hex & 0xFF) as u8,
    ;
}

} // verus!
