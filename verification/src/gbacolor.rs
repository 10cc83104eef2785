//! The color unit: a 16-bit packed color with 5 bits per channel.

use vstd::prelude::*;

verus! {

/// A packed 16-bit color: bits 0..5 are red, 5..10 green, 10..15 blue,
/// the highest bit unused.  Channel intensities are reported widened to
/// 8 bits (each 5-bit value multiplied by 8).
#[derive(Clone, Copy, Debug, PartialEq, Eq, Structural)]
pub struct GBAColor(pub u16);

impl GBAColor {
    /// The red channel, widened to 8 bits.
    pub open spec fn spec_r(self) -> u8 {
        ((self.0 & 0x1F) * 8) as u8
    }

    /// The green channel, widened to 8 bits.
    pub open spec fn spec_g(self) -> u8 {
        (((self.0 >> 5) & 0x1F) * 8) as u8
    }

    /// The blue channel, widened to 8 bits.
    pub open spec fn spec_b(self) -> u8 {
        (((self.0 >> 10) & 0x1F) * 8) as u8
    }

    pub fn r(&self) -> (r: u8)
        ensures
            r == self.spec_r(),
    {
        let w: u16 = self.0;
        proof {
            assert((w & 0x1F) * 8 < 256) by (bit_vector);
        }
        ((w & 0x1F) * 8) as u8
    }

    pub fn g(&self) -> (r: u8)
        ensures
            r == self.spec_g(),
    {
        let w: u16 = self.0;
        proof {
            assert(((w >> 5) & 0x1F) * 8 < 256) by (bit_vector);
        }
        (((w >> 5) & 0x1F) * 8) as u8
    }

    pub fn b(&self) -> (r: u8)
        ensures
            r == self.spec_b(),
    {
        let w: u16 = self.0;
        proof {
            assert(((w >> 10) & 0x1F) * 8 < 256) by (bit_vector);
        }
        (((w >> 10) & 0x1F) * 8) as u8
    }

    /// All three channels at once, in (red, green, blue) order.
    pub fn to_rgb(&self) -> (r: (u8, u8, u8))
        ensures
            r == (self.spec_r(), self.spec_g(), self.spec_b()),
    {
        (self.r(), self.g(), self.b())
    }

    /// The color as a single `0x00RRGGBB` word.
    pub open spec fn spec_to_rgb_u32(self) -> u32 {
        ((self.spec_r() as u32) << 16) | ((self.spec_g() as u32) << 8) | (self.spec_b() as u32)
    }

    pub fn to_rgb_u32(&self) -> (r: u32)
        ensures
            r == self.spec_to_rgb_u32(),
    {
        let (red, green, blue) = self.to_rgb();
        ((red as u32) << 16) | ((green as u32) << 8) | (blue as u32)
    }
}

} // verus!
