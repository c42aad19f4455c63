use vstd::prelude::*;

verus! {

/// A voxel colour packed into 4 bytes: alpha in the top byte, then red,
/// green and blue.
#[derive(Debug, Clone, Copy, PartialEq, Eq, Structural)]
pub struct Voxel(u32);

impl Voxel {
    /// The all-zero voxel (no colour, alpha 0).
    pub fn empty() -> (v: Voxel)
        ensures
            v.packed() == 0,
    {
        Voxel(0)
    }

    /// The packed 32-bit value.
    pub closed spec fn packed(self) -> u32 {
        self.0
    }

    /// The red channel as a pure function of the packed value.
    pub open spec fn spec_r(self) -> u8 {
        ((self.packed() >> 16u32) & 0xFFu32) as u8
    }

    /// The green channel as a pure function of the packed value.
    pub open spec fn spec_g(self) -> u8 {
        ((self.packed() >> 8u32) & 0xFFu32) as u8
    }

    /// The blue channel as a pure function of the packed value.
    pub open spec fn spec_b(self) -> u8 {
        (self.packed() & 0xFFu32) as u8
    }

    /// The packed value of an opaque voxel with the given channels.
    pub open spec fn pack(r: u8, g: u8, b: u8) -> u32 {
        0xFF00_0000u32 | ((r as u32) << 16u32) | ((g as u32) << 8u32) | (b as u32)
    }

    /// Packs an opaque colour (alpha byte 0xFF).
    pub fn new(r: u8, g: u8, b: u8) -> (v: Voxel)
        ensures
            v.packed() == Voxel::pack(r, g, b),
            v.spec_r() == r,
            v.spec_g() == g,
            v.spec_b() == b,
    {
        let v = Voxel(0xFF00_0000u32 | ((r as u32) << 16u32) | ((g as u32) << 8u32) | (b as u32));
        proof {
            lemma_pack_channels(r, g, b);
        }
        v
    }

    /// Red channel.
    pub fn r(self) -> (c: u8)
        ensures
            c == self.spec_r(),
    {
        ((self.0 >> 16u32) & 0xFFu32) as u8
    }

    /// Green channel.
    pub fn g(self) -> (c: u8)
        ensures
            c == self.spec_g(),
    {
        ((self.0 >> 8u32) & 0xFFu32) as u8
    }

    /// Blue channel.
    pub fn b(self) -> (c: u8)
        ensures
            c == self.spec_b(),
    {
        (self.0 & 0xFFu32) as u8
    }
}

/// Reading the channels of a packed colour gives back the channels it was
/// packed from.
pub proof fn lemma_pack_channels(r: u8, g: u8, b: u8)
    ensures
        ((Voxel::pack(r, g, b) >> 16u32) & 0xFFu32) as u8 == r,
        ((Voxel::pack(r, g, b) >> 8u32) & 0xFFu32) as u8 == g,
        (Voxel::pack(r, g, b) & 0xFFu32) as u8 == b,
{
    let rr = r as u32;
    let gg = g as u32;
    let bb = b as u32;
    assert(rr < 256 && gg < 256 && bb < 256);
    assert(((0xFF00_0000u32 | (rr << 16u32) | (gg << 8u32) | bb) >> 16u32) & 0xFFu32 == rr)
        by (bit_vector)
        requires
            rr < 256,
            gg < 256,
            bb < 256,
    ;
    assert(((0xFF00_0000u32 | (rr << 16u32) | (gg << 8u32) | bb) >> 8u32) & 0xFFu32 == gg)
        by (bit_vector)
        requires
            rr < 256,
            gg < 256,
            bb < 256,
    ;
    assert((0xFF00_0000u32 | (rr << 16u32) | (gg << 8u32) | bb) & 0xFFu32 == bb) by (bit_vector)
        requires
            rr < 256,
            gg < 256,
            bb < 256,
    ;
}

} // verus!
