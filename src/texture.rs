//! Image textures stored as rows of packed RGB bytes.
use vstd::prelude::*;

verus! {

/// An image as rows of `width` pixels of three bytes each, top row first.
pub struct ImageTexture {
    pub data: Vec<u8>,
    pub width: u32,
    pub height: u32,
    pub bytes_per_scanline: u32,
}

/// Index `i` clamped to the last of `n` positions.
pub open spec fn clamp_index(i: u32, n: u32) -> int {
    if i >= n {
        n - 1
    } else {
        i as int
    }
}

impl ImageTexture {
    pub const BYTES_PER_PIXEL: u32 = 3;

    /// Byte offset of the pixel in column `i` and row `j`, each clamped to
    /// the image.
    pub open spec fn pixel_offset(&self, i: u32, j: u32) -> int {
        clamp_index(j, self.height) * self.bytes_per_scanline + clamp_index(i, self.width)
            * Self::BYTES_PER_PIXEL
    }

    /// The image is not empty and its data holds the three bytes of that pixel.
    pub open spec fn holds_pixel(&self, i: u32, j: u32) -> bool {
        &&& self.width > 0
        &&& self.height > 0
        &&& self.pixel_offset(i, j) + 3 <= self.data.len()
    }

    pub fn construct(data: &[u8], width: u32, height: u32) -> (r: Self)
        requires
            width * Self::BYTES_PER_PIXEL <= u32::MAX,
        ensures
            r.data@ == data@,
            r.width == width,
            r.height == height,
            r.bytes_per_scanline == width * Self::BYTES_PER_PIXEL,
    {
        let mut copy: Vec<u8> = Vec::with_capacity(data.len());
        let mut k: usize = 0;
        while k < data.len()
            invariant
                k <= data.len(),
                copy@ == data@.subrange(0, k as int),
            decreases data.len() - k,
        {
            copy.push(data[k]);
            k += 1;
            assert(copy@ =~= data@.subrange(0, k as int));
        }
        assert(copy@ =~= data@);
        ImageTexture { data: copy, width, height, bytes_per_scanline: width * Self::BYTES_PER_PIXEL }
    }

    /// The red, green and blue bytes of the pixel in column `i` and row `j`,
    /// clamped to the image; `None` where the data does not hold that pixel.
    pub fn texel(&self, i: u32, j: u32) -> (r: Option<(u8, u8, u8)>)
        ensures
            r.is_some() <==> self.holds_pixel(i, j),
            r.is_some() ==> r == Some(
                (
                    self.data@[self.pixel_offset(i, j)],
                    self.data@[self.pixel_offset(i, j) + 1],
                    self.data@[self.pixel_offset(i, j) + 2],
                ),
            ),
    {
        if self.width == 0 || self.height == 0 {
            return None;
        }
        let ci: u128 = if i >= self.width { (self.width - 1) as u128 } else { i as u128 };
        let cj: u128 = if j >= self.height { (self.height - 1) as u128 } else { j as u128 };
        let bps: u128 = self.bytes_per_scanline as u128;
        assert(cj * bps <= 0xffff_ffffu128 * 0xffff_ffffu128) by (nonlinear_arith)
            requires
                cj <= 0xffff_ffffu128,
                bps <= 0xffff_ffffu128,
        ;
        let offset: u128 = cj * bps + ci * 3;
        if offset >= self.data.len() as u128 || self.data.len() as u128 - offset < 3 {
            return None;
        }
        let o: usize = offset as usize;
        Some((self.data[o], self.data[o + 1], self.data[o + 2]))
    }
}

} // verus!
