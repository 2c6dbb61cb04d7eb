use vstd::prelude::*;

verus! {

/// A decoded RGB image that texture lookups index: `width * height` pixels,
/// row by row from the top, three bytes each.
pub struct ImageTexture {
    pub width: u32,
    pub height: u32,
    pub pixels: Vec<u8>,
}

/// `v` limited to `0..=hi`.
pub open spec fn clamp_to(v: u32, hi: u32) -> u32 {
    if v > hi { hi } else { v }
}

impl ImageTexture {
    /// Both sides are non-zero and the pixel data has three bytes per pixel.
    pub open spec fn wf(&self) -> bool {
        &&& self.width > 0
        &&& self.height > 0
        &&& self.pixels@.len() == 3 * (self.width as int) * (self.height as int)
    }

    /// The first byte of pixel `(x, y)` in the pixel data.
    pub open spec fn offset(&self, x: int, y: int) -> int {
        3 * (y * self.width as int + x)
    }

    /// The texel that a lookup at `(x, y)` finds: the pixel at the coordinates
    /// clamped to the image.
    pub open spec fn spec_texel(&self, x: u32, y: u32) -> [u8; 3] {
        let o = self.offset(
            clamp_to(x, (self.width - 1) as u32) as int,
            clamp_to(y, (self.height - 1) as u32) as int,
        );
        [self.pixels@[o], self.pixels@[o + 1], self.pixels@[o + 2]]
    }

    /// An image of the given size over `pixels`; `None` where a side is zero
    /// or the data does not hold three bytes for each pixel.
    pub fn new(width: u32, height: u32, pixels: Vec<u8>) -> (r: Option<Self>)
        ensures
            r is Some <==> (width > 0 && height > 0 && pixels@.len() == 3 * (width as int) * (height as int)),
            r is Some ==> r->0.wf() && r->0.width == width && r->0.height == height && r->0.pixels@ == pixels@,
    {
        if width == 0 || height == 0 {
            return None;
        }
        let w = width as u128;
        let h = height as u128;
        proof {
            vstd::arithmetic::mul::lemma_mul_upper_bound(w as int, u32::MAX as int, h as int, u32::MAX as int);
        }
        let n = w * h;
        assert(3 * (width as int) * (height as int) == 3 * (w as int * h as int)) by (nonlinear_arith)
            requires
                w as int == width as int,
                h as int == height as int,
        ;
        if pixels.len() as u128 != 3 * n {
            return None;
        }

        Some(ImageTexture { width, height, pixels })
    }

    /// Whether both sides are non-zero and the pixel data has three bytes per
    /// pixel.
    pub fn is_valid(&self) -> (r: bool)
        ensures
            r == self.wf(),
    {
        if self.width == 0 || self.height == 0 {
            return false;
        }
        let w = self.width as u128;
        let h = self.height as u128;
        proof {
            vstd::arithmetic::mul::lemma_mul_upper_bound(w as int, u32::MAX as int, h as int, u32::MAX as int);
        }
        let n = w * h;
        assert(3 * (self.width as int) * (self.height as int) == 3 * (w as int * h as int)) by (nonlinear_arith)
            requires
                w as int == self.width as int,
                h as int == self.height as int,
        ;
        self.pixels.len() as u128 == 3 * n
    }

    /// The three bytes of the pixel at `(x, y)`, each coordinate clamped to the
    /// last column or row.
    pub fn texel(&self, x: u32, y: u32) -> (r: [u8; 3])
        requires
            self.wf(),
        ensures
            r == self.spec_texel(x, y),
    {
        let cx = if x > self.width - 1 { self.width - 1 } else { x };
        let cy = if y > self.height - 1 { self.height - 1 } else { y };
        let w = self.width as usize;
        let len = self.pixels.len();
        let ghost h = self.height as int;
        proof {
            let wi = w as int;
            assert(cy as int * wi + cx as int <= (h - 1) * wi + (wi - 1)) by (nonlinear_arith)
                requires
                    0 <= cy as int <= h - 1,
                    0 <= cx as int <= wi - 1,
            ;
            assert((h - 1) * wi + (wi - 1) == wi * h - 1) by (nonlinear_arith);
            assert(3 * wi * h == 3 * (wi * h)) by (nonlinear_arith);
            assert(0 <= cy as int * wi) by (nonlinear_arith)
                requires
                    0 <= cy as int,
                    0 <= wi,
            ;
            assert(3 * (cy as int * wi + cx as int) + 2 < len);
        }
        let o = 3 * ((cy as usize) * w + (cx as usize));
        [self.pixels[o], self.pixels[o + 1], self.pixels[o + 2]]
    }
}

} // verus!
