use vstd::prelude::*;

verus! {

/// A decoded raster image: `width * height` pixels in row-major order,
/// four bytes per pixel (red, green, blue, alpha).
pub struct Bitmap {
    pub width: u32,
    pub height: u32,
    pub pixels: Vec<u8>,
}

impl Bitmap {
    /// Well-formed: the buffer holds exactly four bytes per pixel.
    pub open spec fn wf(self) -> bool {
        self.pixels@.len() == 4 * (self.width as int) * (self.height as int)
    }

    /// Byte index of channel `c` of the pixel at `(x, y)`.
    pub open spec fn byte_index(self, x: int, y: int, c: int) -> int {
        4 * (y * (self.width as int) + x) + c
    }

    /// Channel `c` (0 red, 1 green, 2 blue, 3 alpha) of the pixel at `(x, y)`.
    pub open spec fn channel(self, x: int, y: int, c: int) -> u8 {
        self.pixels@[self.byte_index(x, y, c)]
    }

    pub proof fn lemma_byte_index_in_range(self, x: int, y: int, c: int)
        requires
            self.wf(),
            0 <= x < self.width,
            0 <= y < self.height,
            0 <= c < 4,
        ensures
            0 <= self.byte_index(x, y, c),
            self.byte_index(x, y, c) < self.pixels@.len(),
    {
        let w = self.width as int;
        let h = self.height as int;
        assert(0 <= y * w + x && 4 * (y * w + x) + c < 4 * w * h) by (nonlinear_arith)
            requires
                0 <= x < w,
                0 <= y < h,
                0 <= c < 4,
        ;
    }

    /// Builds a bitmap when the buffer length matches the dimensions.
    pub fn new(width: u32, height: u32, pixels: Vec<u8>) -> (r: Option<Bitmap>)
        ensures
            match r {
                Some(b) => b.wf() && b.width == width && b.height == height
                    && b.pixels@ == pixels@,
                None => pixels@.len() != 4 * (width as int) * (height as int),
            },
    {
        proof {
            assert(0 <= 4 * (width as int) * (height as int)
                < 0x100_0000_0000_0000_0000) by (nonlinear_arith)
                requires
                    width < 0x1_0000_0000,
                    height < 0x1_0000_0000,
            ;
        }
        if (pixels.len() as u128) == 4u128 * (width as u128) * (height as u128) {
            Some(Bitmap { width, height, pixels })
        } else {
            None
        }
    }

    /// Reads channel `c` of the pixel at `(x, y)`.
    pub fn channel_at(&self, x: usize, y: usize, c: usize) -> (r: u8)
        requires
            self.wf(),
            x < self.width,
            y < self.height,
            c < 4,
        ensures
            r == self.channel(x as int, y as int, c as int),
    {
        let n: usize = self.pixels.len();
        proof {
            self.lemma_byte_index_in_range(x as int, y as int, c as int);
            assert(4 * ((y as int) * (self.width as int) + (x as int)) + (c as int)
                < n as int);
            assert((y as int) * (self.width as int) + (x as int) < n as int);
        }
        let row: usize = y * (self.width as usize);
        let idx: usize = 4 * (row + x) + c;
        self.pixels[idx]
    }
}

} // verus!
