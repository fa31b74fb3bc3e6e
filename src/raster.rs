use vstd::prelude::*;

verus! {

/// One 8-bit-per-channel RGBA pixel.
#[derive(Clone, Copy, Debug, PartialEq, Eq, Structural)]
pub struct PixelRGBA {
    pub r: u8,
    pub g: u8,
    pub b: u8,
    pub a: u8,
}

/// A row-major raster with its origin at the top left.
#[derive(Debug)]
pub struct RasterImage {
    pub width: u32,
    pub height: u32,
    pub pixels: Vec<PixelRGBA>,
}

impl RasterImage {
    /// The buffer holds exactly one pixel per position.
    pub open spec fn wf(&self) -> bool {
        &&& self.pixels@.len() == self.width as int * self.height as int
        &&& self.width as int * self.height as int <= usize::MAX
    }

    /// The pixel at column `x` and row `y`.
    pub open spec fn pixel_at(&self, x: int, y: int) -> PixelRGBA {
        self.pixels@[y * self.width as int + x]
    }

    /// A raster of the given size whose pixels are all zero.
    pub fn new(width: u32, height: u32) -> (r: RasterImage)
        requires
            width as int * height as int <= usize::MAX,
        ensures
            r.wf(),
            r.width == width,
            r.height == height,
            forall|i: int| 0 <= i < r.pixels@.len() ==> r.pixels@[i] == (PixelRGBA { r: 0, g: 0, b: 0, a: 0 }),
    {
        let n: usize = (width as usize) * (height as usize);
        let blank = PixelRGBA { r: 0, g: 0, b: 0, a: 0 };
        let mut pixels: Vec<PixelRGBA> = Vec::with_capacity(n);
        let mut i: usize = 0;
        while i < n
            invariant
                i <= n,
                pixels@.len() == i,
                forall|j: int| 0 <= j < i ==> pixels@[j] == blank,
            decreases n - i,
        {
            pixels.push(blank);
            i = i + 1;
        }
        RasterImage { width, height, pixels }
    }

    /// Whether the buffer holds one pixel per position and the raster is at
    /// least one pixel wide and high.
    pub fn is_tileable(&self) -> (r: bool)
        ensures
            r == (self.wf() && self.width > 0 && self.height > 0),
    {
        if self.width == 0 || self.height == 0 {
            return false;
        }
        let w: usize = self.width as usize;
        let h: usize = self.height as usize;
        if w > usize::MAX / h {
            proof {
                assert(w * h > usize::MAX) by (nonlinear_arith)
                    requires
                        h > 0,
                        w > usize::MAX / h,
                ;
            }
            return false;
        }
        proof {
            assert(w * h <= usize::MAX) by (nonlinear_arith)
                requires
                    h > 0,
                    w <= usize::MAX / h,
            ;
        }
        self.pixels.len() == w * h
    }

    /// The pixel at column `x` and row `y`.
    pub fn get(&self, x: u32, y: u32) -> (r: PixelRGBA)
        requires
            self.wf(),
            x < self.width,
            y < self.height,
        ensures
            r == self.pixel_at(x as int, y as int),
    {
        proof {
            assert(y as int * self.width as int + x < self.width as int * self.height as int) by (nonlinear_arith)
                requires
                    x < self.width,
                    y < self.height,
            ;
        }
        self.pixels[(y as usize) * (self.width as usize) + (x as usize)]
    }
}

} // verus!
