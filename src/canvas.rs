use vstd::prelude::*;

verus! {

/// A `width` x `height` grid of pixels, stored row by row.
pub struct Canvas<T> {
    width: usize,
    height: usize,
    pixels: Vec<T>,
}

impl<T: Copy> Canvas<T> {
    /// The pixels, row by row: pixel `(x, y)` is at `y * width + x`.
    pub closed spec fn pixels(&self) -> Seq<T> {
        self.pixels@
    }

    pub closed spec fn spec_width(&self) -> usize {
        self.width
    }

    pub closed spec fn spec_height(&self) -> usize {
        self.height
    }

    pub fn width(&self) -> (r: usize)
        ensures
            r == self.spec_width(),
    {
        self.width
    }

    pub fn height(&self) -> (r: usize)
        ensures
            r == self.spec_height(),
    {
        self.height
    }

    /// The pixels fill the rows, and their count fits in memory.
    pub closed spec fn wf(&self) -> bool {
        &&& self.pixels@.len() == self.width * self.height
        &&& self.width * self.height <= usize::MAX
    }

    /// The pixels of a well-formed canvas fill its rows, and their count fits
    /// in memory.
    pub proof fn lemma_well_formed(&self)
        requires
            self.wf(),
        ensures
            self.pixels().len() == self.spec_width() * self.spec_height(),
            self.spec_width() * self.spec_height() <= usize::MAX,
    {
    }

    /// A canvas whose every pixel is `fill`.
    pub fn new(width: usize, height: usize, fill: T) -> (r: Canvas<T>)
        requires
            width * height <= usize::MAX,
        ensures
            r.wf(),
            r.spec_width() == width,
            r.spec_height() == height,
            r.pixels().len() == width * height,
            forall|i: int| 0 <= i < r.pixels().len() ==> r.pixels()[i] == fill,
    {
        let n: usize = width * height;
        let mut pixels: Vec<T> = Vec::new();
        let mut k: usize = 0;
        while k < n
            invariant
                k <= n,
                pixels.len() == k,
                forall|i: int| 0 <= i < k ==> pixels@[i] == fill,
            decreases n - k,
        {
            pixels.push(fill);
            k = k + 1;
        }
        Canvas { width, height, pixels }
    }

    /// Sets pixel `(x, y)` to `c`; a position outside the canvas changes nothing.
    pub fn write_pixel(&mut self, x: usize, y: usize, c: T)
        requires
            old(self).wf(),
        ensures
            final(self).wf(),
            final(self).spec_width() == old(self).spec_width(),
            final(self).spec_height() == old(self).spec_height(),
            x < old(self).spec_width() && y < old(self).spec_height() ==> final(self).pixels() == old(self).pixels().update(
                y * old(self).spec_width() + x,
                c,
            ),
            !(x < old(self).spec_width() && y < old(self).spec_height()) ==> final(self).pixels() == old(self).pixels(),
    {
        if x >= self.width || y >= self.height {
            return;
        }
        proof {
            assert(y * self.width + x < self.width * self.height) by (nonlinear_arith)
                requires x < self.width, y < self.height;
        }
        let i = y * self.width + x;
        self.pixels.set(i, c);
    }

    /// The pixel at column `x`, row `y`.
    pub fn pixel_at(&self, x: usize, y: usize) -> (r: T)
        requires
            self.wf(),
            x < self.spec_width(),
            y < self.spec_height(),
        ensures
            r == self.pixels()[y * self.spec_width() + x],
    {
        proof {
            assert(y * self.width + x < self.width * self.height) by (nonlinear_arith)
                requires x < self.width, y < self.height;
        }
        self.pixels[y * self.width + x]
    }
}

} // verus!
