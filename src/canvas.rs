use vstd::prelude::*;

verus! {

/// A grid of `width` pixels per row, stored row by row.
pub struct Canvas<P> {
    width: usize,
    pixels: Vec<P>,
}

impl<P: Copy> Canvas<P> {
    /// Pixels per row.
    pub closed spec fn spec_width(&self) -> nat {
        self.width as nat
    }

    /// All pixels, row by row.
    pub closed spec fn spec_pixels(&self) -> Seq<P> {
        self.pixels@
    }

    /// The grid holds whole rows of at least one pixel.
    pub open spec fn wf(&self) -> bool {
        &&& self.spec_width() >= 1
        &&& self.spec_pixels().len() % self.spec_width() == 0
    }

    /// Number of rows.
    pub open spec fn spec_height(&self) -> nat {
        self.spec_pixels().len() / self.spec_width()
    }

    /// A `width` by `height` grid with every pixel `fill`.
    pub fn new(width: usize, height: usize, fill: P) -> (r: Canvas<P>)
        requires
            width >= 1,
            width * height <= usize::MAX,
        ensures
            r.wf(),
            r.spec_width() == width,
            r.spec_height() == height,
            r.spec_pixels() == Seq::new((width * height) as nat, |i: int| fill),
    {
        let n: usize = width * height;
        let mut pixels: Vec<P> = Vec::new();
        let mut i: usize = 0;
        while i < n
            invariant
                i <= n,
                pixels@ == Seq::new(i as nat, |k: int| fill),
            decreases n - i,
        {
            pixels.push(fill);
            i = i + 1;
            assert(pixels@ =~= Seq::new(i as nat, |k: int| fill));
        }
        proof {
            assert(((width * height) as int) % (width as int) == 0) by (nonlinear_arith)
                requires
                    width >= 1,
            ;
            assert(((width * height) as int) / (width as int) == height) by (nonlinear_arith)
                requires
                    width >= 1,
            ;
        }
        Canvas { width, pixels }
    }

    /// Pixels per row.
    pub fn width(&self) -> (r: usize)
        ensures
            r == self.spec_width(),
    {
        self.width
    }

    /// Number of rows.
    pub fn height(&self) -> (r: usize)
        requires
            self.wf(),
        ensures
            r == self.spec_height(),
    {
        self.pixels.len() / self.width
    }

    /// All pixels, row by row.
    pub fn pixels(&self) -> (r: &Vec<P>)
        ensures
            r@ == self.spec_pixels(),
    {
        &self.pixels
    }

    /// Replaces the pixel in column `x` of row `y`.
    pub fn write_pixel(&mut self, x: usize, y: usize, c: P)
        requires
            old(self).wf(),
            x < old(self).spec_width(),
            y < old(self).spec_height(),
        ensures
            final(self).wf(),
            final(self).spec_width() == old(self).spec_width(),
            final(self).spec_pixels() == old(self).spec_pixels().update(
                y * old(self).spec_width() + x,
                c,
            ),
    {
        let i = index_of(self.width, self.pixels.len(), x, y);
        self.pixels.set(i, c);
    }

    /// The pixel in column `x` of row `y`.
    pub fn pixel_at(&self, x: usize, y: usize) -> (r: P)
        requires
            self.wf(),
            x < self.spec_width(),
            y < self.spec_height(),
        ensures
            r == self.spec_pixels()[y * self.spec_width() + x],
    {
        let i = index_of(self.width, self.pixels.len(), x, y);
        self.pixels[i]
    }
}

/// Position of column `x` of row `y` among `len` pixels stored row by row.
fn index_of(width: usize, len: usize, x: usize, y: usize) -> (r: usize)
    requires
        width >= 1,
        x < width,
        y < (len as int) / (width as int),
    ensures
        r == y * width + x,
        r < len,
{
    proof {
        assert(y * width + x < len) by (nonlinear_arith)
            requires
                width >= 1,
                x < width,
                y < (len as int) / (width as int),
        ;
    }
    y * width + x
}

} // verus!
