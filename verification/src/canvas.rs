//! The raster that a render writes into.
//!
//! A canvas is a `width × height` grid of pixels stored row by row. Pixel
//! `(0, 0)` is the top-left corner, `x` counts columns and `y` counts rows.
//! The pixel type is a parameter: the canvas stores and returns pixels
//! without looking inside them.
use vstd::prelude::*;

verus! {

/// Position of pixel `(x, y)` in a row-major raster of the given width.
pub open spec fn pixel_index(width: int, x: int, y: int) -> int {
    y * width + x
}

/// Every coordinate inside a `width × height` raster has a position below
/// `width * height`.
pub proof fn lemma_pixel_index_in_range(width: int, height: int, x: int, y: int)
    requires
        0 <= x < width,
        0 <= y < height,
    ensures
        0 <= pixel_index(width, x, y) < width * height,
{
    assert(y * width <= (height - 1) * width) by (nonlinear_arith)
        requires
            0 <= y <= height - 1,
            0 <= width,
    ;
    assert((height - 1) * width == height * width - width) by (nonlinear_arith);
    assert(height * width == width * height) by (nonlinear_arith);
    assert(0 <= y * width) by (nonlinear_arith)
        requires
            0 <= y,
            0 <= width,
    ;
}

/// Two coordinates inside a raster share a position only if they are the
/// same coordinate: no two pixels overlap in storage.
pub proof fn lemma_pixel_index_injective(width: int, x1: int, y1: int, x2: int, y2: int)
    requires
        0 <= x1 < width,
        0 <= x2 < width,
        0 <= y1,
        0 <= y2,
        pixel_index(width, x1, y1) == pixel_index(width, x2, y2),
    ensures
        x1 == x2,
        y1 == y2,
{
    if y1 < y2 {
        assert(y2 * width >= (y1 + 1) * width) by (nonlinear_arith)
            requires
                y2 >= y1 + 1,
                0 <= width,
        ;
        assert((y1 + 1) * width == y1 * width + width) by (nonlinear_arith);
    } else if y2 < y1 {
        assert(y1 * width >= (y2 + 1) * width) by (nonlinear_arith)
            requires
                y1 >= y2 + 1,
                0 <= width,
        ;
        assert((y2 + 1) * width == y2 * width + width) by (nonlinear_arith);
    }
}

/// A `width × height` raster of pixels of type `P`.
#[derive(Debug)]
pub struct Canvas<P> {
    width: usize,
    height: usize,
    pixels: Vec<P>,
}

impl<P> Canvas<P> {
    #[verifier::type_invariant]
    spec fn well_formed(self) -> bool {
        self.pixels@.len() == self.width * self.height
    }

    /// Number of columns.
    pub closed spec fn spec_width(&self) -> nat {
        self.width as nat
    }

    /// Number of rows.
    pub closed spec fn spec_height(&self) -> nat {
        self.height as nat
    }

    /// The pixels in storage order: row by row from the top, each row from
    /// left to right.
    pub closed spec fn view(&self) -> Seq<P> {
        self.pixels@
    }

    /// The pixel in column `x` of row `y`.
    pub open spec fn at(&self, x: int, y: int) -> P {
        self@[pixel_index(self.spec_width() as int, x, y)]
    }
}

impl<P: Copy> Canvas<P> {
    /// A canvas whose every pixel is `fill`.
    pub fn new(width: usize, height: usize, fill: P) -> (canvas: Self)
        requires
            width * height <= usize::MAX,
        ensures
            canvas.spec_width() == width,
            canvas.spec_height() == height,
            canvas@ == Seq::new((width * height) as nat, |i: int| fill),
    {
        let count: usize = width * height;
        let mut pixels: Vec<P> = Vec::new();
        let mut filled: usize = 0;
        while filled < count
            invariant
                filled <= count,
                pixels@ == Seq::new(filled as nat, |i: int| fill),
            decreases count - filled,
        {
            pixels.push(fill);
            filled += 1;
        }
        Canvas { width, height, pixels }
    }

    /// Number of columns.
    pub fn width(&self) -> (width: usize)
        ensures
            width == self.spec_width(),
    {
        self.width
    }

    /// Number of rows.
    pub fn height(&self) -> (height: usize)
        ensures
            height == self.spec_height(),
    {
        self.height
    }

    /// The pixel in column `x` of row `y`.
    pub fn pixel(&self, x: usize, y: usize) -> (pixel: &P)
        requires
            x < self.spec_width(),
            y < self.spec_height(),
        ensures
            *pixel == self.at(x as int, y as int),
    {
        proof {
            use_type_invariant(self);
            lemma_pixel_index_in_range(self.width as int, self.height as int, x as int, y as int);
            assert(self.pixels.len() == self.width * self.height);
            assert(0 <= y * self.width) by (nonlinear_arith);
        }
        &self.pixels[y * self.width + x]
    }

    /// All pixels in storage order; there are `width * height` of them.
    pub fn pixels(&self) -> (pixels: &[P])
        ensures
            pixels@ == self@,
            pixels@.len() == self.spec_width() * self.spec_height(),
    {
        proof {
            use_type_invariant(self);
        }
        self.pixels.as_slice()
    }

    /// Replaces the pixel in column `x` of row `y` by `color` and leaves
    /// every other pixel as it was.
    pub fn set_pixel(&mut self, x: usize, y: usize, color: &P)
        requires
            x < old(self).spec_width(),
            y < old(self).spec_height(),
        ensures
            final(self).spec_width() == old(self).spec_width(),
            final(self).spec_height() == old(self).spec_height(),
            final(self)@.len() == old(self)@.len(),
            final(self)@ == old(self)@.update(
                pixel_index(old(self).spec_width() as int, x as int, y as int),
                *color,
            ),
            final(self).at(x as int, y as int) == *color,
            forall|other_x: int, other_y: int|
                0 <= other_x < old(self).spec_width() && 0 <= other_y < old(self).spec_height() && (
                other_x != x || other_y != y) ==> #[trigger] final(self).at(other_x, other_y) == old(
                    self,
                ).at(other_x, other_y),
    {
        proof {
            use_type_invariant(&*self);
            lemma_pixel_index_in_range(self.width as int, self.height as int, x as int, y as int);
            assert(self.pixels.len() == self.width * self.height);
            assert(0 <= y * self.width) by (nonlinear_arith);
        }
        let index: usize = y * self.width + x;
        self.pixels[index] = *color;
        proof {
            assert forall|other_x: int, other_y: int|
                0 <= other_x < old(self).spec_width() && 0 <= other_y < old(self).spec_height() && (
                other_x != x || other_y != y) implies #[trigger] self.at(other_x, other_y) == old(
                self,
            ).at(other_x, other_y) by {
                lemma_update_touches_one_pixel(
                    old(self)@,
                    self.width as int,
                    self.height as int,
                    x as int,
                    y as int,
                    *color,
                    other_x,
                    other_y,
                );
            }
        }
    }
}

impl<P: Copy> Clone for Canvas<P> {
    /// A canvas of the same size with the same pixels.
    fn clone(&self) -> (copy: Self)
        ensures
            copy.spec_width() == self.spec_width(),
            copy.spec_height() == self.spec_height(),
            copy@ == self@,
    {
        proof {
            use_type_invariant(self);
        }
        let mut pixels: Vec<P> = Vec::new();
        let mut copied: usize = 0;
        while copied < self.pixels.len()
            invariant
                copied <= self.pixels@.len(),
                pixels@ == self.pixels@.take(copied as int),
            decreases self.pixels@.len() - copied,
        {
            pixels.push(self.pixels[copied]);
            assert(pixels@ =~= self.pixels@.take(copied as int + 1));
            copied += 1;
        }
        assert(pixels@ =~= self.pixels@);
        Canvas { width: self.width, height: self.height, pixels }
    }
}

/// After a write to `(x, y)` that pixel holds the new colour and the pixel at
/// any other coordinate inside the raster holds what it held before.
pub proof fn lemma_update_touches_one_pixel<P>(
    pixels: Seq<P>,
    width: int,
    height: int,
    x: int,
    y: int,
    color: P,
    other_x: int,
    other_y: int,
)
    requires
        pixels.len() == width * height,
        0 <= x < width,
        0 <= y < height,
        0 <= other_x < width,
        0 <= other_y < height,
    ensures
        pixels.update(pixel_index(width, x, y), color)[pixel_index(width, x, y)] == color,
        (other_x != x || other_y != y) ==> pixels.update(pixel_index(width, x, y), color)[pixel_index(
            width,
            other_x,
            other_y,
        )] == pixels[pixel_index(width, other_x, other_y)],
{
    lemma_pixel_index_in_range(width, height, x, y);
    lemma_pixel_index_in_range(width, height, other_x, other_y);
    if other_x != x || other_y != y {
        if pixel_index(width, x, y) == pixel_index(width, other_x, other_y) {
            lemma_pixel_index_injective(width, x, y, other_x, other_y);
        }
    }
}

} // verus!
