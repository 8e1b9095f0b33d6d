//! Pixmaps: rows of pixels, kept one after the other.

use vstd::pervasive::cloned;
use vstd::prelude::*;

verus! {

/// A pixmap of `h` rows of `w` pixels each.
pub struct GenericPixmap<T> {
    pub w: usize,
    pub h: usize,
    pub data: Vec<T>,
}

/// A pixmap of colours.
pub type Pixmap = GenericPixmap<u32>;

/// Something to draw on, pixel by pixel.
pub trait Canvas {
    /// The canvas has a pixel in row `x` at column `y`.
    spec fn holds(&self, x: int, y: int) -> bool;

    /// The colour of the pixel in row `x` at column `y`.
    spec fn pixel(&self, x: int, y: int) -> u32;

    /// Gives the pixel in row `x` at column `y` the colour `color`.
    fn set_pixel(&mut self, x: usize, y: usize, color: u32)
        requires
            old(self).holds(x as int, y as int),
        ensures
            forall|i: int, j: int| final(self).holds(i, j) == old(self).holds(i, j),
            forall|i: int, j: int|
                old(self).holds(i, j) ==> #[trigger] final(self).pixel(i, j) == if i == x && j == y {
                    color
                } else {
                    old(self).pixel(i, j)
                },
    ;
}

impl<T> GenericPixmap<T> {
    /// The pixmap holds as many pixels as its width and height say.
    pub open spec fn wf(&self) -> bool {
        self.data.len() == self.w * self.h
    }

    /// Where the pixel in row `x` at column `y` is kept.
    pub open spec fn offset(&self, x: int, y: int) -> int {
        x * self.w + y
    }

    /// The pixels of a row lie within the pixmap.
    pub proof fn lemma_row_inside(&self, x: int, y: int)
        requires
            self.wf(),
            0 <= x < self.h,
            0 <= y <= self.w,
        ensures
            0 <= x * self.w,
            x * self.w + y <= self.w * self.h,
            x * self.w + self.w <= self.w * self.h,
    {
        assert(0 <= x * self.w) by (nonlinear_arith)
            requires
                0 <= x,
                0 <= self.w,
        ;
        assert(x * self.w + self.w <= self.w * self.h) by (nonlinear_arith)
            requires
                0 <= x < self.h,
                0 <= self.w,
        ;
    }
}

impl<T: Copy + Clone> GenericPixmap<T> {
    /// A pixmap of `h` rows of `w` pixels, each a clone of `fill_value`.
    pub fn new(w: usize, h: usize, fill_value: T) -> (map: GenericPixmap<T>)
        requires
            w * h <= usize::MAX,
        ensures
            map.wf(),
            map.w == w,
            map.h == h,
            forall|i: int| 0 <= i < w * h ==> cloned(fill_value, #[trigger] map.data[i]),
    {
        GenericPixmap { w: w, h: h, data: vec![fill_value; w * h] }
    }

    /// Row `i` of the pixmap.
    pub fn row(&self, i: usize) -> (r: &[T])
        requires
            self.wf(),
            i < self.h,
        ensures
            r@ == self.data@.subrange(i * self.w, i * self.w + self.w),
    {
        proof {
            self.lemma_row_inside(i as int, 0);
        }
        let from = i * self.w;
        let to = from + self.w;
        vstd::slice::slice_subrange(self.data.as_slice(), from, to)
    }
}

impl Canvas for GenericPixmap<u32> {
    /// A pixmap has the pixels of its `h` rows of `w` columns.
    open spec fn holds(&self, x: int, y: int) -> bool {
        self.wf() && 0 <= x < self.h && 0 <= y < self.w
    }

    /// The rows are kept one after the other.
    open spec fn pixel(&self, x: int, y: int) -> u32 {
        self.data[self.offset(x, y)]
    }

    fn set_pixel(&mut self, x: usize, y: usize, color: u32) {
        proof {
            self.lemma_row_inside(x as int, y as int);
        }
        let at = x * self.w + y;
        self.data[at] = color;
        proof {
            assert forall|i: int, j: int| old(self).holds(i, j) implies #[trigger] self.pixel(i, j)
                == if i == x && j == y {
                color
            } else {
                old(self).pixel(i, j)
            } by {
                old(self).lemma_row_inside(i, j);
                if !(i == x && j == y) {
                    lemma_cells_apart(i, j, x as int, y as int, self.w as int);
                }
            }
        }
    }
}

/// Two different cells of a pixmap are kept in different places.
pub proof fn lemma_cells_apart(i: int, j: int, x: int, y: int, w: int)
    requires
        0 <= j < w,
        0 <= y < w,
        i != x || j != y,
    ensures
        i * w + j != x * w + y,
{
    if i < x {
        assert(i * w + w <= x * w) by (nonlinear_arith)
            requires
                i < x,
                0 <= w,
        ;
    } else if x < i {
        assert(x * w + w <= i * w) by (nonlinear_arith)
            requires
                x < i,
                0 <= w,
        ;
    }
}

} // verus!
