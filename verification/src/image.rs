//! Images: an owned 2D raster of fixed-channel pixels, walked 8×8
//! block by 8×8 block in raster order by the codec.

use vstd::prelude::*;

verus! {

/// An owned 2D raster of pixels in row-major order: the pixel at
/// (x, y) sits at index y·width + x of the backing buffer.
#[derive(Debug, Clone)]
pub struct Image<T> {
    pub data: Vec<T>,
    pub width: usize,
    pub height: usize,
}

/// Index of the pixel at block element `e` (0..64, row-major within the
/// block) of the block at block coordinates (bx, by), in an image of
/// width `w`.
pub open spec fn block_pixel(w: int, bx: int, by: int, e: int) -> int {
    (8 * by + e / 8) * w + 8 * bx + e % 8
}

impl<T> Image<T> {
    /// The backing buffer holds exactly width·height pixels.
    pub open spec fn wf(&self) -> bool {
        self.data@.len() == self.width * self.height
    }

    /// Wraps a pixel buffer with its dimensions.
    pub fn new(width: usize, height: usize, data: Vec<T>) -> (r: Self)
        requires
            data@.len() == width * height,
        ensures
            r.width == width,
            r.height == height,
            r.data == data,
            r.wf(),
    {
        Image { data, width, height }
    }

    /// The pixel at (x, y).
    pub fn at(&self, x: usize, y: usize) -> (r: &T)
        requires
            self.wf(),
            x < self.width,
            y < self.height,
        ensures
            *r == self.data@[y * self.width + x],
    {
        let total: usize = self.data.len();
        proof {
            assert(y * self.width + x < self.width * self.height) by (nonlinear_arith)
                requires
                    x < self.width,
                    y < self.height,
            ;
        }
        &self.data[y * self.width + x]
    }

    /// The backing pixel buffer.
    pub fn data(&self) -> (r: &Vec<T>)
        ensures
            *r == self.data,
    {
        &self.data
    }

    /// Mutable access to the backing pixel buffer.
    pub fn data_mut(&mut self) -> (r: &mut Vec<T>)
        ensures
            *r == old(self).data,
            final(self).data == *final(r),
            final(self).width == old(self).width,
            final(self).height == old(self).height,
    {
        &mut self.data
    }

    /// The image width in pixels.
    pub fn width(&self) -> (r: usize)
        ensures
            r == self.width,
    {
        self.width
    }

    /// The image height in pixels.
    pub fn height(&self) -> (r: usize)
        ensures
            r == self.height,
    {
        self.height
    }

    /// Starts a walk over the image's 8×8 blocks in raster order:
    /// block rows outermost, block columns within a row.
    pub fn iter_block(&self) -> (r: ImageBlockIterator<'_, T>)
        requires
            self.wf(),
        ensures
            r.image == self,
            r.w == self.width / 8,
            r.h == self.height / 8,
            r.x == 0,
            r.y == if self.width / 8 == 0 {
                self.height / 8
            } else {
                0
            },
            r.wf(),
    {
        let w: usize = self.width / 8;
        let h: usize = self.height / 8;
        ImageBlockIterator {
            image: self,
            x: 0,
            y: if w == 0 {
                h
            } else {
                0
            },
            w,
            h,
        }
    }
}

/// A walk over an image's 8×8 blocks in raster order. (bx, by) names
/// the block column and row about to be yielded.
pub struct ImageBlockIterator<'a, T> {
    pub image: &'a Image<T>,
    pub x: usize,
    pub y: usize,
    pub w: usize,
    pub h: usize,
}

impl<'a, T> ImageBlockIterator<'a, T> {
    /// The iterator's bounds agree with its image and its position is
    /// on a block about to be yielded, or one past the last row.
    pub open spec fn wf(&self) -> bool {
        &&& self.image.wf()
        &&& self.w == self.image.width / 8
        &&& self.h == self.image.height / 8
        &&& self.y <= self.h
        &&& if self.y < self.h {
            self.x < self.w
        } else {
            self.x == 0
        }
    }
}

impl<'a, T: Copy> ImageBlockIterator<'a, T> {
    /// Yields the 64 samples of the current block in row-major order
    /// and advances to the next block, or yields nothing when every
    /// block row has been walked.
    pub fn next(&mut self) -> (r: Option<[T; 64]>)
        requires
            old(self).wf(),
        ensures
            final(self).wf(),
            final(self).image == old(self).image,
            final(self).w == old(self).w,
            final(self).h == old(self).h,
            old(self).y == old(self).h ==> r is None && *final(self) == *old(self),
            old(self).y < old(self).h ==> {
                &&& r is Some
                &&& forall|e: int|
                    0 <= e < 64 ==> (#[trigger] r->Some_0@[e]) == old(self).image.data@[block_pixel(
                        old(self).image.width as int,
                        old(self).x as int,
                        old(self).y as int,
                        e,
                    )]
                &&& if old(self).x + 1 == old(self).w {
                    final(self).x == 0 && final(self).y == old(self).y + 1
                } else {
                    final(self).x == old(self).x + 1 && final(self).y == old(self).y
                }
            },
    {
        if self.y == self.h {
            None
        } else {
            let iw: usize = self.image.width;
            let total: usize = self.image.data.len();
            proof {
                assert(8 * self.y * iw + 8 * self.x + 7 * iw + 7 < self.image.data@.len())
                    by (nonlinear_arith)
                    requires
                        self.x < self.w,
                        self.y < self.h,
                        self.w == self.image.width / 8,
                        self.h == self.image.height / 8,
                        iw == self.image.width,
                        self.image.data@.len() == self.image.width * self.image.height,
                ;
            }
            let base: usize = 8 * self.y * iw + 8 * self.x;
            let mut u: [T; 64] = [self.image.data[base]; 64];
            for e in 0..64
                invariant
                    base == 8 * self.y * iw + 8 * self.x,
                    iw == self.image.width,
                    total == self.image.data@.len(),
                    8 * self.y * iw + 8 * self.x + 7 * iw + 7 < self.image.data@.len(),
                    u@.len() == 64,
                    forall|j: int|
                        0 <= j < e ==> (#[trigger] u@[j]) == self.image.data@[block_pixel(
                            iw as int,
                            self.x as int,
                            self.y as int,
                            j,
                        )],
            {
                let row: usize = e / 8;
                let col: usize = e % 8;
                proof {
                    assert(row * iw <= 7 * iw) by (nonlinear_arith)
                        requires
                            row <= 7,
                            iw >= 0,
                    ;
                }
                let idx: usize = base + row * iw + col;
                proof {
                    assert(idx == block_pixel(iw as int, self.x as int, self.y as int, e as int))
                        by (nonlinear_arith)
                        requires
                            idx == base + row * iw + col,
                            base == 8 * self.y * iw + 8 * self.x,
                            row == e as int / 8,
                            col == e as int % 8,
                            0 <= e < 64,
                    ;
                }
                u[e] = self.image.data[idx];
            }
            if self.x + 1 == self.w {
                self.x = 0;
                self.y = self.y + 1;
            } else {
                self.x = self.x + 1;
            }
            Some(u)
        }
    }
}

} // verus!
