//! The drawing surface: a fixed-size, row-major buffer of packed colors
//! with bounds-checked writes and the drawing primitives over it.
//!
//! Every primitive is specified against the point-sequence model of
//! `crate::raster`: the final buffer is exactly the old buffer with the
//! primitive's point sequence painted over it, out-of-range points
//! silently dropped.

use crate::color::abs_spec;
use crate::glyphs::{
    block_pts, block_row_pts, glyph, glyph_bit, glyph_pts, glyph_row_pts, spec_glyph, text_pts,
};
use crate::raster::{
    brush_col, brush_square, circle_chords, circle_fill_points, circle_fill_rec, circle_octet,
    circle_points, circle_rec, lemma_paint_pts_concat, lemma_paint_pts_cons, lemma_paint_pts_one,
    lemma_pt_index_bound, line_points, line_rec, paint_pixel, paint_pts, pt_in_bounds, pt_index,
    rect_fill_points, rect_points, wline_points, wline_rec,
};
use vstd::prelude::*;

verus! {

/// A width by height drawing surface owning its pixel buffer.
pub struct Ember {
    width: i32,
    height: i32,
    buffer: Vec<u32>,
}

impl View for Ember {
    type V = Seq<u32>;

    /// The pixels, row-major: index of `(x, y)` is `y * width + x`.
    closed spec fn view(&self) -> Seq<u32> {
        self.buffer@
    }
}

impl Ember {
    /// Surface width in pixels.
    pub closed spec fn spec_width(self) -> int {
        self.width as int
    }

    /// Surface height in pixels.
    pub closed spec fn spec_height(self) -> int {
        self.height as int
    }

    /// Shape invariant: nonnegative dimensions and a buffer of exactly
    /// `width * height` pixels.
    pub open spec fn wf(self) -> bool {
        &&& self.spec_width() >= 0
        &&& self.spec_height() >= 0
        &&& self@.len() == self.spec_width() * self.spec_height()
    }

    /// A fresh all-black surface of the given dimensions.
    pub fn new(width: i32, height: i32) -> (r: Ember)
        requires
            width >= 0,
            height >= 0,
            width * height <= usize::MAX,
        ensures
            r.wf(),
            r.spec_width() == width,
            r.spec_height() == height,
            r@.len() == width * height,
            forall|i: int| 0 <= i < r@.len() ==> r@[i] == 0u32,
    {
        let n: usize = (width as usize) * (height as usize);
        let mut buffer: Vec<u32> = Vec::new();
        let mut i: usize = 0;
        while i < n
            invariant
                i <= n,
                buffer@.len() == i,
                forall|k: int| 0 <= k < i ==> buffer@[k] == 0u32,
            decreases n - i,
        {
            buffer.push(0);
            i = i + 1;
        }
        Ember { width, height, buffer }
    }

    /// Read back one pixel.
    pub fn get_pixel(&self, x: i32, y: i32) -> (c: u32)
        requires
            self.wf(),
            pt_in_bounds(self.spec_width(), self.spec_height(), (x as int, y as int)),
        ensures
            c == self@[pt_index(self.spec_width(), (x as int, y as int))],
    {
        let blen = self.buffer.len();
        proof {
            lemma_pt_index_bound(self.spec_width(), self.spec_height(), (x as int, y as int));
            assert(0 <= (y as int) * self.spec_width() + (x as int) < blen);
        }
        let idx: usize = (y as usize) * (self.width as usize) + (x as usize);
        self.buffer[idx]
    }

    /// The raw buffer, for handing to a presentation layer.
    pub fn buffer(&self) -> (b: &Vec<u32>)
        ensures
            b@ == self@,
    {
        &self.buffer
    }

    /// Surface width.
    pub fn width(&self) -> (w: i32)
        ensures
            w == self.spec_width(),
    {
        self.width
    }

    /// Surface height.
    pub fn height(&self) -> (h: i32)
        ensures
            h == self.spec_height(),
    {
        self.height
    }

    /// The one bounds-checked write every primitive goes through. A point
    /// off the surface is silently dropped, never an error.
    fn put_pixel(&mut self, x: i128, y: i128, color: u32)
        requires
            old(self).wf(),
        ensures
            final(self).wf(),
            final(self).spec_width() == old(self).spec_width(),
            final(self).spec_height() == old(self).spec_height(),
            final(self)@ == paint_pixel(
                old(self)@,
                old(self).spec_width(),
                old(self).spec_height(),
                (x as int, y as int),
                color,
            ),
    {
        if x >= 0 && y >= 0 && x < self.width as i128 && y < self.height as i128 {
            let blen = self.buffer.len();
            proof {
                lemma_pt_index_bound(
                    self.spec_width(),
                    self.spec_height(),
                    (x as int, y as int),
                );
                assert(0 <= (y as int) * self.spec_width() + (x as int) < blen);
            }
            let idx: usize = (y as usize) * (self.width as usize) + (x as usize);
            self.buffer[idx] = color;
        }
    }

    /// Write one pixel, dropping it silently if `(x, y)` is off the
    /// surface.
    pub fn set_pixel(&mut self, x: i32, y: i32, color: u32)
        requires
            old(self).wf(),
        ensures
            final(self).wf(),
            final(self).spec_width() == old(self).spec_width(),
            final(self).spec_height() == old(self).spec_height(),
            final(self)@ == paint_pixel(
                old(self)@,
                old(self).spec_width(),
                old(self).spec_height(),
                (x as int, y as int),
                color,
            ),
    {
        self.put_pixel(x as i128, y as i128, color);
    }

    /// The thin Bresenham walk over widened integer coordinates, shared
    /// by the public line and shape primitives. Stamps every visited
    /// point, both endpoints included.
    #[verifier::rlimit(100)]
    fn line_walk(&mut self, x1: i128, y1: i128, x2: i128, y2: i128, color: u32)
        requires
            old(self).wf(),
            -0x4000_0000_0000 <= x1 <= 0x4000_0000_0000,
            -0x4000_0000_0000 <= y1 <= 0x4000_0000_0000,
            -0x4000_0000_0000 <= x2 <= 0x4000_0000_0000,
            -0x4000_0000_0000 <= y2 <= 0x4000_0000_0000,
        ensures
            final(self).wf(),
            final(self).spec_width() == old(self).spec_width(),
            final(self).spec_height() == old(self).spec_height(),
            final(self)@ == paint_pts(
                old(self)@,
                old(self).spec_width(),
                old(self).spec_height(),
                line_points(x1 as int, y1 as int, x2 as int, y2 as int),
                color,
            ),
    {
        let ghost w0 = self.spec_width();
        let ghost h0 = self.spec_height();
        let ghost target = paint_pts(
            self@,
            w0,
            h0,
            line_points(x1 as int, y1 as int, x2 as int, y2 as int),
            color,
        );
        let dx: i128 = if x2 >= x1 {
            x2 - x1
        } else {
            x1 - x2
        };
        let dy: i128 = if y2 >= y1 {
            y2 - y1
        } else {
            y1 - y2
        };
        let sx: i128 = if x1 < x2 {
            1
        } else {
            -1
        };
        let sy: i128 = if y1 < y2 {
            1
        } else {
            -1
        };
        let mut err: i128 = if dx > dy {
            dx / 2
        } else {
            -(dy / 2)
        };
        let mut x = x1;
        let mut y = y1;
        let mut done = false;
        while !done
            invariant
                self.wf(),
                self.spec_width() == w0,
                self.spec_height() == h0,
                -0x4000_0000_0000 <= x2 <= 0x4000_0000_0000,
                -0x4000_0000_0000 <= y2 <= 0x4000_0000_0000,
                0 <= dx <= 0x8000_0000_0000,
                0 <= dy <= 0x8000_0000_0000,
                sx == 1 || sx == -1,
                sy == 1 || sy == -1,
                -(dx + dy) <= err <= dx + dy,
                abs_spec(x2 as int - x as int) + abs_spec(y2 as int - y as int) <= dx + dy,
                !done ==> paint_pts(
                    self@,
                    w0,
                    h0,
                    line_rec(
                        x as int,
                        y as int,
                        x2 as int,
                        y2 as int,
                        dx as int,
                        dy as int,
                        sx as int,
                        sy as int,
                        err as int,
                    ),
                    color,
                ) == target,
                done ==> self@ == target,
            decreases
                    abs_spec(x2 as int - x as int) + abs_spec(y2 as int - y as int),
                    (if done {
                        0int
                    } else {
                        1int
                    }),
        {
            let ghost prev = self@;
            let ghost p = (x as int, y as int);
            self.put_pixel(x, y, color);
            if x == x2 && y == y2 {
                proof {
                    lemma_paint_pts_one(prev, w0, h0, p, color);
                }
                done = true;
            } else {
                let mut xn = x;
                let mut yn = y;
                let mut en = err;
                if err > -dx {
                    en = en - dy;
                    xn = x + sx;
                }
                if err < dy {
                    en = en + dx;
                    yn = y + sy;
                }
                let m_old: i128 = (if x2 >= x {
                    x2 - x
                } else {
                    x - x2
                }) + (if y2 >= y {
                    y2 - y
                } else {
                    y - y2
                });
                let m_new: i128 = (if x2 >= xn {
                    x2 - xn
                } else {
                    xn - x2
                }) + (if y2 >= yn {
                    y2 - yn
                } else {
                    yn - y2
                });
                proof {
                    let rest = line_rec(
                        xn as int,
                        yn as int,
                        x2 as int,
                        y2 as int,
                        dx as int,
                        dy as int,
                        sx as int,
                        sy as int,
                        en as int,
                    );
                    if m_new < m_old {
                        lemma_paint_pts_cons(prev, w0, h0, p, rest, color);
                    } else {
                        lemma_paint_pts_one(prev, w0, h0, p, color);
                    }
                }
                if m_new < m_old {
                    x = xn;
                    y = yn;
                    err = en;
                } else {
                    done = true;
                }
            }
        }
    }

    /// Draw the thin Bresenham line from `(x1, y1)` to `(x2, y2)`, both
    /// endpoints included.
    pub fn draw_line(&mut self, x1: i32, y1: i32, x2: i32, y2: i32, color: u32)
        requires
            old(self).wf(),
        ensures
            final(self).wf(),
            final(self).spec_width() == old(self).spec_width(),
            final(self).spec_height() == old(self).spec_height(),
            final(self)@ == paint_pts(
                old(self)@,
                old(self).spec_width(),
                old(self).spec_height(),
                line_points(x1 as int, y1 as int, x2 as int, y2 as int),
                color,
            ),
    {
        self.line_walk(x1 as i128, y1 as i128, x2 as i128, y2 as i128, color);
    }

    /// Draw the outline of the axis-aligned rectangle with corners
    /// `(x, y)` and `(x + width, y + height)`, as four thin lines.
    pub fn draw_rectangle(&mut self, x: i32, y: i32, width: i32, height: i32, color: u32)
        requires
            old(self).wf(),
        ensures
            final(self).wf(),
            final(self).spec_width() == old(self).spec_width(),
            final(self).spec_height() == old(self).spec_height(),
            final(self)@ == paint_pts(
                old(self)@,
                old(self).spec_width(),
                old(self).spec_height(),
                rect_points(x as int, y as int, width as int, height as int),
                color,
            ),
    {
        let ghost w0 = self.spec_width();
        let ghost h0 = self.spec_height();
        let ghost buf0 = self@;
        let xa = x as i128;
        let ya = y as i128;
        let xb = x as i128 + width as i128;
        let yb = y as i128 + height as i128;
        self.line_walk(xa, ya, xb, ya, color);
        self.line_walk(xb, ya, xb, yb, color);
        self.line_walk(xb, yb, xa, yb, color);
        self.line_walk(xa, yb, xa, ya, color);
        proof {
            let a = line_points(xa as int, ya as int, xb as int, ya as int);
            let b = line_points(xb as int, ya as int, xb as int, yb as int);
            let c = line_points(xb as int, yb as int, xa as int, yb as int);
            let d = line_points(xa as int, yb as int, xa as int, ya as int);
            lemma_paint_pts_concat(buf0, w0, h0, a, b, color);
            lemma_paint_pts_concat(buf0, w0, h0, a + b, c, color);
            lemma_paint_pts_concat(buf0, w0, h0, a + b + c, d, color);
        }
    }

    /// Fill the rectangle with one thin horizontal line per row
    /// `y .. y + height`, each spanning `x ..= x + width`.
    pub fn draw_rectangle_fill(&mut self, x: i32, y: i32, width: i32, height: i32, color: u32)
        requires
            old(self).wf(),
        ensures
            final(self).wf(),
            final(self).spec_width() == old(self).spec_width(),
            final(self).spec_height() == old(self).spec_height(),
            final(self)@ == paint_pts(
                old(self)@,
                old(self).spec_width(),
                old(self).spec_height(),
                rect_fill_points(x as int, y as int, width as int, height as int),
                color,
            ),
    {
        let ghost w0 = self.spec_width();
        let ghost h0 = self.spec_height();
        let ghost target = paint_pts(
            self@,
            w0,
            h0,
            rect_fill_points(x as int, y as int, width as int, height as int),
            color,
        );
        let xa = x as i128;
        let xb = x as i128 + width as i128;
        let yend: i128 = y as i128 + height as i128;
        let mut row: i128 = y as i128;
        while row < yend
            invariant
                self.wf(),
                self.spec_width() == w0,
                self.spec_height() == h0,
                -0x1_0000_0000 <= xa <= 0x1_0000_0000,
                -0x1_0000_0000 <= xb <= 0x1_0000_0000,
                -0x1_0000_0000 <= yend <= 0x1_0000_0000,
                -0x1_0000_0000 <= row <= 0x1_0000_0000,
                paint_pts(
                    self@,
                    w0,
                    h0,
                    rect_fill_points(xa as int, row as int, (xb - xa) as int, (yend - row) as int),
                    color,
                ) == target,
            decreases yend - row,
        {
            let ghost prev = self@;
            self.line_walk(xa, row, xb, row, color);
            proof {
                let first = line_points(xa as int, row as int, xb as int, row as int);
                let rest = rect_fill_points(
                    xa as int,
                    row as int + 1,
                    (xb - xa) as int,
                    (yend - row) as int - 1,
                );
                lemma_paint_pts_concat(prev, w0, h0, first, rest, color);
            }
            row = row + 1;
        }
    }

    /// Stamp one vertical brush column: `(x, y - hw) ..= (x, y + hw)`.
    fn stamp_col(&mut self, x: i128, y: i128, hw: i128, color: u32)
        requires
            old(self).wf(),
            -0x2000_0000_0000_0000 <= x <= 0x2000_0000_0000_0000,
            -0x2000_0000_0000_0000 <= y <= 0x2000_0000_0000_0000,
            0 <= hw <= 0x8000_0000,
        ensures
            final(self).wf(),
            final(self).spec_width() == old(self).spec_width(),
            final(self).spec_height() == old(self).spec_height(),
            final(self)@ == paint_pts(
                old(self)@,
                old(self).spec_width(),
                old(self).spec_height(),
                brush_col(x as int, y as int, hw as int, -(hw as int)),
                color,
            ),
    {
        let ghost w0 = self.spec_width();
        let ghost h0 = self.spec_height();
        let ghost target = paint_pts(
            self@,
            w0,
            h0,
            brush_col(x as int, y as int, hw as int, -(hw as int)),
            color,
        );
        let mut j: i128 = -hw;
        while j <= hw
            invariant
                self.wf(),
                self.spec_width() == w0,
                self.spec_height() == h0,
                -0x2000_0000_0000_0000 <= x <= 0x2000_0000_0000_0000,
                -0x2000_0000_0000_0000 <= y <= 0x2000_0000_0000_0000,
                0 <= hw <= 0x8000_0000,
                -hw <= j <= hw + 1,
                paint_pts(
                    self@,
                    w0,
                    h0,
                    brush_col(x as int, y as int, hw as int, j as int),
                    color,
                ) == target,
            decreases hw - j + 1,
        {
            let ghost prev = self@;
            let ghost p = (x as int, y as int + j as int);
            self.put_pixel(x, y + j, color);
            proof {
                let rest = brush_col(x as int, y as int, hw as int, j as int + 1);
                lemma_paint_pts_cons(prev, w0, h0, p, rest, color);
            }
            j = j + 1;
        }
    }

    /// Stamp the full brush square of half-width `hw` centered on
    /// `(x, y)`, column by column.
    fn stamp_square(&mut self, x: i128, y: i128, hw: i128, color: u32)
        requires
            old(self).wf(),
            -0x1000_0000_0000_0000 <= x <= 0x1000_0000_0000_0000,
            -0x1000_0000_0000_0000 <= y <= 0x1000_0000_0000_0000,
            0 <= hw <= 0x8000_0000,
        ensures
            final(self).wf(),
            final(self).spec_width() == old(self).spec_width(),
            final(self).spec_height() == old(self).spec_height(),
            final(self)@ == paint_pts(
                old(self)@,
                old(self).spec_width(),
                old(self).spec_height(),
                brush_square(x as int, y as int, hw as int, -(hw as int)),
                color,
            ),
    {
        let ghost w0 = self.spec_width();
        let ghost h0 = self.spec_height();
        let ghost target = paint_pts(
            self@,
            w0,
            h0,
            brush_square(x as int, y as int, hw as int, -(hw as int)),
            color,
        );
        let mut i: i128 = -hw;
        while i <= hw
            invariant
                self.wf(),
                self.spec_width() == w0,
                self.spec_height() == h0,
                -0x1000_0000_0000_0000 <= x <= 0x1000_0000_0000_0000,
                -0x1000_0000_0000_0000 <= y <= 0x1000_0000_0000_0000,
                0 <= hw <= 0x8000_0000,
                -hw <= i <= hw + 1,
                paint_pts(
                    self@,
                    w0,
                    h0,
                    brush_square(x as int, y as int, hw as int, i as int),
                    color,
                ) == target,
            decreases hw - i + 1,
        {
            let ghost prev = self@;
            self.stamp_col(x + i, y, hw, color);
            proof {
                let first = brush_col(x as int + i as int, y as int, hw as int, -(hw as int));
                let rest = brush_square(x as int, y as int, hw as int, i as int + 1);
                lemma_paint_pts_concat(prev, w0, h0, first, rest, color);
            }
            i = i + 1;
        }
    }

    /// Draw the widened Bresenham line from `(x0, y0)` to `(x1, y1)`:
    /// every stepped point except the final one stamps a filled square of
    /// side `width` (half-width each side, integer division), giving the
    /// deliberately blocky caps and joins of square stamping. A
    /// non-positive width stamps a single pixel per step.
    #[verifier::rlimit(100)]
    pub fn draw_line_width(&mut self, x0: i32, y0: i32, x1: i32, y1: i32, width: i32, color: u32)
        requires
            old(self).wf(),
        ensures
            final(self).wf(),
            final(self).spec_width() == old(self).spec_width(),
            final(self).spec_height() == old(self).spec_height(),
            final(self)@ == paint_pts(
                old(self)@,
                old(self).spec_width(),
                old(self).spec_height(),
                wline_points(x0 as int, y0 as int, x1 as int, y1 as int, width as int),
                color,
            ),
    {
        let ghost w0 = self.spec_width();
        let ghost h0 = self.spec_height();
        let ghost target = paint_pts(
            self@,
            w0,
            h0,
            wline_points(x0 as int, y0 as int, x1 as int, y1 as int, width as int),
            color,
        );
        let xa = x0 as i128;
        let ya = y0 as i128;
        let xb = x1 as i128;
        let yb = y1 as i128;
        let hw: i128 = if width >= 1 {
            (width / 2) as i128
        } else {
            0
        };
        let dx: i128 = if xb >= xa {
            xb - xa
        } else {
            xa - xb
        };
        let dy: i128 = if yb >= ya {
            yb - ya
        } else {
            ya - yb
        };
        let sx: i128 = if xa < xb {
            1
        } else {
            -1
        };
        let sy: i128 = if ya < yb {
            1
        } else {
            -1
        };
        let mut err: i128 = dx - dy;
        let mut x = xa;
        let mut y = ya;
        let mut done = false;
        while !done
            invariant
                self.wf(),
                self.spec_width() == w0,
                self.spec_height() == h0,
                -0x1_0000_0000 <= xb <= 0x1_0000_0000,
                -0x1_0000_0000 <= yb <= 0x1_0000_0000,
                0 <= dx <= 0x2_0000_0000,
                0 <= dy <= 0x2_0000_0000,
                0 <= hw <= 0x8000_0000,
                sx == 1 || sx == -1,
                sy == 1 || sy == -1,
                -2 * (dx + dy) <= err <= 2 * (dx + dy),
                abs_spec(xb as int - x as int) + abs_spec(yb as int - y as int) <= dx + dy,
                !done ==> paint_pts(
                    self@,
                    w0,
                    h0,
                    wline_rec(
                        x as int,
                        y as int,
                        xb as int,
                        yb as int,
                        dx as int,
                        dy as int,
                        sx as int,
                        sy as int,
                        hw as int,
                        err as int,
                    ),
                    color,
                ) == target,
                done ==> self@ == target,
            decreases
                    abs_spec(xb as int - x as int) + abs_spec(yb as int - y as int),
                    (if done {
                        0int
                    } else {
                        1int
                    }),
        {
            if x == xb && y == yb {
                done = true;
            } else {
                let ghost prev = self@;
                self.stamp_square(x, y, hw, color);
                let mut xn = x;
                let mut yn = y;
                let mut en = err;
                if 2 * err > -dy {
                    en = en - dy;
                    xn = x + sx;
                }
                if 2 * err < dx {
                    en = en + dx;
                    yn = y + sy;
                }
                let m_old: i128 = (if xb >= x {
                    xb - x
                } else {
                    x - xb
                }) + (if yb >= y {
                    yb - y
                } else {
                    y - yb
                });
                let m_new: i128 = (if xb >= xn {
                    xb - xn
                } else {
                    xn - xb
                }) + (if yb >= yn {
                    yb - yn
                } else {
                    yn - yb
                });
                proof {
                    let square = brush_square(x as int, y as int, hw as int, -(hw as int));
                    let rest = wline_rec(
                        xn as int,
                        yn as int,
                        xb as int,
                        yb as int,
                        dx as int,
                        dy as int,
                        sx as int,
                        sy as int,
                        hw as int,
                        en as int,
                    );
                    if m_new < m_old {
                        lemma_paint_pts_concat(prev, w0, h0, square, rest, color);
                    }
                }
                if m_new < m_old {
                    x = xn;
                    y = yn;
                    err = en;
                } else {
                    done = true;
                }
            }
        }
    }

    /// Stamp the eight symmetric reflections of the offset `(x, y)`
    /// about the center `(cx, cy)`, in order.
    fn stamp_octet(&mut self, cx: i128, cy: i128, x: i128, y: i128, color: u32)
        requires
            old(self).wf(),
            -0x1_0000_0000 <= cx <= 0x1_0000_0000,
            -0x1_0000_0000 <= cy <= 0x1_0000_0000,
            -0x1_0000_0000 <= x <= 0x1_0000_0000,
            -0x1_0000_0000 <= y <= 0x1_0000_0000,
        ensures
            final(self).wf(),
            final(self).spec_width() == old(self).spec_width(),
            final(self).spec_height() == old(self).spec_height(),
            final(self)@ == paint_pts(
                old(self)@,
                old(self).spec_width(),
                old(self).spec_height(),
                circle_octet(cx as int, cy as int, x as int, y as int),
                color,
            ),
    {
        let ghost w0 = self.spec_width();
        let ghost h0 = self.spec_height();
        let ghost p0 = (cx as int + x as int, cy as int + y as int);
        let ghost p1 = (cx as int + y as int, cy as int + x as int);
        let ghost p2 = (cx as int - y as int, cy as int + x as int);
        let ghost p3 = (cx as int - x as int, cy as int + y as int);
        let ghost p4 = (cx as int - x as int, cy as int - y as int);
        let ghost p5 = (cx as int - y as int, cy as int - x as int);
        let ghost p6 = (cx as int + y as int, cy as int - x as int);
        let ghost p7 = (cx as int + x as int, cy as int - y as int);
        let ghost r7 = seq![p7];
        let ghost r6 = seq![p6] + r7;
        let ghost r5 = seq![p5] + r6;
        let ghost r4 = seq![p4] + r5;
        let ghost r3 = seq![p3] + r4;
        let ghost r2 = seq![p2] + r3;
        let ghost r1 = seq![p1] + r2;
        let ghost r0 = seq![p0] + r1;
        proof {
            assert(circle_octet(cx as int, cy as int, x as int, y as int) =~= r0);
        }
        let ghost b0 = self@;
        self.put_pixel(cx + x, cy + y, color);
        let ghost b1 = self@;
        self.put_pixel(cx + y, cy + x, color);
        let ghost b2 = self@;
        self.put_pixel(cx - y, cy + x, color);
        let ghost b3 = self@;
        self.put_pixel(cx - x, cy + y, color);
        let ghost b4 = self@;
        self.put_pixel(cx - x, cy - y, color);
        let ghost b5 = self@;
        self.put_pixel(cx - y, cy - x, color);
        let ghost b6 = self@;
        self.put_pixel(cx + y, cy - x, color);
        let ghost b7 = self@;
        self.put_pixel(cx + x, cy - y, color);
        proof {
            lemma_paint_pts_cons(b0, w0, h0, p0, r1, color);
            lemma_paint_pts_cons(b1, w0, h0, p1, r2, color);
            lemma_paint_pts_cons(b2, w0, h0, p2, r3, color);
            lemma_paint_pts_cons(b3, w0, h0, p3, r4, color);
            lemma_paint_pts_cons(b4, w0, h0, p4, r5, color);
            lemma_paint_pts_cons(b5, w0, h0, p5, r6, color);
            lemma_paint_pts_cons(b6, w0, h0, p6, r7, color);
            lemma_paint_pts_one(b7, w0, h0, p7, color);
        }
    }

    /// Draw the midpoint circle outline of the given radius around
    /// `(x0, y0)`: one octant is walked and mirrored into the other seven
    /// by the eight sign and axis-swap reflections.
    #[verifier::rlimit(100)]
    pub fn draw_circle(&mut self, x0: i32, y0: i32, radius: i32, color: u32)
        requires
            old(self).wf(),
        ensures
            final(self).wf(),
            final(self).spec_width() == old(self).spec_width(),
            final(self).spec_height() == old(self).spec_height(),
            final(self)@ == paint_pts(
                old(self)@,
                old(self).spec_width(),
                old(self).spec_height(),
                circle_points(x0 as int, y0 as int, radius as int),
                color,
            ),
    {
        let ghost w0 = self.spec_width();
        let ghost h0 = self.spec_height();
        let ghost target = paint_pts(
            self@,
            w0,
            h0,
            circle_points(x0 as int, y0 as int, radius as int),
            color,
        );
        let cx = x0 as i128;
        let cy = y0 as i128;
        let r = radius as i128;
        let mut x = r;
        let mut y: i128 = 0;
        let mut err: i128 = 0;
        while x >= y
            invariant
                self.wf(),
                self.spec_width() == w0,
                self.spec_height() == h0,
                -0x8000_0000 <= cx <= 0x8000_0000,
                -0x8000_0000 <= cy <= 0x8000_0000,
                -0x8000_0000 <= r <= 0x8000_0000,
                r < 0 ==> x == r && y == 0 && err == 0,
                r >= 0 ==> -1 <= x <= r && 0 <= y && y <= x + 2,
                r >= 0 ==> -((y + 1) * (8 * r + 16)) <= err <= (y + 1) * (8 * r + 16),
                paint_pts(
                    self@,
                    w0,
                    h0,
                    circle_rec(cx as int, cy as int, x as int, y as int, err as int),
                    color,
                ) == target,
            decreases
                    (if x >= y {
                        x - y + 1
                    } else {
                        0int
                    }),
        {
            let ghost prev = self@;
            self.stamp_octet(cx, cy, x, y, color);
            proof {
                assert((y + 1) * (8 * r + 16) <= 0x4_0000_0000_0000_0000_0000) by (nonlinear_arith)
                    requires
                        0 <= y + 1 <= 0x1_0000_0000,
                        0 <= 8 * r + 16 <= 0x8_0000_0010,
                ;
                assert((y + 2) * (8 * r + 16) == (y + 1) * (8 * r + 16) + (8 * r + 16))
                    by (nonlinear_arith);
                let y1 = y as int + 1;
                let e1 = err as int + 1 + 2 * y1;
                let x1 = if 2 * (e1 - x as int) + 1 > 0 {
                    x as int - 1
                } else {
                    x as int
                };
                let e2 = if 2 * (e1 - x as int) + 1 > 0 {
                    e1 + 1 - 2 * x1
                } else {
                    e1
                };
                let rest = circle_rec(cx as int, cy as int, x1, y1, e2);
                lemma_paint_pts_concat(
                    prev,
                    w0,
                    h0,
                    circle_octet(cx as int, cy as int, x as int, y as int),
                    rest,
                    color,
                );
            }
            y = y + 1;
            err = err + 1 + 2 * y;
            if 2 * (err - x) + 1 > 0 {
                x = x - 1;
                err = err + 1 - 2 * x;
            }
        }
    }

    /// Fill the circle of the given radius around `(x0, y0)` with the
    /// scanline-chord walk: four horizontal chords per step, mirrored
    /// across the axes through the center. Its footprint is deliberately
    /// not the outline's.
    #[verifier::rlimit(100)]
    pub fn draw_circle_fill(&mut self, x0: i32, y0: i32, radius: i32, color: u32)
        requires
            old(self).wf(),
        ensures
            final(self).wf(),
            final(self).spec_width() == old(self).spec_width(),
            final(self).spec_height() == old(self).spec_height(),
            final(self)@ == paint_pts(
                old(self)@,
                old(self).spec_width(),
                old(self).spec_height(),
                circle_fill_points(x0 as int, y0 as int, radius as int),
                color,
            ),
    {
        let ghost w0 = self.spec_width();
        let ghost h0 = self.spec_height();
        let ghost target = paint_pts(
            self@,
            w0,
            h0,
            circle_fill_points(x0 as int, y0 as int, radius as int),
            color,
        );
        let cx = x0 as i128;
        let cy = y0 as i128;
        let r = radius as i128;
        let mut x: i128 = 0;
        let mut y = r;
        let mut dp: i128 = 1 - r;
        while x <= y
            invariant
                self.wf(),
                self.spec_width() == w0,
                self.spec_height() == h0,
                -0x8000_0000 <= cx <= 0x8000_0000,
                -0x8000_0000 <= cy <= 0x8000_0000,
                -0x8000_0000 <= r <= 0x8000_0000,
                r < 0 ==> x == 0 && y == r && dp == 1 - r,
                r >= 0 ==> 0 <= x && x <= y + 2 && -1 <= y <= r,
                r >= 0 ==> -((x + 1) * (8 * r + 16)) <= dp <= (x + 1) * (8 * r + 16),
                paint_pts(
                    self@,
                    w0,
                    h0,
                    circle_fill_rec(cx as int, cy as int, x as int, y as int, dp as int),
                    color,
                ) == target,
            decreases
                    (if y >= x {
                        y - x + 1
                    } else {
                        0int
                    }),
        {
            let ghost prev = self@;
            self.line_walk(cx - x, cy - y, cx + x, cy - y, color);
            self.line_walk(cx - x, cy + y, cx + x, cy + y, color);
            self.line_walk(cx - y, cy - x, cx + y, cy - x, color);
            self.line_walk(cx - y, cy + x, cx + y, cy + x, color);
            proof {
                assert((x + 1) * (8 * r + 16) <= 0x4_0000_0000_0000_0000_0000) by (nonlinear_arith)
                    requires
                        0 <= x + 1 <= 0x1_0000_0000,
                        0 <= 8 * r + 16 <= 0x8_0000_0010,
                ;
                assert((x + 2) * (8 * r + 16) == (x + 1) * (8 * r + 16) + (8 * r + 16))
                    by (nonlinear_arith);
                let ca = line_points(
                    cx as int - x as int,
                    cy as int - y as int,
                    cx as int + x as int,
                    cy as int - y as int,
                );
                let cb = line_points(
                    cx as int - x as int,
                    cy as int + y as int,
                    cx as int + x as int,
                    cy as int + y as int,
                );
                let cc = line_points(
                    cx as int - y as int,
                    cy as int - x as int,
                    cx as int + y as int,
                    cy as int - x as int,
                );
                let cd = line_points(
                    cx as int - y as int,
                    cy as int + x as int,
                    cx as int + y as int,
                    cy as int + x as int,
                );
                lemma_paint_pts_concat(prev, w0, h0, ca, cb, color);
                lemma_paint_pts_concat(prev, w0, h0, ca + cb, cc, color);
                lemma_paint_pts_concat(prev, w0, h0, ca + cb + cc, cd, color);
                let chords = circle_chords(cx as int, cy as int, x as int, y as int);
                let (yn, dpn) = if dp < 0 {
                    (y as int, dp as int + 2 * x as int + 3)
                } else {
                    (y as int - 1, dp as int + 2 * (x as int - y as int) + 5)
                };
                let rest = circle_fill_rec(cx as int, cy as int, x as int + 1, yn, dpn);
                lemma_paint_pts_concat(prev, w0, h0, chords, rest, color);
            }
            if dp < 0 {
                dp = dp + 2 * x + 3;
            } else {
                dp = dp + 2 * (x - y) + 5;
                y = y - 1;
            }
            x = x + 1;
        }
    }

    /// Stamp one row of a scaled glyph block.
    fn stamp_block_row(&mut self, bx: i128, yy: i128, scale: i128, color: u32)
        requires
            old(self).wf(),
            -0x2_0000_0000_0000_0000_0000_0000_0000 <= bx <= 0x2_0000_0000_0000_0000_0000_0000_0000,
            -0x2_0000_0000_0000_0000_0000_0000_0000 <= yy <= 0x2_0000_0000_0000_0000_0000_0000_0000,
            -0x1_0000_0000 <= scale <= 0x1_0000_0000,
        ensures
            final(self).wf(),
            final(self).spec_width() == old(self).spec_width(),
            final(self).spec_height() == old(self).spec_height(),
            final(self)@ == paint_pts(
                old(self)@,
                old(self).spec_width(),
                old(self).spec_height(),
                block_row_pts(bx as int, yy as int, scale as int, 0),
                color,
            ),
    {
        let ghost w0 = self.spec_width();
        let ghost h0 = self.spec_height();
        let ghost target = paint_pts(
            self@,
            w0,
            h0,
            block_row_pts(bx as int, yy as int, scale as int, 0),
            color,
        );
        let mut sx: i128 = 0;
        while sx < scale
            invariant
                self.wf(),
                self.spec_width() == w0,
                self.spec_height() == h0,
                -0x2_0000_0000_0000_0000_0000_0000_0000 <= bx
                    <= 0x2_0000_0000_0000_0000_0000_0000_0000,
                -0x1_0000_0000 <= scale <= 0x1_0000_0000,
                0 <= sx,
                sx <= (if scale > 0 {
                    scale
                } else {
                    0i128
                }),
                paint_pts(
                    self@,
                    w0,
                    h0,
                    block_row_pts(bx as int, yy as int, scale as int, sx as int),
                    color,
                ) == target,
            decreases scale - sx,
        {
            let ghost prev = self@;
            let ghost p = (bx as int + sx as int, yy as int);
            self.put_pixel(bx + sx, yy, color);
            proof {
                let rest = block_row_pts(bx as int, yy as int, scale as int, sx as int + 1);
                lemma_paint_pts_cons(prev, w0, h0, p, rest, color);
            }
            sx = sx + 1;
        }
    }

    /// Stamp a full `scale` by `scale` block with top-left `(bx, by)`.
    fn stamp_block(&mut self, bx: i128, by: i128, scale: i128, color: u32)
        requires
            old(self).wf(),
            -0x1_0000_0000_0000_0000_0000_0000_0000 <= bx <= 0x1_0000_0000_0000_0000_0000_0000_0000,
            -0x1_0000_0000_0000_0000_0000_0000_0000 <= by <= 0x1_0000_0000_0000_0000_0000_0000_0000,
            -0x1_0000_0000 <= scale <= 0x1_0000_0000,
        ensures
            final(self).wf(),
            final(self).spec_width() == old(self).spec_width(),
            final(self).spec_height() == old(self).spec_height(),
            final(self)@ == paint_pts(
                old(self)@,
                old(self).spec_width(),
                old(self).spec_height(),
                block_pts(bx as int, by as int, scale as int, 0),
                color,
            ),
    {
        let ghost w0 = self.spec_width();
        let ghost h0 = self.spec_height();
        let ghost target = paint_pts(
            self@,
            w0,
            h0,
            block_pts(bx as int, by as int, scale as int, 0),
            color,
        );
        let mut sy: i128 = 0;
        while sy < scale
            invariant
                self.wf(),
                self.spec_width() == w0,
                self.spec_height() == h0,
                -0x1_0000_0000_0000_0000_0000_0000_0000 <= bx
                    <= 0x1_0000_0000_0000_0000_0000_0000_0000,
                -0x1_0000_0000_0000_0000_0000_0000_0000 <= by
                    <= 0x1_0000_0000_0000_0000_0000_0000_0000,
                -0x1_0000_0000 <= scale <= 0x1_0000_0000,
                0 <= sy,
                sy <= (if scale > 0 {
                    scale
                } else {
                    0i128
                }),
                paint_pts(
                    self@,
                    w0,
                    h0,
                    block_pts(bx as int, by as int, scale as int, sy as int),
                    color,
                ) == target,
            decreases scale - sy,
        {
            let ghost prev = self@;
            self.stamp_block_row(bx, by + sy, scale, color);
            proof {
                let first = block_row_pts(bx as int, by as int + sy as int, scale as int, 0);
                let rest = block_pts(bx as int, by as int, scale as int, sy as int + 1);
                lemma_paint_pts_concat(prev, w0, h0, first, rest, color);
            }
            sy = sy + 1;
        }
    }

    /// Stamp one row of a glyph: a scaled block for every set bit.
    fn stamp_glyph_row(&mut self, g: u64, cx: i128, y: i128, scale: i128, i: u64, color: u32)
        requires
            old(self).wf(),
            i < 8,
            -0x1000_0000_0000_0000_0000_0000_0000 <= cx <= 0x1000_0000_0000_0000_0000_0000_0000,
            -0x1000_0000_0000_0000_0000_0000_0000 <= y <= 0x1000_0000_0000_0000_0000_0000_0000,
            -0x1_0000_0000 <= scale <= 0x1_0000_0000,
        ensures
            final(self).wf(),
            final(self).spec_width() == old(self).spec_width(),
            final(self).spec_height() == old(self).spec_height(),
            final(self)@ == paint_pts(
                old(self)@,
                old(self).spec_width(),
                old(self).spec_height(),
                glyph_row_pts(g, cx as int, y as int, scale as int, i as int, 0),
                color,
            ),
    {
        let ghost w0 = self.spec_width();
        let ghost h0 = self.spec_height();
        let ghost target = paint_pts(
            self@,
            w0,
            h0,
            glyph_row_pts(g, cx as int, y as int, scale as int, i as int, 0),
            color,
        );
        let mut j: u64 = 0;
        while j < 8
            invariant
                self.wf(),
                self.spec_width() == w0,
                self.spec_height() == h0,
                i < 8,
                j <= 8,
                -0x1000_0000_0000_0000_0000_0000_0000 <= cx
                    <= 0x1000_0000_0000_0000_0000_0000_0000,
                -0x1000_0000_0000_0000_0000_0000_0000 <= y
                    <= 0x1000_0000_0000_0000_0000_0000_0000,
                -0x1_0000_0000 <= scale <= 0x1_0000_0000,
                paint_pts(
                    self@,
                    w0,
                    h0,
                    glyph_row_pts(g, cx as int, y as int, scale as int, i as int, j as int),
                    color,
                ) == target,
            decreases 8 - j,
        {
            let ghost prev = self@;
            let set = (g >> ((7 - i) * 8 + (7 - j))) & 1 == 1;
            proof {
                assert(set == glyph_bit(g, i as int, j as int));
            }
            if set {
                proof {
                    assert(-0x8_0000_0000 <= (j as int) * (scale as int) <= 0x8_0000_0000)
                        by (nonlinear_arith)
                        requires
                            0 <= j < 8,
                            -0x1_0000_0000 <= scale as int <= 0x1_0000_0000,
                    ;
                    assert(-0x8_0000_0000 <= (i as int) * (scale as int) <= 0x8_0000_0000)
                        by (nonlinear_arith)
                        requires
                            0 <= i < 8,
                            -0x1_0000_0000 <= scale as int <= 0x1_0000_0000,
                    ;
                }
                self.stamp_block(cx + (j as i128) * scale, y + (i as i128) * scale, scale, color);
            }
            proof {
                let first = if glyph_bit(g, i as int, j as int) {
                    block_pts(
                        cx as int + (j as int) * (scale as int),
                        y as int + (i as int) * (scale as int),
                        scale as int,
                        0,
                    )
                } else {
                    Seq::<(int, int)>::empty()
                };
                let rest = glyph_row_pts(
                    g,
                    cx as int,
                    y as int,
                    scale as int,
                    i as int,
                    j as int + 1,
                );
                if !glyph_bit(g, i as int, j as int) {
                    assert(first + rest =~= rest);
                }
                lemma_paint_pts_concat(prev, w0, h0, first, rest, color);
            }
            j = j + 1;
        }
    }

    /// Stamp a whole glyph with its top-left corner at `(cx, y)`.
    fn stamp_glyph(&mut self, g: u64, cx: i128, y: i128, scale: i128, color: u32)
        requires
            old(self).wf(),
            -0x1000_0000_0000_0000_0000_0000_0000 <= cx <= 0x1000_0000_0000_0000_0000_0000_0000,
            -0x1000_0000_0000_0000_0000_0000_0000 <= y <= 0x1000_0000_0000_0000_0000_0000_0000,
            -0x1_0000_0000 <= scale <= 0x1_0000_0000,
        ensures
            final(self).wf(),
            final(self).spec_width() == old(self).spec_width(),
            final(self).spec_height() == old(self).spec_height(),
            final(self)@ == paint_pts(
                old(self)@,
                old(self).spec_width(),
                old(self).spec_height(),
                glyph_pts(g, cx as int, y as int, scale as int, 0),
                color,
            ),
    {
        let ghost w0 = self.spec_width();
        let ghost h0 = self.spec_height();
        let ghost target = paint_pts(
            self@,
            w0,
            h0,
            glyph_pts(g, cx as int, y as int, scale as int, 0),
            color,
        );
        let mut i: u64 = 0;
        while i < 8
            invariant
                self.wf(),
                self.spec_width() == w0,
                self.spec_height() == h0,
                i <= 8,
                -0x1000_0000_0000_0000_0000_0000_0000 <= cx
                    <= 0x1000_0000_0000_0000_0000_0000_0000,
                -0x1000_0000_0000_0000_0000_0000_0000 <= y
                    <= 0x1000_0000_0000_0000_0000_0000_0000,
                -0x1_0000_0000 <= scale <= 0x1_0000_0000,
                paint_pts(
                    self@,
                    w0,
                    h0,
                    glyph_pts(g, cx as int, y as int, scale as int, i as int),
                    color,
                ) == target,
            decreases 8 - i,
        {
            let ghost prev = self@;
            self.stamp_glyph_row(g, cx, y, scale, i, color);
            proof {
                let first = glyph_row_pts(g, cx as int, y as int, scale as int, i as int, 0);
                let rest = glyph_pts(g, cx as int, y as int, scale as int, i as int + 1);
                lemma_paint_pts_concat(prev, w0, h0, first, rest, color);
            }
            i = i + 1;
        }
    }

    /// Draw `text` with its top-left corner at `(x, y)`: one fixed-width
    /// 8x8 glyph per character, scaled by `scale`, the cursor advancing
    /// by exactly `8 * scale` whatever the glyph holds. Letters render
    /// the same in either case; characters outside the table render
    /// blank and still advance the cursor.
    pub fn draw_text(&mut self, text: &str, x: i32, y: i32, scale: i32, color: u32)
        requires
            old(self).wf(),
        ensures
            final(self).wf(),
            final(self).spec_width() == old(self).spec_width(),
            final(self).spec_height() == old(self).spec_height(),
            final(self)@ == paint_pts(
                old(self)@,
                old(self).spec_width(),
                old(self).spec_height(),
                text_pts(text@, x as int, y as int, scale as int),
                color,
            ),
    {
        let ghost w0 = self.spec_width();
        let ghost h0 = self.spec_height();
        let ghost target = paint_pts(
            self@,
            w0,
            h0,
            text_pts(text@, x as int, y as int, scale as int),
            color,
        );
        let n = text.unicode_len();
        let es: i128 = 8 * (scale as i128);
        let ya = y as i128;
        let mut cur_x: i128 = x as i128;
        let mut k: usize = 0;
        proof {
            assert(text@.skip(0) =~= text@);
        }
        while k < n
            invariant
                self.wf(),
                self.spec_width() == w0,
                self.spec_height() == h0,
                k <= n,
                n == text@.len(),
                es == 8 * (scale as int),
                -0x1_0000_0000 <= ya <= 0x1_0000_0000,
                -0x1_0000_0000 <= scale as int <= 0x1_0000_0000,
                cur_x == x as int + (k as int) * es,
                -0x1000_0000_0000_0000_0000_0000_0000 <= cur_x
                    <= 0x1000_0000_0000_0000_0000_0000_0000,
                paint_pts(
                    self@,
                    w0,
                    h0,
                    text_pts(text@.skip(k as int), cur_x as int, ya as int, scale as int),
                    color,
                ) == target,
            decreases n - k,
        {
            let ghost prev = self@;
            let c = text.get_char(k);
            let g = glyph(c);
            self.stamp_glyph(g, cur_x, ya, scale as i128, color);
            proof {
                assert(text@.skip(k as int)[0] == text@[k as int]);
                assert(text@.skip(k as int).drop_first() =~= text@.skip(k as int + 1));
                let first = glyph_pts(
                    spec_glyph(text@[k as int]),
                    cur_x as int,
                    ya as int,
                    scale as int,
                    0,
                );
                let rest = text_pts(
                    text@.skip(k as int + 1),
                    cur_x as int + 8 * (scale as int),
                    ya as int,
                    scale as int,
                );
                lemma_paint_pts_concat(prev, w0, h0, first, rest, color);
                assert((k as int + 1) * es == (k as int) * es + es) by (nonlinear_arith);
                assert(-0x100_0000_0000_0000_0000_0000_0000 <= (k as int + 1) * es
                    <= 0x100_0000_0000_0000_0000_0000_0000) by (nonlinear_arith)
                    requires
                        0 <= k as int + 1 <= 0x2_0000_0000_0000_0000,
                        -0x8_0000_0000 <= es <= 0x8_0000_0000,
                ;
            }
            cur_x = cur_x + es;
            k = k + 1;
        }
    }

    /// Overwrite every pixel with `color`.
    pub fn clear_color(&mut self, color: u32)
        requires
            old(self).wf(),
        ensures
            final(self).wf(),
            final(self).spec_width() == old(self).spec_width(),
            final(self).spec_height() == old(self).spec_height(),
            final(self)@.len() == old(self)@.len(),
            forall|i: int| 0 <= i < final(self)@.len() ==> final(self)@[i] == color,
    {
        let ghost w0 = self.spec_width();
        let ghost h0 = self.spec_height();
        let n = self.buffer.len();
        let mut i: usize = 0;
        while i < n
            invariant
                i <= n,
                self.spec_width() == w0,
                self.spec_height() == h0,
                self.wf(),
                self@.len() == n,
                forall|k: int| 0 <= k < i ==> self@[k] == color,
            decreases n - i,
        {
            self.buffer[i] = color;
            i = i + 1;
        }
    }

    /// Overwrite every pixel with black.
    pub fn clear(&mut self)
        requires
            old(self).wf(),
        ensures
            final(self).wf(),
            final(self).spec_width() == old(self).spec_width(),
            final(self).spec_height() == old(self).spec_height(),
            final(self)@.len() == old(self)@.len(),
            forall|i: int| 0 <= i < final(self)@.len() ==> final(self)@[i] == 0u32,
    {
        self.clear_color(0);
    }
}

} // verus!
