//! The mathematical model of rasterization.
//!
//! A buffer is a row-major `Seq<u32>` of packed colors for a `width` by
//! `height` surface. Every drawing primitive is specified as the sequence
//! of integer points it stamps, in stamping order, and `paint_pts` folds
//! such a sequence over a buffer: in-range points are written, all others
//! are silently dropped.

use crate::color::abs_spec;
use vstd::prelude::*;

verus! {

/// `p` lies inside a `w` by `h` surface.
pub open spec fn pt_in_bounds(w: int, h: int, p: (int, int)) -> bool {
    0 <= p.0 < w && 0 <= p.1 < h
}

/// Row-major linear index of `p` on a surface of width `w`.
pub open spec fn pt_index(w: int, p: (int, int)) -> int {
    p.1 * w + p.0
}

/// One bounds-checked write: the coordinates must lie on the surface and
/// the computed index inside the sequence, else the buffer is left as it
/// was.
pub open spec fn paint_pixel(buf: Seq<u32>, w: int, h: int, p: (int, int), color: u32) -> Seq<
    u32,
> {
    if pt_in_bounds(w, h, p) && 0 <= pt_index(w, p) < buf.len() {
        buf.update(pt_index(w, p), color)
    } else {
        buf
    }
}

/// On a well-shaped surface, an in-bounds point has an in-range index.
pub proof fn lemma_pt_index_bound(w: int, h: int, p: (int, int))
    requires
        pt_in_bounds(w, h, p),
    ensures
        0 <= pt_index(w, p) < w * h,
{
    assert(0 <= p.1 * w + p.0 < w * h) by (nonlinear_arith)
        requires
            0 <= p.0 < w,
            0 <= p.1 < h,
    ;
}

/// Stamps every point of `pts` in order, each with a bounds-checked write.
pub open spec fn paint_pts(buf: Seq<u32>, w: int, h: int, pts: Seq<(int, int)>, color: u32) -> Seq<
    u32,
>
    decreases pts.len(),
{
    if pts.len() == 0 {
        buf
    } else {
        paint_pts(paint_pixel(buf, w, h, pts[0], color), w, h, pts.drop_first(), color)
    }
}

/// Some point of `pts` lies in bounds and maps to linear index `idx`.
pub open spec fn pts_cover_index(pts: Seq<(int, int)>, w: int, h: int, idx: int) -> bool {
    exists|k: int|
        0 <= k < pts.len() && pt_in_bounds(w, h, pts[k]) && pt_index(w, pts[k]) == idx
}

/// Painting a concatenation paints the first part, then the second.
pub proof fn lemma_paint_pts_concat(
    buf: Seq<u32>,
    w: int,
    h: int,
    a: Seq<(int, int)>,
    b: Seq<(int, int)>,
    color: u32,
)
    ensures
        paint_pts(buf, w, h, a + b, color) == paint_pts(paint_pts(buf, w, h, a, color), w, h, b, color),
    decreases a.len(),
{
    if a.len() == 0 {
        assert(a + b =~= b);
    } else {
        let buf1 = paint_pixel(buf, w, h, a[0], color);
        assert((a + b)[0] == a[0]);
        assert((a + b).drop_first() =~= a.drop_first() + b);
        lemma_paint_pts_concat(buf1, w, h, a.drop_first(), b, color);
    }
}

/// Painting a single point is one bounds-checked write.
pub proof fn lemma_paint_pts_one(buf: Seq<u32>, w: int, h: int, p: (int, int), color: u32)
    ensures
        paint_pts(buf, w, h, seq![p], color) == paint_pixel(buf, w, h, p, color),
{
    assert(seq![p].len() == 1);
    assert(seq![p][0] == p);
    assert(seq![p].drop_first() =~= Seq::<(int, int)>::empty());
    assert(paint_pts(paint_pixel(buf, w, h, p, color), w, h, Seq::<(int, int)>::empty(), color)
        == paint_pixel(buf, w, h, p, color));
}

/// Painting `[p] + rest` writes `p` first, then paints `rest`.
pub proof fn lemma_paint_pts_cons(
    buf: Seq<u32>,
    w: int,
    h: int,
    p: (int, int),
    rest: Seq<(int, int)>,
    color: u32,
)
    ensures
        paint_pts(buf, w, h, seq![p] + rest, color) == paint_pts(
            paint_pixel(buf, w, h, p, color),
            w,
            h,
            rest,
            color,
        ),
{
    assert((seq![p] + rest)[0] == p);
    assert((seq![p] + rest).drop_first() =~= rest);
}

/// What one painted index holds: `color` where some point of `pts` covers
/// it, the old value everywhere else.
pub proof fn lemma_paint_pts_at(
    buf: Seq<u32>,
    w: int,
    h: int,
    pts: Seq<(int, int)>,
    color: u32,
    idx: int,
)
    requires
        0 <= idx < buf.len(),
        buf.len() == w * h,
    ensures
        pts_cover_index(pts, w, h, idx) ==> paint_pts(buf, w, h, pts, color)[idx] == color,
        !pts_cover_index(pts, w, h, idx) ==> paint_pts(buf, w, h, pts, color)[idx] == buf[idx],
    decreases pts.len(),
{
    if pts.len() > 0 {
        let buf1 = paint_pixel(buf, w, h, pts[0], color);
        let rest = pts.drop_first();
        if pt_in_bounds(w, h, pts[0]) {
            lemma_pt_index_bound(w, h, pts[0]);
        }
        lemma_paint_pts_at(buf1, w, h, rest, color, idx);
        if pts_cover_index(rest, w, h, idx) {
            let k = choose|k: int|
                0 <= k < rest.len() && pt_in_bounds(w, h, rest[k]) && pt_index(w, rest[k]) == idx;
            assert(pts[k + 1] == rest[k]);
        } else if pt_in_bounds(w, h, pts[0]) && pt_index(w, pts[0]) == idx {
            assert(pts_cover_index(pts, w, h, idx));
            if 0 <= pt_index(w, pts[0]) < buf.len() {
                assert(buf1[idx] == color);
            }
        } else {
            assert(buf1[idx] == buf[idx]);
            if pts_cover_index(pts, w, h, idx) {
                let k = choose|k: int|
                    0 <= k < pts.len() && pt_in_bounds(w, h, pts[k]) && pt_index(w, pts[k]) == idx;
                assert(rest[k - 1] == pts[k]);
                assert(pts_cover_index(rest, w, h, idx));
            }
        }
    }
}

/// Step direction of a Bresenham axis: toward the second coordinate.
pub open spec fn step_dir(a: int, b: int) -> int {
    if a < b {
        1
    } else {
        -1
    }
}

/// Starting error accumulator of the thin-line walk:
/// half the dominant delta, negated for y-dominant lines.
pub open spec fn line_start_err(dx: int, dy: int) -> int {
    if dx > dy {
        dx / 2
    } else {
        -(dy / 2)
    }
}

/// The points of the thin Bresenham walk from `(x, y)` toward `(x2, y2)`,
/// both endpoints included. Each step stamps the current point, then
/// advances along the axes whose error test fires. The distance check on
/// the recursive call only bounds the recursion: from the states
/// `line_points` starts it in, the walk always moves toward the endpoint
/// and the check never cuts it short, which `lemma_line_points_complete`
/// proves.
pub open spec fn line_rec(
    x: int,
    y: int,
    x2: int,
    y2: int,
    dx: int,
    dy: int,
    sx: int,
    sy: int,
    err: int,
) -> Seq<(int, int)>
    decreases abs_spec(x2 - x) + abs_spec(y2 - y),
{
    if x == x2 && y == y2 {
        seq![(x, y)]
    } else {
        let xn = if err > -dx {
            x + sx
        } else {
            x
        };
        let yn = if err < dy {
            y + sy
        } else {
            y
        };
        let en = err + (if err > -dx {
            -dy
        } else {
            0
        }) + (if err < dy {
            dx
        } else {
            0
        });
        if abs_spec(x2 - xn) + abs_spec(y2 - yn) < abs_spec(x2 - x) + abs_spec(y2 - y) {
            seq![(x, y)] + line_rec(xn, yn, x2, y2, dx, dy, sx, sy, en)
        } else {
            seq![(x, y)]
        }
    }
}

/// The points of the thin line from `(x1, y1)` to `(x2, y2)`.
pub open spec fn line_points(x1: int, y1: int, x2: int, y2: int) -> Seq<(int, int)> {
    let dx = abs_spec(x2 - x1);
    let dy = abs_spec(y2 - y1);
    line_rec(
        x1,
        y1,
        x2,
        y2,
        dx,
        dy,
        step_dir(x1, x2),
        step_dir(y1, y2),
        line_start_err(dx, dy),
    )
}

/// A left-to-right horizontal walk steps one pixel right each time:
/// the thin line from `(x1, y)` to `(x2, y)` is exactly the `x2 - x1 + 1`
/// points `(x1, y), (x1 + 1, y), ..., (x2, y)`.
pub proof fn lemma_line_points_horizontal(x1: int, y: int, x2: int)
    requires
        x1 <= x2,
    ensures
        line_points(x1, y, x2, y) =~= Seq::new((x2 - x1 + 1) as nat, |i: int| (x1 + i, y)),
{
    let dx = x2 - x1;
    lemma_line_rec_horizontal(x1, y, x2, dx, step_dir(y, y), line_start_err(dx, 0));
}

/// Under the walk invariant, the dominant axis has at least as many
/// steps left as the other: the error term keeps the counters coupled.
proof fn lemma_walk_dominant(dx: int, dy: int, cu: int, cv: int, err: int)
    requires
        0 <= cu <= dx,
        0 <= cv <= dy,
        err == line_start_err(dx, dy) + cu * dy - cv * dx,
        dx > dy ==> 0 <= err <= dx - 1,
        dx <= dy && dx + dy > 0 ==> -(dy - 1) <= err <= 0,
    ensures
        dx > dy ==> cv <= cu,
        dx <= dy ==> cu <= cv,
{
    if dx > dy {
        if cv > cu {
            assert(cv * dx >= (cu + 1) * dx) by (nonlinear_arith)
                requires
                    cv >= cu + 1,
                    dx >= 0,
            ;
            assert(cu * dy <= cu * dx - cu) by (nonlinear_arith)
                requires
                    dy <= dx - 1,
                    cu >= 0,
            ;
            assert(err <= dx / 2 + cu * dy - (cu + 1) * dx);
            assert((cu + 1) * dx == cu * dx + dx) by (nonlinear_arith);
            assert(err <= dx / 2 - cu - dx);
            assert(false);
        }
    } else if dx + dy > 0 {
        if cu > cv {
            assert(cu * dy >= (cv + 1) * dy) by (nonlinear_arith)
                requires
                    cu >= cv + 1,
                    dy >= 0,
            ;
            assert(cv * dx <= cv * dy) by (nonlinear_arith)
                requires
                    dx <= dy,
                    cv >= 0,
            ;
            assert((cv + 1) * dy == cv * dy + dy) by (nonlinear_arith);
            assert(err >= -(dy / 2) + dy);
            assert(dy >= 1);
            assert(false);
        }
    }
}

/// From any state of the walk invariant, the thin-line recursion runs to
/// the endpoint: it emits exactly one point per remaining dominant-axis
/// step and finishes on `(x2, y2)`, never taking its bounding cut.
proof fn lemma_line_rec_complete(
    x: int,
    y: int,
    x2: int,
    y2: int,
    dx: int,
    dy: int,
    sx: int,
    sy: int,
    err: int,
    cu: int,
    cv: int,
)
    requires
        sx == 1 || sx == -1,
        sy == 1 || sy == -1,
        cu == (x2 - x) * sx,
        cv == (y2 - y) * sy,
        0 <= cu <= dx,
        0 <= cv <= dy,
        err == line_start_err(dx, dy) + cu * dy - cv * dx,
        dx > dy ==> 0 <= err <= dx - 1,
        dx <= dy && dx + dy > 0 ==> -(dy - 1) <= err <= 0,
    ensures
        line_rec(x, y, x2, y2, dx, dy, sx, sy, err).len() == (if cu >= cv {
            cu
        } else {
            cv
        }) + 1,
        line_rec(x, y, x2, y2, dx, dy, sx, sy, err).last() == (x2, y2),
    decreases cu + cv,
{
    let pts = line_rec(x, y, x2, y2, dx, dy, sx, sy, err);
    lemma_walk_dominant(dx, dy, cu, cv, err);
    if x == x2 && y == y2 {
        assert(cu == 0 && cv == 0);
    } else {
        if x != x2 {
            assert(cu >= 1) by (nonlinear_arith)
                requires
                    cu == (x2 - x) * sx,
                    x2 - x != 0,
                    sx == 1 || sx == -1,
                    cu >= 0,
            ;
        }
        if y != y2 {
            assert(cv >= 1) by (nonlinear_arith)
                requires
                    cv == (y2 - y) * sy,
                    y2 - y != 0,
                    sy == 1 || sy == -1,
                    cv >= 0,
            ;
        }
        let fx = err > -dx;
        let fy = err < dy;
        // neither axis overshoots: a finished axis never fires again
        if cu == 0 {
            assert(cv >= 1);
            assert(cv * dx >= dx) by (nonlinear_arith)
                requires
                    cv >= 1,
                    dx >= 0,
            ;
            assert(cu * dy == 0) by (nonlinear_arith)
                requires
                    cu == 0,
            ;
            assert(!fx);
        }
        if cv == 0 {
            assert(cu >= 1);
            assert(cu * dy >= dy) by (nonlinear_arith)
                requires
                    cu >= 1,
                    dy >= 0,
            ;
            assert(cv * dx == 0) by (nonlinear_arith)
                requires
                    cv == 0,
            ;
            assert(!fy);
        }
        // at least one axis fires, so the walk moves
        if dx > dy {
            assert(cu >= 1);
            assert(fx);
        } else {
            assert(dy >= 1);
            assert(cv >= 1);
            assert(fy);
        }
        let xn = if fx {
            x + sx
        } else {
            x
        };
        let yn = if fy {
            y + sy
        } else {
            y
        };
        let en = err + (if fx {
            -dy
        } else {
            0
        }) + (if fy {
            dx
        } else {
            0
        });
        let cun = if fx {
            cu - 1
        } else {
            cu
        };
        let cvn = if fy {
            cv - 1
        } else {
            cv
        };
        assert(cun == (x2 - xn) * sx && cvn == (y2 - yn) * sy) by (nonlinear_arith)
            requires
                sx == 1 || sx == -1,
                sy == 1 || sy == -1,
                cu == (x2 - x) * sx,
                cv == (y2 - y) * sy,
                xn == (if fx {
                    x + sx
                } else {
                    x
                }),
                yn == (if fy {
                    y + sy
                } else {
                    y
                }),
                cun == (if fx {
                    cu - 1
                } else {
                    cu
                }),
                cvn == (if fy {
                    cv - 1
                } else {
                    cv
                }),
        ;
        assert(en == line_start_err(dx, dy) + cun * dy - cvn * dx) by (nonlinear_arith)
            requires
                err == line_start_err(dx, dy) + cu * dy - cv * dx,
                en == err + (if fx {
                    -dy
                } else {
                    0int
                }) + (if fy {
                    dx
                } else {
                    0int
                }),
                cun == (if fx {
                    cu - 1
                } else {
                    cu
                }),
                cvn == (if fy {
                    cv - 1
                } else {
                    cv
                }),
        ;
        assert(abs_spec(x2 - x) == cu && abs_spec(y2 - y) == cv) by (nonlinear_arith)
            requires
                sx == 1 || sx == -1,
                sy == 1 || sy == -1,
                cu == (x2 - x) * sx,
                cv == (y2 - y) * sy,
                cu >= 0,
                cv >= 0,
        ;
        assert(abs_spec(x2 - xn) == cun && abs_spec(y2 - yn) == cvn) by (nonlinear_arith)
            requires
                sx == 1 || sx == -1,
                sy == 1 || sy == -1,
                cun == (x2 - xn) * sx,
                cvn == (y2 - yn) * sy,
                cun >= 0,
                cvn >= 0,
        ;
        lemma_line_rec_complete(xn, yn, x2, y2, dx, dy, sx, sy, en, cun, cvn);
        lemma_walk_dominant(dx, dy, cun, cvn, en);
        let rest = line_rec(xn, yn, x2, y2, dx, dy, sx, sy, en);
        assert(pts == seq![(x, y)] + rest);
        assert(pts.last() == rest.last());
    }
}

/// A thin line holds exactly `max(|x2 - x1|, |y2 - y1|) + 1` points: it
/// starts on `(x1, y1)`, ends on `(x2, y2)`, and steps its dominant axis
/// once per point.
pub proof fn lemma_line_points_complete(x1: int, y1: int, x2: int, y2: int)
    ensures
        line_points(x1, y1, x2, y2).len() == (if abs_spec(x2 - x1) >= abs_spec(y2 - y1) {
            abs_spec(x2 - x1)
        } else {
            abs_spec(y2 - y1)
        }) + 1,
        line_points(x1, y1, x2, y2).last() == (x2, y2),
        line_points(x1, y1, x2, y2)[0] == (x1, y1),
{
    let dx = abs_spec(x2 - x1);
    let dy = abs_spec(y2 - y1);
    let sx = step_dir(x1, x2);
    let sy = step_dir(y1, y2);
    let e0 = line_start_err(dx, dy);
    assert((x2 - x1) * sx == dx && (y2 - y1) * sy == dy) by (nonlinear_arith)
        requires
            dx == abs_spec(x2 - x1),
            dy == abs_spec(y2 - y1),
            sx == step_dir(x1, x2),
            sy == step_dir(y1, y2),
    ;
    assert(dx * dy == dy * dx) by (nonlinear_arith);
    lemma_line_rec_complete(x1, y1, x2, y2, dx, dy, sx, sy, e0, dx, dy);
}

/// The brush half-width of the widened line: half the requested width,
/// never negative, so that a non-positive width still stamps one pixel.
pub open spec fn brush_half(width: int) -> int {
    if width >= 1 {
        width / 2
    } else {
        0
    }
}

/// One column of a stamped brush square: `(x, y - hw) ..= (x, y + hw)`,
/// walked from the offset `j` upward.
pub open spec fn brush_col(x: int, y: int, hw: int, j: int) -> Seq<(int, int)>
    decreases hw - j + 1,
{
    if j > hw || hw - j + 1 < 0 {
        Seq::empty()
    } else {
        seq![(x, y + j)] + brush_col(x, y, hw, j + 1)
    }
}

/// The brush square of half-width `hw` centered on `(x, y)`: columns at
/// x-offsets `i .. hw`, each column top to bottom.
pub open spec fn brush_square(x: int, y: int, hw: int, i: int) -> Seq<(int, int)>
    decreases hw - i + 1,
{
    if i > hw || hw - i + 1 < 0 {
        Seq::empty()
    } else {
        brush_col(x + i, y, hw, -hw) + brush_square(x, y, hw, i + 1)
    }
}

/// The points of the widened Bresenham walk from `(x, y)` toward
/// `(x2, y2)`: each visited point except the final one stamps a brush
/// square. The distance check on the recursive call only bounds the
/// recursion, as in `line_rec`.
pub open spec fn wline_rec(
    x: int,
    y: int,
    x2: int,
    y2: int,
    dx: int,
    dy: int,
    sx: int,
    sy: int,
    hw: int,
    err: int,
) -> Seq<(int, int)>
    decreases abs_spec(x2 - x) + abs_spec(y2 - y),
{
    if x == x2 && y == y2 {
        Seq::empty()
    } else {
        let xn = if 2 * err > -dy {
            x + sx
        } else {
            x
        };
        let yn = if 2 * err < dx {
            y + sy
        } else {
            y
        };
        let en = err + (if 2 * err > -dy {
            -dy
        } else {
            0
        }) + (if 2 * err < dx {
            dx
        } else {
            0
        });
        if abs_spec(x2 - xn) + abs_spec(y2 - yn) < abs_spec(x2 - x) + abs_spec(y2 - y) {
            brush_square(x, y, hw, -hw) + wline_rec(xn, yn, x2, y2, dx, dy, sx, sy, hw, en)
        } else {
            brush_square(x, y, hw, -hw)
        }
    }
}

/// The points of the widened line from `(x0, y0)` to `(x1, y1)`.
pub open spec fn wline_points(x0: int, y0: int, x1: int, y1: int, width: int) -> Seq<(int, int)> {
    let dx = abs_spec(x1 - x0);
    let dy = abs_spec(y1 - y0);
    wline_rec(
        x0,
        y0,
        x1,
        y1,
        dx,
        dy,
        step_dir(x0, x1),
        step_dir(y0, y1),
        brush_half(width),
        dx - dy,
    )
}

/// The outline of the axis-aligned rectangle with corners `(x, y)` and
/// `(x + w, y + h)`: its four edges as thin lines, drawn in order.
pub open spec fn rect_points(x: int, y: int, w: int, h: int) -> Seq<(int, int)> {
    let x2 = x + w;
    let y2 = y + h;
    line_points(x, y, x2, y) + line_points(x2, y, x2, y2) + line_points(x2, y2, x, y2)
        + line_points(x, y2, x, y)
}

/// The filled rectangle: one thin horizontal line per row `y .. y + h`,
/// each spanning `x ..= x + w`.
pub open spec fn rect_fill_points(x: int, y: int, w: int, h: int) -> Seq<(int, int)>
    decreases h,
{
    if h <= 0 {
        Seq::empty()
    } else {
        line_points(x, y, x + w, y) + rect_fill_points(x, y + 1, w, h - 1)
    }
}

/// The eight symmetric reflections of the offset `(x, y)` about `(cx, cy)`,
/// in stamping order.
pub open spec fn circle_octet(cx: int, cy: int, x: int, y: int) -> Seq<(int, int)> {
    seq![
        (cx + x, cy + y),
        (cx + y, cy + x),
        (cx - y, cy + x),
        (cx - x, cy + y),
        (cx - x, cy - y),
        (cx - y, cy - x),
        (cx + y, cy - x),
        (cx + x, cy - y),
    ]
}

/// The points of the midpoint circle outline walk: while `x >= y`, stamp
/// the eight reflections of `(x, y)`, advance `y`, and pull `x` inward
/// when the decision value crosses the midpoint.
pub open spec fn circle_rec(cx: int, cy: int, x: int, y: int, err: int) -> Seq<(int, int)>
    decreases
            (if x >= y {
                x - y + 1
            } else {
                0
            }),
{
    if x < y {
        Seq::empty()
    } else {
        let y1 = y + 1;
        let e1 = err + 1 + 2 * y1;
        let x1 = if 2 * (e1 - x) + 1 > 0 {
            x - 1
        } else {
            x
        };
        let e2 = if 2 * (e1 - x) + 1 > 0 {
            e1 + 1 - 2 * x1
        } else {
            e1
        };
        circle_octet(cx, cy, x, y) + circle_rec(cx, cy, x1, y1, e2)
    }
}

/// The points of the circle outline of radius `r` centered on `(cx, cy)`.
pub open spec fn circle_points(cx: int, cy: int, r: int) -> Seq<(int, int)> {
    circle_rec(cx, cy, r, 0, 0)
}

/// The four horizontal chords stamped by one step of the filled circle:
/// mirrored across the horizontal and vertical axes through the center.
pub open spec fn circle_chords(cx: int, cy: int, x: int, y: int) -> Seq<(int, int)> {
    line_points(cx - x, cy - y, cx + x, cy - y) + line_points(cx - x, cy + y, cx + x, cy + y)
        + line_points(cx - y, cy - x, cx + y, cy - x) + line_points(cx - y, cy + x, cx + y, cy + x)
}

/// The points of the scanline-chord circle fill walk: while `x <= y`,
/// stamp four chords and advance the decision value `dp`, pulling `y`
/// inward when it turns nonnegative. Its footprint is deliberately not
/// that of the outline walk.
pub open spec fn circle_fill_rec(cx: int, cy: int, x: int, y: int, dp: int) -> Seq<(int, int)>
    decreases
            (if y >= x {
                y - x + 1
            } else {
                0
            }),
{
    if x > y {
        Seq::empty()
    } else {
        let (yn, dpn) = if dp < 0 {
            (y, dp + 2 * x + 3)
        } else {
            (y - 1, dp + 2 * (x - y) + 5)
        };
        circle_chords(cx, cy, x, y) + circle_fill_rec(cx, cy, x + 1, yn, dpn)
    }
}

/// The points of the filled circle of radius `r` centered on `(cx, cy)`.
pub open spec fn circle_fill_points(cx: int, cy: int, r: int) -> Seq<(int, int)> {
    circle_fill_rec(cx, cy, 0, r, 1 - r)
}

/// On one surface, distinct in-bounds points have distinct linear
/// indices.
pub proof fn lemma_pt_index_injective(w: int, h: int, p: (int, int), q: (int, int))
    requires
        pt_in_bounds(w, h, p),
        pt_in_bounds(w, h, q),
        pt_index(w, p) == pt_index(w, q),
    ensures
        p == q,
{
    assert(p.0 == q.0 && p.1 == q.1) by (nonlinear_arith)
        requires
            0 <= p.0 < w,
            0 <= q.0 < w,
            0 <= p.1 < h,
            0 <= q.1 < h,
            p.1 * w + p.0 == q.1 * w + q.0,
    ;
}

/// What a painted horizontal line leaves at each pixel: a left-to-right
/// thin line from `(x1, y)` to `(x2, y)` sets exactly the pixels
/// `(x1, y) ..= (x2, y)` to `color` and leaves every other pixel of a
/// well-shaped buffer unchanged.
pub proof fn lemma_horizontal_line_paint(
    buf: Seq<u32>,
    w: int,
    h: int,
    x1: int,
    y: int,
    x2: int,
    color: u32,
    px: int,
    py: int,
)
    requires
        x1 <= x2,
        buf.len() == w * h,
        pt_in_bounds(w, h, (px, py)),
    ensures
        paint_pts(buf, w, h, line_points(x1, y, x2, y), color)[pt_index(w, (px, py))] == (
        if x1 <= px <= x2 && py == y {
            color
        } else {
            buf[pt_index(w, (px, py))]
        }),
{
    let pts = line_points(x1, y, x2, y);
    let idx = pt_index(w, (px, py));
    lemma_line_points_horizontal(x1, y, x2);
    lemma_pt_index_bound(w, h, (px, py));
    lemma_paint_pts_at(buf, w, h, pts, color, idx);
    if x1 <= px <= x2 && py == y {
        let k = px - x1;
        assert(pts[k] == (px, py));
        assert(pts_cover_index(pts, w, h, idx));
    } else {
        if pts_cover_index(pts, w, h, idx) {
            let k = choose|k: int|
                0 <= k < pts.len() && pt_in_bounds(w, h, pts[k]) && pt_index(w, pts[k]) == idx;
            lemma_pt_index_injective(w, h, pts[k], (px, py));
        }
    }
}

/// Membership in a concatenation is membership in either part.
proof fn lemma_concat_contains(a: Seq<(int, int)>, b: Seq<(int, int)>, p: (int, int))
    ensures
        (a + b).contains(p) <==> a.contains(p) || b.contains(p),
{
    if (a + b).contains(p) {
        let k = choose|k: int| 0 <= k < (a + b).len() && (a + b)[k] == p;
        if k < a.len() {
            assert(a[k] == p);
        } else {
            assert(b[k - a.len()] == p);
        }
    }
    if a.contains(p) {
        let k = choose|k: int| 0 <= k < a.len() && a[k] == p;
        assert((a + b)[k] == p);
    }
    if b.contains(p) {
        let k = choose|k: int| 0 <= k < b.len() && b[k] == p;
        assert((a + b)[a.len() + k] == p);
    }
}

/// An octet holds the offset `(a, b)` only if it also holds `(b, a)`,
/// `(-a, b)` and `(a, -b)`: it is one orbit of the eight reflections.
proof fn lemma_octet_reflections(cx: int, cy: int, x: int, y: int, a: int, b: int)
    ensures
        circle_octet(cx, cy, x, y).contains((cx + a, cy + b)) ==> circle_octet(
            cx,
            cy,
            x,
            y,
        ).contains((cx + b, cy + a)),
        circle_octet(cx, cy, x, y).contains((cx + a, cy + b)) ==> circle_octet(
            cx,
            cy,
            x,
            y,
        ).contains((cx + (-a), cy + b)),
        circle_octet(cx, cy, x, y).contains((cx + a, cy + b)) ==> circle_octet(
            cx,
            cy,
            x,
            y,
        ).contains((cx + a, cy + (-b))),
{
    let s = circle_octet(cx, cy, x, y);
    if s.contains((cx + a, cy + b)) {
        let k = choose|k: int| 0 <= k < s.len() && s[k] == (cx + a, cy + b);
        assert(s[0] == (cx + x, cy + y));
        assert(s[1] == (cx + y, cy + x));
        assert(s[2] == (cx - y, cy + x));
        assert(s[3] == (cx - x, cy + y));
        assert(s[4] == (cx - x, cy - y));
        assert(s[5] == (cx - y, cy - x));
        assert(s[6] == (cx + y, cy - x));
        assert(s[7] == (cx + x, cy - y));
    }
}

/// The outline walk stamps a point set symmetric under the eight sign
/// and axis-swap reflections about the center: wherever it holds the
/// offset `(a, b)` from `(cx, cy)`, it also holds `(b, a)`, `(-a, b)`
/// and `(a, -b)`, whose compositions give all eight reflections.
pub proof fn lemma_circle_points_symmetric(cx: int, cy: int, r: int, a: int, b: int)
    ensures
        circle_points(cx, cy, r).contains((cx + a, cy + b)) <==> circle_points(cx, cy, r).contains(
            (cx + b, cy + a),
        ),
        circle_points(cx, cy, r).contains((cx + a, cy + b)) <==> circle_points(cx, cy, r).contains(
            (cx + (-a), cy + b),
        ),
        circle_points(cx, cy, r).contains((cx + a, cy + b)) <==> circle_points(cx, cy, r).contains(
            (cx + a, cy + (-b)),
        ),
{
    lemma_circle_rec_reflections(cx, cy, r, 0, 0, a, b);
    lemma_circle_rec_reflections(cx, cy, r, 0, 0, b, a);
    lemma_circle_rec_reflections(cx, cy, r, 0, 0, -a, b);
    lemma_circle_rec_reflections(cx, cy, r, 0, 0, a, -b);
}

proof fn lemma_circle_rec_reflections(cx: int, cy: int, x: int, y: int, err: int, a: int, b: int)
    ensures
        circle_rec(cx, cy, x, y, err).contains((cx + a, cy + b)) ==> circle_rec(
            cx,
            cy,
            x,
            y,
            err,
        ).contains((cx + b, cy + a)),
        circle_rec(cx, cy, x, y, err).contains((cx + a, cy + b)) ==> circle_rec(
            cx,
            cy,
            x,
            y,
            err,
        ).contains((cx + (-a), cy + b)),
        circle_rec(cx, cy, x, y, err).contains((cx + a, cy + b)) ==> circle_rec(
            cx,
            cy,
            x,
            y,
            err,
        ).contains((cx + a, cy + (-b))),
    decreases
            (if x >= y {
                x - y + 1
            } else {
                0
            }),
{
    if x < y {
    } else {
        let oct = circle_octet(cx, cy, x, y);
        let y1 = y + 1;
        let e1 = err + 1 + 2 * y1;
        let x1 = if 2 * (e1 - x) + 1 > 0 {
            x - 1
        } else {
            x
        };
        let e2 = if 2 * (e1 - x) + 1 > 0 {
            e1 + 1 - 2 * x1
        } else {
            e1
        };
        let rest = circle_rec(cx, cy, x1, y1, e2);
        lemma_octet_reflections(cx, cy, x, y, a, b);
        lemma_circle_rec_reflections(cx, cy, x1, y1, e2, a, b);
        lemma_concat_contains(oct, rest, (cx + a, cy + b));
        lemma_concat_contains(oct, rest, (cx + b, cy + a));
        lemma_concat_contains(oct, rest, (cx + (-a), cy + b));
        lemma_concat_contains(oct, rest, (cx + a, cy + (-b)));
    }
}

proof fn lemma_line_rec_horizontal(x: int, y: int, x2: int, dx: int, sy: int, err: int)
    requires
        x <= x2,
        err >= 0,
        dx >= x2 - x,
    ensures
        line_rec(x, y, x2, y, dx, 0, 1, sy, err) =~= Seq::new(
            (x2 - x + 1) as nat,
            |i: int| (x + i, y),
        ),
    decreases x2 - x,
{
    if x == x2 {
    } else {
        lemma_line_rec_horizontal(x + 1, y, x2, dx, sy, err);
    }
}

} // verus!
