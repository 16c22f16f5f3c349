//! Layout helpers for callers of the drawing surface.
//!
//! The angle-projection companion of these helpers works in floating
//! point (sine and cosine of an angle in degrees) and therefore lives
//! with the window glue, outside the verified library.

use vstd::prelude::*;

verus! {

/// Division by two truncated toward zero, as the machine division of the
/// implementation behaves on either sign.
pub open spec fn half_trunc(a: int) -> int {
    if a >= 0 {
        a / 2
    } else {
        -((-a) / 2)
    }
}

/// What `center_text` returns: the top-left corner at which a text of
/// `len` fixed-width glyphs drawn at `scale` is centered on `(x, y)`,
/// assuming glyph width 8: `(x - (len * 8 + scale) / 2, y - (8 + scale) / 2, scale)`.
pub open spec fn spec_center_text(len: int, x: int, y: int, scale: int) -> (int, int, int) {
    (x - half_trunc(len * 8 + scale), y - half_trunc(8 + scale), scale)
}

/// Position for drawing a text of fixed-width glyphs centered on
/// `(x, y)`: returns the adjusted corner and the unchanged scale. The
/// two bound preconditions only rule out results that cannot fit the
/// return type.
pub fn center_text(text: &str, x: i32, y: i32, scale: i32) -> (r: (i32, i32, i32))
    requires
        i32::MIN <= spec_center_text(text@.len() as int, x as int, y as int, scale as int).0
            <= i32::MAX,
        i32::MIN <= spec_center_text(text@.len() as int, x as int, y as int, scale as int).1
            <= i32::MAX,
    ensures
        (r.0 as int, r.1 as int, r.2 as int) == spec_center_text(
            text@.len() as int,
            x as int,
            y as int,
            scale as int,
        ),
{
    let len = text.unicode_len();
    let li: i128 = len as i128;
    let w: i128 = li * 8 + scale as i128;
    let h: i128 = 8 + scale as i128;
    let half_w: i128 = if w >= 0 {
        w / 2
    } else {
        -((-w) / 2)
    };
    let half_h: i128 = if h >= 0 {
        h / 2
    } else {
        -((-h) / 2)
    };
    let rx: i128 = x as i128 - half_w;
    let ry: i128 = y as i128 - half_h;
    (rx as i32, ry as i32, scale)
}

} // verus!
