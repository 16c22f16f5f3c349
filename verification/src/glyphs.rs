//! The fixed 8x8 glyph table and the model of glyph blitting.
//!
//! Each glyph is a `u64`: eight rows of eight bits, the top row in the
//! most significant byte, the leftmost column in the most significant bit
//! of its row. The table holds the 26 Latin letters; lookup is
//! case-insensitive, and every other character maps to the blank glyph,
//! which still advances the cursor.

use vstd::prelude::*;

verus! {

pub const GLYPH_BLANK: u64 = 0x0000000000000000;

pub const GLYPH_A: u64 = 0x3078CCCCFCCCCC00;

pub const GLYPH_B: u64 = 0xFC66667C6666FC00;

pub const GLYPH_C: u64 = 0x3C66C0C0C0663C00;

pub const GLYPH_D: u64 = 0xF86C6666666CF800;

pub const GLYPH_E: u64 = 0xFE6268786862FE00;

pub const GLYPH_F: u64 = 0xFE6268786860F000;

pub const GLYPH_G: u64 = 0x3C66C0C0CE663E00;

pub const GLYPH_H: u64 = 0xCCCCCCFCCCCCCC00;

pub const GLYPH_I: u64 = 0x7830303030307800;

pub const GLYPH_J: u64 = 0x1E0C0C0CCCCC7800;

pub const GLYPH_K: u64 = 0xE6666C786C66E600;

pub const GLYPH_L: u64 = 0xF06060606266FE00;

pub const GLYPH_M: u64 = 0xC6EEFEFED6C6C600;

pub const GLYPH_N: u64 = 0xC6E6F6DECEC6C600;

pub const GLYPH_O: u64 = 0x386CC6C6C66C3800;

pub const GLYPH_P: u64 = 0xFC66667C6060F000;

pub const GLYPH_Q: u64 = 0x78CCCCCCDC781C00;

pub const GLYPH_R: u64 = 0xFC66667C6C66E600;

pub const GLYPH_S: u64 = 0x78CCE0701CCC7800;

pub const GLYPH_T: u64 = 0xFCB4303030307800;

pub const GLYPH_U: u64 = 0xCCCCCCCCCCCCFC00;

pub const GLYPH_V: u64 = 0xCCCCCCCCCC783000;

pub const GLYPH_W: u64 = 0xC6C6C6D6FEEEC600;

pub const GLYPH_X: u64 = 0xC6C66C38386CC600;

pub const GLYPH_Y: u64 = 0xCCCCCC7830307800;

pub const GLYPH_Z: u64 = 0xFEC68C183266FE00;

/// The glyph of a character: letters look the same in either case, and
/// any character outside the table is blank.
pub open spec fn spec_glyph(c: char) -> u64 {
    match c {
        'A' | 'a' => GLYPH_A,
        'B' | 'b' => GLYPH_B,
        'C' | 'c' => GLYPH_C,
        'D' | 'd' => GLYPH_D,
        'E' | 'e' => GLYPH_E,
        'F' | 'f' => GLYPH_F,
        'G' | 'g' => GLYPH_G,
        'H' | 'h' => GLYPH_H,
        'I' | 'i' => GLYPH_I,
        'J' | 'j' => GLYPH_J,
        'K' | 'k' => GLYPH_K,
        'L' | 'l' => GLYPH_L,
        'M' | 'm' => GLYPH_M,
        'N' | 'n' => GLYPH_N,
        'O' | 'o' => GLYPH_O,
        'P' | 'p' => GLYPH_P,
        'Q' | 'q' => GLYPH_Q,
        'R' | 'r' => GLYPH_R,
        'S' | 's' => GLYPH_S,
        'T' | 't' => GLYPH_T,
        'U' | 'u' => GLYPH_U,
        'V' | 'v' => GLYPH_V,
        'W' | 'w' => GLYPH_W,
        'X' | 'x' => GLYPH_X,
        'Y' | 'y' => GLYPH_Y,
        'Z' | 'z' => GLYPH_Z,
        _ => GLYPH_BLANK,
    }
}

/// Looks a character up in the glyph table.
pub fn glyph(c: char) -> (g: u64)
    ensures
        g == spec_glyph(c),
{
    match c {
        'A' | 'a' => GLYPH_A,
        'B' | 'b' => GLYPH_B,
        'C' | 'c' => GLYPH_C,
        'D' | 'd' => GLYPH_D,
        'E' | 'e' => GLYPH_E,
        'F' | 'f' => GLYPH_F,
        'G' | 'g' => GLYPH_G,
        'H' | 'h' => GLYPH_H,
        'I' | 'i' => GLYPH_I,
        'J' | 'j' => GLYPH_J,
        'K' | 'k' => GLYPH_K,
        'L' | 'l' => GLYPH_L,
        'M' | 'm' => GLYPH_M,
        'N' | 'n' => GLYPH_N,
        'O' | 'o' => GLYPH_O,
        'P' | 'p' => GLYPH_P,
        'Q' | 'q' => GLYPH_Q,
        'R' | 'r' => GLYPH_R,
        'S' | 's' => GLYPH_S,
        'T' | 't' => GLYPH_T,
        'U' | 'u' => GLYPH_U,
        'V' | 'v' => GLYPH_V,
        'W' | 'w' => GLYPH_W,
        'X' | 'x' => GLYPH_X,
        'Y' | 'y' => GLYPH_Y,
        'Z' | 'z' => GLYPH_Z,
        _ => GLYPH_BLANK,
    }
}

/// Bit `(i, j)` of a glyph: row `i` from the top, column `j` from the
/// left.
pub open spec fn glyph_bit(g: u64, i: int, j: int) -> bool {
    (g >> (((7 - i) * 8 + (7 - j)) as u64)) & 1 == 1
}

/// One row of a scaled block: the points `(bx + sx .. bx + scale - 1, by)`.
pub open spec fn block_row_pts(bx: int, by: int, scale: int, sx: int) -> Seq<(int, int)>
    decreases scale - sx,
{
    if sx >= scale {
        Seq::empty()
    } else {
        seq![(bx + sx, by)] + block_row_pts(bx, by, scale, sx + 1)
    }
}

/// A `scale` by `scale` block with top-left corner `(bx, by)`, stamped
/// row by row from row `sy`. A non-positive scale stamps nothing.
pub open spec fn block_pts(bx: int, by: int, scale: int, sy: int) -> Seq<(int, int)>
    decreases scale - sy,
{
    if sy >= scale {
        Seq::empty()
    } else {
        block_row_pts(bx, by + sy, scale, 0) + block_pts(bx, by, scale, sy + 1)
    }
}

/// Row `i` of a glyph from column `j` on: each set bit stamps one scaled
/// block at its scaled offset from the glyph origin `(cx, y)`.
pub open spec fn glyph_row_pts(g: u64, cx: int, y: int, scale: int, i: int, j: int) -> Seq<
    (int, int),
>
    decreases 8 - j,
{
    if j >= 8 {
        Seq::empty()
    } else {
        (if glyph_bit(g, i, j) {
            block_pts(cx + j * scale, y + i * scale, scale, 0)
        } else {
            Seq::empty()
        }) + glyph_row_pts(g, cx, y, scale, i, j + 1)
    }
}

/// A whole glyph from row `i` on, top to bottom.
pub open spec fn glyph_pts(g: u64, cx: int, y: int, scale: int, i: int) -> Seq<(int, int)>
    decreases 8 - i,
{
    if i >= 8 {
        Seq::empty()
    } else {
        glyph_row_pts(g, cx, y, scale, i, 0) + glyph_pts(g, cx, y, scale, i + 1)
    }
}

/// The points of a rendered text: each character's glyph in order, the
/// cursor advancing by exactly `8 * scale` per character, whatever the
/// glyph holds.
pub open spec fn text_pts(chars: Seq<char>, cx: int, y: int, scale: int) -> Seq<(int, int)>
    decreases chars.len(),
{
    if chars.len() == 0 {
        Seq::empty()
    } else {
        glyph_pts(spec_glyph(chars[0]), cx, y, scale, 0) + text_pts(
            chars.drop_first(),
            cx + 8 * scale,
            y,
            scale,
        )
    }
}

/// A lowercase letter and its uppercase counterpart share one glyph.
pub proof fn lemma_glyph_ignores_case(lower: char, upper: char)
    requires
        97 <= lower as int <= 122,
        upper as int == lower as int - 32,
    ensures
        spec_glyph(lower) == spec_glyph(upper),
{
}

/// Texts whose characters map to the same glyphs render the very same
/// point sequence; with `lemma_glyph_ignores_case`, changing the case of
/// letters never changes what is drawn.
pub proof fn lemma_text_pts_glyphwise(t: Seq<char>, u: Seq<char>, cx: int, y: int, scale: int)
    requires
        t.len() == u.len(),
        forall|k: int| 0 <= k < t.len() ==> spec_glyph(t[k]) == spec_glyph(#[trigger] u[k]),
    ensures
        text_pts(t, cx, y, scale) == text_pts(u, cx, y, scale),
    decreases t.len(),
{
    if t.len() > 0 {
        assert(spec_glyph(t[0]) == spec_glyph(u[0]));
        lemma_text_pts_glyphwise(t.drop_first(), u.drop_first(), cx + 8 * scale, y, scale);
    }
}

} // verus!
