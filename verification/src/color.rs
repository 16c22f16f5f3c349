//! Color conversions into a packed `0xRRGGBB` value.
//!
//! The three constructors accept a hexadecimal string, an RGB byte triple,
//! or an HSL triple. HSL saturation and lightness are given in thousandths
//! (`0..=1000` standing for `0.0..=1.0`) so that the conversion is exact
//! integer arithmetic; each output channel is truncated toward zero.

use vstd::arithmetic::div_mod::{lemma_div_is_ordered, lemma_div_multiples_vanish};
use vstd::arithmetic::mul::lemma_mul_inequality;
use vstd::prelude::*;

verus! {

/// The packed color returned for a string that does not parse as
/// hexadecimal: white, indistinguishable from a genuine `0xFFFFFF`.
pub const HEX_FALLBACK: u32 = 0xFFFFFF;

/// `c` is one of the sixteen hexadecimal digit characters.
pub open spec fn is_hex_digit(c: char) -> bool {
    (48 <= c as int && c as int <= 57)  // '0' ..= '9'
    || (97 <= c as int && c as int <= 102)  // 'a' ..= 'f'
    || (65 <= c as int && c as int <= 70)  // 'A' ..= 'F'
}

/// Numeric value of a hexadecimal digit character.
pub open spec fn hex_digit_value(c: char) -> int {
    if 48 <= c as int && c as int <= 57 {
        c as int - 48
    } else if 97 <= c as int && c as int <= 102 {
        c as int - 87
    } else {
        c as int - 55
    }
}

/// Every character of `s` is a hexadecimal digit.
pub open spec fn all_hex_digits(s: Seq<char>) -> bool {
    forall|i: int| 0 <= i < s.len() ==> is_hex_digit(#[trigger] s[i])
}

/// The number written in base 16 by the digit characters of `s`,
/// most significant digit first.
pub open spec fn hex_value(s: Seq<char>) -> int
    decreases s.len(),
{
    if s.len() == 0 {
        0
    } else {
        hex_value(s.drop_last()) * 16 + hex_digit_value(s.last())
    }
}

/// The digit part of a hexadecimal string: a single leading `+` sign,
/// if present, is skipped.
pub open spec fn hex_body(s: Seq<char>) -> Seq<char> {
    if s.len() > 0 && s[0] == '+' {
        s.drop_first()
    } else {
        s
    }
}

/// `s` parses as a base-16 `u32`: after an optional leading `+` there is
/// at least one character, all of them hexadecimal digits, and the value
/// they write fits in 32 bits.
pub open spec fn hex_parse_ok(s: Seq<char>) -> bool {
    &&& hex_body(s).len() > 0
    &&& all_hex_digits(hex_body(s))
    &&& hex_value(hex_body(s)) <= u32::MAX
}

/// What `Color::from_hex` returns: the parsed value, or white on any
/// parse failure (empty string, stray character, overflow).
pub open spec fn spec_from_hex(s: Seq<char>) -> u32 {
    if hex_parse_ok(s) {
        hex_value(hex_body(s)) as u32
    } else {
        HEX_FALLBACK
    }
}

/// Under `all_hex_digits`, a base-16 value is nonnegative.
proof fn lemma_hex_value_nonneg(s: Seq<char>)
    requires
        all_hex_digits(s),
    ensures
        hex_value(s) >= 0,
    decreases s.len(),
{
    if s.len() > 0 {
        assert(all_hex_digits(s.drop_last()));
        lemma_hex_value_nonneg(s.drop_last());
    }
}

/// Under `all_hex_digits`, extending a digit string never shrinks its value:
/// the value of any prefix is at most the value of the whole.
proof fn lemma_hex_value_prefix_le(s: Seq<char>, j: int)
    requires
        all_hex_digits(s),
        0 <= j <= s.len(),
    ensures
        hex_value(s.take(j)) <= hex_value(s),
    decreases s.len() - j,
{
    if j == s.len() {
        assert(s.take(j) =~= s);
    } else {
        lemma_hex_value_prefix_le(s, j + 1);
        let t = s.take(j + 1);
        assert(t.drop_last() =~= s.take(j));
        assert(t.last() == s[j]);
        lemma_hex_value_nonneg(s.take(j));
        assert(hex_value(s.take(j)) <= hex_value(s.take(j)) * 16 + hex_digit_value(s[j]));
    }
}

/// Shrinking a nonnegative number by a factor `b / d <= 1` cannot grow it:
/// `a * b / d <= a`.
proof fn lemma_scale_le(a: int, b: int, d: int)
    requires
        0 <= a,
        0 <= b <= d,
        0 < d,
    ensures
        a * b / d <= a,
{
    lemma_mul_inequality(b, d, a);
    assert(b * a == a * b) by (nonlinear_arith);
    assert(d * a == a * d) by (nonlinear_arith);
    lemma_div_is_ordered(a * b, d * a, d);
    lemma_div_multiples_vanish(a, d);
}

/// Chroma in thousandths: `(1 - |2l - 1|) * s`, all scaled by 1000.
pub open spec fn hsl_chroma(s: int, l: int) -> int {
    (1000 - abs_spec(2 * l - 1000)) * s / 1000
}

/// Second-largest component in thousandths:
/// `c * (1 - |((h / 60) mod 2) - 1|)`, the hue folded into its 120-degree
/// period so that the factor is `(60 - |h mod 120 - 60|) / 60`.
pub open spec fn hsl_second(h: int, s: int, l: int) -> int {
    hsl_chroma(s, l) * (60 - abs_spec((h % 120) - 60)) / 60
}

/// Match value in thousandths: `l - c / 2`.
pub open spec fn hsl_match(s: int, l: int) -> int {
    l - hsl_chroma(s, l) / 2
}

/// One output channel: `(component + m) * 255`, truncated toward zero.
pub open spec fn hsl_channel(comp: int, m: int) -> int {
    (comp + m) * 255 / 1000
}

/// Absolute value of an integer.
pub open spec fn abs_spec(x: int) -> int {
    if x >= 0 {
        x
    } else {
        -x
    }
}

/// What `Color::from_hsl` returns, for saturation and lightness in
/// `0..=1000`: the hue segment is chosen by strict less-than tests at
/// 60-degree boundaries, then the three channels are packed as `0xRRGGBB`.
pub open spec fn spec_from_hsl(h: int, s: int, l: int) -> int {
    let c = hsl_chroma(s, l);
    let x = hsl_second(h, s, l);
    let m = hsl_match(s, l);
    let rgb = if h < 60 {
        (c, x, 0int)
    } else if h < 120 {
        (x, c, 0int)
    } else if h < 180 {
        (0int, c, x)
    } else if h < 240 {
        (0int, x, c)
    } else if h < 300 {
        (x, 0int, c)
    } else {
        (c, 0int, x)
    };
    hsl_channel(rgb.0, m) * 0x10000 + hsl_channel(rgb.1, m) * 0x100 + hsl_channel(rgb.2, m)
}

/// Namespace for the color conversion functions.
pub struct Color;

impl Color {
    /// Parses `hex` as a base-16 integer, returning white (`0xFFFFFF`) on
    /// any parse failure: empty input, a character that is not a
    /// hexadecimal digit, or a value too large for 32 bits.
    pub fn from_hex(hex: &str) -> (c: u32)
        ensures
            c == spec_from_hex(hex@),
    {
        let n = hex.unicode_len();
        let mut i: usize = 0;
        if n > 0 && hex.get_char(0) == '+' {
            i = 1;
        }
        let start = i;
        let ghost body = hex_body(hex@);
        proof {
            assert(body =~= hex@.skip(start as int));
        }
        if i >= n {
            return HEX_FALLBACK;
        }
        let mut val: u32 = 0;
        while i < n
            invariant
                start <= i <= n,
                n == hex@.len(),
                start <= 1,
                body == hex@.skip(start as int),
                body.len() == n - start,
                hex_body(hex@) == body,
                all_hex_digits(body.take(i - start)),
                val == hex_value(body.take(i - start)),
            decreases n - i,
        {
            let ch = hex.get_char(i);
            proof {
                assert(body[i - start] == hex@[i as int]);
            }
            let d: u32 = if '0' <= ch && ch <= '9' {
                ch as u32 - 48
            } else if 'a' <= ch && ch <= 'f' {
                ch as u32 - 87
            } else if 'A' <= ch && ch <= 'F' {
                ch as u32 - 55
            } else {
                // a stray character makes the whole string invalid
                proof {
                    assert(!is_hex_digit(body[i - start]));
                }
                return HEX_FALLBACK;
            };
            proof {
                assert(body.take(i + 1 - start).drop_last() =~= body.take(i - start));
                assert(body.take(i + 1 - start).last() == body[i - start]);
            }
            if val >= 0x1000_0000 {
                // sixteen times the accumulator already exceeds u32::MAX,
                // so the full value cannot fit either
                proof {
                    if all_hex_digits(body) {
                        lemma_hex_value_prefix_le(body, i + 1 - start);
                        assert(hex_value(body.take(i + 1 - start)) == val * 16 + d);
                    }
                }
                return HEX_FALLBACK;
            }
            val = val * 16 + d;
            i = i + 1;
        }
        proof {
            assert(body.take(n - start) =~= body);
        }
        val
    }

    /// Packs three 8-bit channels as `(r << 16) | (g << 8) | b`.
    pub fn from_rgb(r: u8, g: u8, b: u8) -> (c: u32)
        ensures
            c == ((r as u32) << 16) | ((g as u32) << 8) | (b as u32),
            c == (r as u32) * 0x10000 + (g as u32) * 0x100 + (b as u32),
    {
        let (r, g, b) = (r as u32, g as u32, b as u32);
        proof {
            assert((r << 16) | (g << 8) | b == r * 0x10000 + g * 0x100 + b) by (bit_vector)
                requires
                    r < 256,
                    g < 256,
                    b < 256,
            ;
        }
        (r << 16) | (g << 8) | b
    }

    /// Converts hue `h` in degrees (`0..360`; larger values fall into the
    /// catch-all final segment), saturation `s` and
    /// lightness `l` in thousandths (`0..=1000`), into a packed color.
    /// Channels are truncated toward zero.
    pub fn from_hsl(h: u32, s: u32, l: u32) -> (c: u32)
        requires
            s <= 1000,
            l <= 1000,
        ensures
            c == spec_from_hsl(h as int, s as int, l as int),
    {
        let d: u32 = if 2 * l >= 1000 {
            2 * l - 1000
        } else {
            1000 - 2 * l
        };
        proof {
            assert((1000 - d) * s <= 1000000) by (nonlinear_arith)
                requires
                    d <= 1000,
                    s <= 1000,
            ;
        }
        let c: u32 = (1000 - d) * s / 1000;
        proof {
            lemma_scale_le((1000 - d) as int, s as int, 1000);
        }
        let t: u32 = h % 120;
        let e: u32 = if t >= 60 {
            t - 60
        } else {
            60 - t
        };
        proof {
            assert(c * (60 - e) <= 60000) by (nonlinear_arith)
                requires
                    c <= 1000,
                    e <= 60,
            ;
        }
        let x: u32 = c * (60 - e) / 60;
        proof {
            lemma_scale_le(c as int, (60 - e) as int, 60);
            // c / 2 <= l, so the match value does not underflow
            if l <= 500 {
                assert(1000 - d == 2 * l);
                lemma_div_is_ordered(c as int, 2 * l as int, 2);
                assert((2 * l as int) / 2 == l as int) by (nonlinear_arith);
            } else {
                assert(1000 - d == 2000 - 2 * l);
                lemma_div_is_ordered(c as int, 2000 - 2 * l as int, 2);
                assert((2000 - 2 * l as int) / 2 == 1000 - l as int) by (nonlinear_arith);
            }
        }
        let m: u32 = l - c / 2;
        let (rp, gp, bp): (u32, u32, u32) = if h < 60 {
            (c, x, 0)
        } else if h < 120 {
            (x, c, 0)
        } else if h < 180 {
            (0, c, x)
        } else if h < 240 {
            (0, x, c)
        } else if h < 300 {
            (x, 0, c)
        } else {
            (c, 0, x)
        };
        let rc: u32 = (rp + m) * 255 / 1000;
        let gc: u32 = (gp + m) * 255 / 1000;
        let bc: u32 = (bp + m) * 255 / 1000;
        proof {
            lemma_scale_le((rp + m) as int, 255, 1000);
            lemma_scale_le((gp + m) as int, 255, 1000);
            lemma_scale_le((bp + m) as int, 255, 1000);
        }
        rc * 0x10000 + gc * 0x100 + bc
    }
}

} // verus!

