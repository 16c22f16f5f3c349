use ember::Color;

#[test]
fn hex_red() {
    assert_eq!(Color::from_hex("ff0000"), 0xFF0000);
}

#[test]
fn hex_empty_falls_back_to_white() {
    assert_eq!(Color::from_hex(""), 0xFFFFFF);
}

#[test]
fn hex_invalid_falls_back_to_white() {
    assert_eq!(Color::from_hex("zz"), 0xFFFFFF);
}

#[test]
fn hex_uppercase_and_mixed() {
    assert_eq!(Color::from_hex("FF00ff"), 0xFF00FF);
    assert_eq!(Color::from_hex("AbCdEf"), 0xABCDEF);
}

#[test]
fn hex_leading_plus_sign() {
    assert_eq!(Color::from_hex("+ff"), 0xFF);
    assert_eq!(Color::from_hex("+"), 0xFFFFFF);
}

#[test]
fn hex_overflow_falls_back_to_white() {
    assert_eq!(Color::from_hex("100000000"), 0xFFFFFF);
    assert_eq!(Color::from_hex("ffffffff"), 0xFFFFFFFF);
}

#[test]
fn hex_leading_zeros() {
    assert_eq!(Color::from_hex("000000ff"), 0xFF);
}

#[test]
fn rgb_packs_channels() {
    assert_eq!(Color::from_rgb(255, 0, 0), 0xFF0000);
    assert_eq!(Color::from_rgb(0, 255, 0), 0x00FF00);
    assert_eq!(Color::from_rgb(0, 0, 255), 0x0000FF);
    assert_eq!(Color::from_rgb(0x12, 0x34, 0x56), 0x123456);
}

#[test]
fn rgb_matches_shift_formula() {
    for r in [0u8, 1, 127, 200, 255] {
        for g in [0u8, 3, 128, 255] {
            for b in [0u8, 7, 99, 255] {
                let expected = ((r as u32) << 16) | ((g as u32) << 8) | (b as u32);
                assert_eq!(Color::from_rgb(r, g, b), expected);
            }
        }
    }
}

#[test]
fn hsl_primary_hues() {
    // saturation and lightness in thousandths: 1000 = 1.0, 500 = 0.5
    assert_eq!(Color::from_hsl(0, 1000, 500), 0xFF0000);
    assert_eq!(Color::from_hsl(120, 1000, 500), 0x00FF00);
    assert_eq!(Color::from_hsl(240, 1000, 500), 0x0000FF);
}

#[test]
fn hsl_secondary_hues() {
    assert_eq!(Color::from_hsl(60, 1000, 500), 0xFFFF00);
    assert_eq!(Color::from_hsl(180, 1000, 500), 0x00FFFF);
    assert_eq!(Color::from_hsl(300, 1000, 500), 0xFF00FF);
}

#[test]
fn hsl_black_white_gray() {
    assert_eq!(Color::from_hsl(0, 0, 0), 0x000000);
    assert_eq!(Color::from_hsl(0, 0, 1000), 0xFFFFFF);
    // c = 0, m = 500: every channel truncates to 500 * 255 / 1000 = 127
    assert_eq!(Color::from_hsl(77, 0, 500), 0x7F7F7F);
}
