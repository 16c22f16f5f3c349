use ember::helper::center_text;
use ember::Ember;

fn colored_count(e: &Ember, w: i32, h: i32, c: u32) -> usize {
    let mut n = 0;
    for y in 0..h {
        for x in 0..w {
            if e.get_pixel(x, y) == c {
                n += 1;
            }
        }
    }
    n
}

#[test]
fn lowercase_renders_like_uppercase() {
    let c = 0xF0F0F0;
    let mut a = Ember::new(16, 12);
    a.draw_text("a", 2, 2, 1, c);
    let mut b = Ember::new(16, 12);
    b.draw_text("A", 2, 2, 1, c);
    assert_eq!(a.buffer(), b.buffer());

    let mut p = Ember::new(40, 12);
    p.draw_text("abc", 0, 0, 1, c);
    let mut q = Ember::new(40, 12);
    q.draw_text("ABC", 0, 0, 1, c);
    assert_eq!(p.buffer(), q.buffer());
}

#[test]
fn glyph_pixels_match_bitmap() {
    let c = 0xFF;
    let mut e = Ember::new(10, 10);
    e.draw_text("A", 0, 0, 1, c);
    // top row of the letter A: columns 2 and 3
    assert_eq!(e.get_pixel(2, 0), c);
    assert_eq!(e.get_pixel(3, 0), c);
    assert_eq!(e.get_pixel(1, 0), 0);
    assert_eq!(e.get_pixel(4, 0), 0);
    // the A bitmap has 28 set bits
    assert_eq!(colored_count(&e, 10, 10, c), 28);
}

#[test]
fn unknown_character_renders_blank_but_advances() {
    let c = 0x99;
    let mut e = Ember::new(30, 10);
    e.draw_text(" !A", 0, 0, 1, c);
    // two blank glyphs first, so the A starts at x = 16
    assert_eq!(colored_count(&e, 30, 10, c), 28);
    assert_eq!(e.get_pixel(18, 0), c);
    assert_eq!(e.get_pixel(19, 0), c);
}

#[test]
fn scale_doubles_blocks_and_advance() {
    let c = 0x77;
    let mut e = Ember::new(40, 20);
    e.draw_text("A", 0, 0, 2, c);
    assert_eq!(colored_count(&e, 40, 20, c), 28 * 4);
    // top row of A at scale 2: columns 4..=7, rows 0..=1
    assert_eq!(e.get_pixel(4, 0), c);
    assert_eq!(e.get_pixel(7, 1), c);
    assert_eq!(e.get_pixel(8, 0), 0);
}

#[test]
fn two_characters_advance_by_eight_scale() {
    let c = 0x55;
    let mut e = Ember::new(30, 10);
    e.draw_text("AA", 0, 0, 1, c);
    assert_eq!(e.get_pixel(2, 0), c);
    assert_eq!(e.get_pixel(10, 0), c);
    assert_eq!(colored_count(&e, 30, 10, c), 56);
}

#[test]
fn zero_scale_draws_nothing() {
    let mut e = Ember::new(10, 10);
    e.draw_text("A", 0, 0, 0, 0x44);
    for p in e.buffer() {
        assert_eq!(*p, 0);
    }
}

#[test]
fn center_text_example() {
    assert_eq!(center_text("AB", 100, 100, 2), (91, 95, 2));
}

#[test]
fn center_text_more_cases() {
    // width = 1*8 + 1 = 9, height = 9: halves truncate to 4
    assert_eq!(center_text("X", 50, 40, 1), (46, 36, 1));
    // empty text: width = scale alone
    assert_eq!(center_text("", 10, 10, 3), (9, 5, 3));
}
