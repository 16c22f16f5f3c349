use ember::Ember;

fn colored_points(e: &Ember, w: i32, h: i32, c: u32) -> Vec<(i32, i32)> {
    let mut out = Vec::new();
    for y in 0..h {
        for x in 0..w {
            if e.get_pixel(x, y) == c {
                out.push((x, y));
            }
        }
    }
    out
}

#[test]
fn new_surface_is_black() {
    let e = Ember::new(4, 3);
    assert_eq!(e.buffer().len(), 12);
    for y in 0..3 {
        for x in 0..4 {
            assert_eq!(e.get_pixel(x, y), 0);
        }
    }
}

#[test]
fn set_pixel_writes_in_range() {
    let mut e = Ember::new(4, 3);
    e.set_pixel(2, 1, 0xABCDEF);
    assert_eq!(e.get_pixel(2, 1), 0xABCDEF);
    assert_eq!(e.buffer()[1 * 4 + 2], 0xABCDEF);
}

#[test]
fn set_pixel_out_of_range_is_silent() {
    let mut e = Ember::new(4, 3);
    e.set_pixel(-1, 0, 0xFF);
    e.set_pixel(4, 0, 0xFF);
    e.set_pixel(0, -1, 0xFF);
    e.set_pixel(0, 3, 0xFF);
    e.set_pixel(i32::MIN, i32::MAX, 0xFF);
    for p in e.buffer() {
        assert_eq!(*p, 0);
    }
}

#[test]
fn horizontal_line_sets_exactly_its_span() {
    let mut e = Ember::new(10, 5);
    let c = 0x123456;
    e.draw_line(0, 0, 5, 0, c);
    let pts = colored_points(&e, 10, 5, c);
    assert_eq!(pts, vec![(0, 0), (1, 0), (2, 0), (3, 0), (4, 0), (5, 0)]);
}

#[test]
fn line_endpoints_inclusive_both_orders() {
    let c = 0x00FF00;
    let mut a = Ember::new(8, 8);
    a.draw_line(1, 1, 6, 4, c);
    assert_eq!(a.get_pixel(1, 1), c);
    assert_eq!(a.get_pixel(6, 4), c);
    let mut b = Ember::new(8, 8);
    b.draw_line(6, 4, 1, 1, c);
    assert_eq!(b.get_pixel(1, 1), c);
    assert_eq!(b.get_pixel(6, 4), c);
}

#[test]
fn vertical_line() {
    let mut e = Ember::new(5, 6);
    let c = 7;
    e.draw_line(2, 1, 2, 4, c);
    let pts = colored_points(&e, 5, 6, c);
    assert_eq!(pts, vec![(2, 1), (2, 2), (2, 3), (2, 4)]);
}

#[test]
fn diagonal_line() {
    let mut e = Ember::new(6, 6);
    let c = 9;
    e.draw_line(0, 0, 3, 3, c);
    let pts = colored_points(&e, 6, 6, c);
    assert_eq!(pts, vec![(0, 0), (1, 1), (2, 2), (3, 3)]);
}

#[test]
fn line_clips_silently_off_surface() {
    let mut e = Ember::new(4, 4);
    let c = 5;
    e.draw_line(-2, 1, 6, 1, c);
    let pts = colored_points(&e, 4, 4, c);
    assert_eq!(pts, vec![(0, 1), (1, 1), (2, 1), (3, 1)]);
}

#[test]
fn line_width_stamps_squares_without_endpoint() {
    let mut e = Ember::new(10, 5);
    let c = 3;
    // width 1 gives half-width 0: one pixel per step, final point excluded
    e.draw_line_width(0, 2, 3, 2, 1, c);
    let pts = colored_points(&e, 10, 5, c);
    assert_eq!(pts, vec![(0, 2), (1, 2), (2, 2)]);
}

#[test]
fn line_width_zero_and_negative_stamp_single_pixels() {
    for w in [0, -1, -7] {
        let mut e = Ember::new(10, 5);
        let c = 3;
        e.draw_line_width(0, 2, 2, 2, w, c);
        let pts = colored_points(&e, 10, 5, c);
        assert_eq!(pts, vec![(0, 2), (1, 2)]);
    }
}

#[test]
fn line_width_three_stamps_full_squares() {
    let mut e = Ember::new(10, 7);
    let c = 8;
    e.draw_line_width(2, 3, 4, 3, 3, c);
    let pts = colored_points(&e, 10, 7, c);
    // 3x3 squares centered on (2,3) and (3,3)
    let mut expected = Vec::new();
    for y in 2..=4 {
        for x in 1..=4 {
            expected.push((x, y));
        }
    }
    let mut sorted = pts.clone();
    sorted.sort_by_key(|p| (p.1, p.0));
    assert_eq!(sorted, expected);
}

#[test]
fn rectangle_outline() {
    let mut e = Ember::new(8, 8);
    let c = 0xAA;
    e.draw_rectangle(1, 1, 3, 2, c);
    let pts = colored_points(&e, 8, 8, c);
    let mut expected: Vec<(i32, i32)> = Vec::new();
    for x in 1..=4 {
        expected.push((x, 1));
        expected.push((x, 3));
    }
    expected.push((1, 2));
    expected.push((4, 2));
    expected.sort_by_key(|p| (p.1, p.0));
    assert_eq!(pts, expected);
}

#[test]
fn rectangle_fill_spans_inclusive_width() {
    let mut e = Ember::new(8, 8);
    let c = 0xBB;
    e.draw_rectangle_fill(2, 1, 3, 2, c);
    let pts = colored_points(&e, 8, 8, c);
    let mut expected: Vec<(i32, i32)> = Vec::new();
    for y in 1..=2 {
        for x in 2..=5 {
            expected.push((x, y));
        }
    }
    assert_eq!(pts, expected);
}

#[test]
fn circle_outline_symmetric_under_eight_reflections() {
    let mut e = Ember::new(50, 50);
    let c = 0xCC;
    let (cx, cy) = (25, 25);
    for r in [0, 1, 2, 5, 10] {
        e.clear();
        e.draw_circle(cx, cy, r, c);
        let pts = colored_points(&e, 50, 50, c);
        assert!(!pts.is_empty());
        for (x, y) in &pts {
            let (a, b) = (x - cx, y - cy);
            for (ra, rb) in [
                (a, b),
                (b, a),
                (-b, a),
                (-a, b),
                (-a, -b),
                (-b, -a),
                (b, -a),
                (a, -b),
            ] {
                assert_eq!(e.get_pixel(cx + ra, cy + rb), c);
            }
        }
    }
}

#[test]
fn circle_radius_zero_is_center_point() {
    let mut e = Ember::new(9, 9);
    let c = 0xDD;
    e.draw_circle(4, 4, 0, c);
    let pts = colored_points(&e, 9, 9, c);
    assert_eq!(pts, vec![(4, 4)]);
}

#[test]
fn circle_negative_radius_draws_nothing() {
    let mut e = Ember::new(9, 9);
    e.draw_circle(4, 4, -3, 0xEE);
    e.draw_circle_fill(4, 4, -3, 0xEE);
    for p in e.buffer() {
        assert_eq!(*p, 0);
    }
}

#[test]
fn circle_fill_radius_one_is_a_cross() {
    let mut e = Ember::new(9, 9);
    let c = 0x11;
    e.draw_circle_fill(4, 4, 1, c);
    let pts = colored_points(&e, 9, 9, c);
    assert_eq!(pts, vec![(4, 3), (3, 4), (4, 4), (5, 4), (4, 5)]);
}

#[test]
fn circle_fill_covers_disk() {
    let mut e = Ember::new(30, 30);
    let c = 0x22;
    e.draw_circle_fill(14, 14, 6, c);
    // every point strictly inside the radius is filled
    for y in 0..30 {
        for x in 0..30 {
            let (a, b) = (x - 14, y - 14);
            if a * a + b * b <= 36 {
                assert_eq!(e.get_pixel(x, y), c);
            }
        }
    }
}

#[test]
fn clear_color_overwrites_every_pixel() {
    for (w, h) in [(1, 1), (7, 3), (16, 16)] {
        let mut e = Ember::new(w, h);
        let c = 0xFEDCBA;
        e.draw_line(0, 0, w - 1, h - 1, 0x55);
        e.clear_color(c);
        for y in 0..h {
            for x in 0..w {
                assert_eq!(e.get_pixel(x, y), c);
            }
        }
        e.clear();
        for y in 0..h {
            for x in 0..w {
                assert_eq!(e.get_pixel(x, y), 0);
            }
        }
    }
}

#[test]
fn width_and_height_accessors() {
    let e = Ember::new(12, 34);
    assert_eq!(e.width(), 12);
    assert_eq!(e.height(), 34);
}

#[test]
fn empty_surface_is_fine() {
    let mut e = Ember::new(0, 0);
    e.set_pixel(0, 0, 1);
    e.draw_line(0, 0, 3, 3, 1);
    e.clear_color(9);
    assert_eq!(e.buffer().len(), 0);
}
