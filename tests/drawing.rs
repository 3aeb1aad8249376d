use conics::{
    draw_ellipse, draw_filled_circle, draw_filled_circle_mut, draw_filled_ellipse,
    draw_filled_ellipse_mut, draw_hollow_circle, draw_hollow_circle_mut, draw_hollow_ellipse,
    draw_hollow_ellipse_mut, draw_if_in_bounds, draw_span, Brush, Canvas, MAX_ELLIPSE_RADIUS,
};

fn blank(width: u32, height: u32) -> Canvas<u8> {
    Canvas::new(width, height, 0u8)
}

fn set_pixels(c: &Canvas<u8>) -> Vec<(i64, i64)> {
    let mut out = Vec::new();
    for y in 0..c.height() {
        for x in 0..c.width() {
            if c.get_pixel(x, y) != 0 {
                out.push((x as i64, y as i64));
            }
        }
    }
    out
}

fn same(a: &Canvas<u8>, b: &Canvas<u8>) -> bool {
    a.width() == b.width() && a.height() == b.height() && {
        let mut eq = true;
        for y in 0..a.height() {
            for x in 0..a.width() {
                eq = eq && a.get_pixel(x, y) == b.get_pixel(x, y);
            }
        }
        eq
    }
}

#[test]
fn hollow_ellipse_top_and_left_extremes() {
    let mut c = blank(500, 500);
    draw_hollow_ellipse_mut(&mut c, (200, 200), 40, 100, 50u8);
    let px = set_pixels(&c);
    let top = px.iter().map(|p| p.1).min().unwrap();
    assert_eq!(top, 100);
    assert_eq!(c.get_pixel(200, 100), 50);
    assert!(px.iter().filter(|p| p.1 == 100).all(|p| (p.0 - 200).abs() <= 3));
    let left = px.iter().map(|p| p.0).min().unwrap();
    assert_eq!(left, 160);
    assert!(px.iter().any(|p| p.0 == 160 && (p.1 - 200).abs() <= 5));
    assert_eq!(c.get_pixel(200, 300), 50);
    assert_eq!(px.iter().map(|p| p.0).max().unwrap(), 240);
    assert_eq!(px.iter().map(|p| p.1).max().unwrap(), 300);
}

#[test]
fn filled_circle_center_and_bottom_edge() {
    let mut c = blank(20, 20);
    draw_filled_circle_mut(&mut c, (10, 10), 5, 1u8);
    assert_eq!(c.get_pixel(10, 10), 1);
    assert_eq!(c.get_pixel(10, 15), 1);
    assert_eq!(c.get_pixel(10, 16), 0);
}

#[test]
fn hollow_circle_radius_five_exact_outline() {
    let mut c = blank(20, 20);
    draw_hollow_circle_mut(&mut c, (10, 10), 5, 1u8);
    let mut expected = Vec::new();
    for (a, b) in [(5i64, 0i64), (5, 1), (4, 2), (3, 3)] {
        for (dx, dy) in [(a, b), (b, a)] {
            for (sx, sy) in [(1, 1), (1, -1), (-1, 1), (-1, -1)] {
                expected.push((10 + sx * dx, 10 + sy * dy));
            }
        }
    }
    expected.sort();
    expected.dedup();
    let mut got = set_pixels(&c);
    got.sort();
    assert_eq!(expected.len(), 24);
    assert_eq!(got, expected);
}

#[test]
fn hollow_shapes_are_mirror_symmetric() {
    for (w, h) in [(40, 100), (100, 40), (7, 7), (3, 11), (0, 6)] {
        let mut c = blank(300, 300);
        draw_hollow_ellipse_mut(&mut c, (150, 150), w, h, 9u8);
        for (x, y) in set_pixels(&c) {
            assert_eq!(c.get_pixel((300 - x) as u32, y as u32), 9);
            assert_eq!(c.get_pixel(x as u32, (300 - y) as u32), 9);
        }
    }
}

#[test]
fn equal_radii_match_the_circle() {
    for r in [0, 1, 2, 5, 17, 80] {
        let base = blank(200, 200);
        let e = draw_hollow_ellipse(&base, (90, 110), r, r, 3u8);
        let c = draw_hollow_circle(&base, (90, 110), r, 3u8);
        assert!(same(&e, &c));
        let fe = draw_filled_ellipse(&base, (-5, 60), r, r, 3u8);
        let fc = draw_filled_circle(&base, (-5, 60), r, 3u8);
        assert!(same(&fe, &fc));
    }
}

#[test]
fn filled_circle_stays_inside() {
    let r: i64 = 30;
    let mut c = blank(100, 100);
    draw_filled_circle_mut(&mut c, (50, 50), r as i32, 1u8);
    let px = set_pixels(&c);
    assert!(!px.is_empty());
    for (x, y) in px {
        let (dx, dy) = (x - 50, y - 50);
        assert!(dx * dx + dy * dy <= r * r + r);
    }
}

#[test]
fn filled_ellipse_stays_inside() {
    for (w, h) in [(40i64, 100i64), (100, 40), (13, 5)] {
        let mut c = blank(300, 300);
        draw_filled_ellipse_mut(&mut c, (150, 150), w as i32, h as i32, 1u8);
        let px = set_pixels(&c);
        assert!(px.contains(&(150, 150)));
        for (x, y) in px {
            let (dx, dy) = (x - 150, y - 150);
            assert!(dx.abs() <= w && dy.abs() <= h);
            // Twice the distance in each axis, less one pixel for the rounding.
            let (ex, ey) = ((2 * dx.abs() - 1).max(0), (2 * dy.abs() - 1).max(0));
            assert!(ex * ex * h * h + ey * ey * w * w <= 4 * w * w * h * h);
        }
    }
}

#[test]
fn filled_ellipse_covers_its_outline() {
    let hollow = draw_hollow_ellipse(&blank(120, 120), (60, 60), 30, 12, 1u8);
    let filled = draw_filled_ellipse(&blank(120, 120), (60, 60), 30, 12, 1u8);
    for (x, y) in set_pixels(&hollow) {
        assert_eq!(filled.get_pixel(x as u32, y as u32), 1);
    }
    // Each row of the filled ellipse is one unbroken run.
    for y in 0..120u32 {
        let xs: Vec<u32> = (0..120u32).filter(|&x| filled.get_pixel(x, y) == 1).collect();
        if let (Some(a), Some(b)) = (xs.first(), xs.last()) {
            assert_eq!(xs.len() as u32, b - a + 1);
        }
    }
}

#[test]
fn shape_outside_the_canvas_changes_nothing() {
    let base = Canvas::new(50, 40, 7u8);
    let out = draw_filled_circle(&base, (-20, 10), 10, 1u8);
    assert!(same(&out, &base));
    let out = draw_hollow_ellipse(&base, (25, 100), 30, 20, 1u8);
    assert!(same(&out, &base));
    let out = draw_filled_ellipse(&base, (80, 20), 25, 5, 1u8);
    assert!(same(&out, &base));
}

#[test]
fn shape_partly_outside_is_clipped() {
    let mut small = blank(20, 20);
    draw_filled_circle_mut(&mut small, (0, 0), 8, 1u8);
    let mut big = blank(60, 60);
    draw_filled_circle_mut(&mut big, (20, 20), 8, 1u8);
    for y in 0..20u32 {
        for x in 0..20u32 {
            assert_eq!(small.get_pixel(x, y), big.get_pixel(x + 20, y + 20));
        }
    }
    assert_eq!(small.get_pixel(0, 0), 1);
    assert_eq!(small.get_pixel(8, 0), 1);
}

#[test]
fn wrapper_leaves_input_alone() {
    let base = Canvas::new(30, 30, 2u8);
    let out = draw_hollow_circle(&base, (15, 15), 6, 9u8);
    for y in 0..30u32 {
        for x in 0..30u32 {
            assert_eq!(base.get_pixel(x, y), 2);
        }
    }
    let mut in_place = Canvas::new(30, 30, 2u8);
    draw_hollow_circle_mut(&mut in_place, (15, 15), 6, 9u8);
    assert!(same(&out, &in_place));
    let changed = (0..30u32)
        .flat_map(|y| (0..30u32).map(move |x| (x, y)))
        .filter(|&(x, y)| out.get_pixel(x, y) != 2)
        .count();
    assert_eq!(changed, 28);
}

#[test]
fn zero_radius_draws_the_center_only() {
    for brush_filled in [false, true] {
        let mut c = blank(10, 10);
        if brush_filled {
            draw_filled_circle_mut(&mut c, (4, 6), 0, 1u8);
        } else {
            draw_hollow_circle_mut(&mut c, (4, 6), 0, 1u8);
        }
        assert_eq!(set_pixels(&c), vec![(4, 6)]);
    }
    let mut c = blank(10, 10);
    draw_hollow_ellipse_mut(&mut c, (3, 3), 0, 0, 1u8);
    assert_eq!(set_pixels(&c), vec![(3, 3)]);
    let mut c = blank(10, 10);
    draw_filled_circle_mut(&mut c, (-1, 3), 0, 1u8);
    assert!(set_pixels(&c).is_empty());
}

#[test]
fn flat_ellipse_is_a_single_point() {
    let mut c = blank(20, 20);
    draw_hollow_ellipse_mut(&mut c, (10, 10), 6, 0, 1u8);
    assert_eq!(set_pixels(&c), vec![(10, 10)]);
}

#[test]
fn thin_ellipse_is_a_column() {
    let mut c = blank(20, 20);
    draw_filled_ellipse_mut(&mut c, (10, 10), 0, 4, 1u8);
    let px = set_pixels(&c);
    assert_eq!(px.len(), 9);
    assert!(px.iter().all(|p| p.0 == 10 && (6..=14).contains(&p.1)));
}

#[test]
fn stepper_with_each_brush() {
    let mut outline = blank(40, 40);
    draw_ellipse(&mut outline, Brush::Outline, (20, 20), 10, 4, 1u8);
    let mut fill = blank(40, 40);
    draw_ellipse(&mut fill, Brush::Fill, (20, 20), 10, 4, 1u8);
    let o = set_pixels(&outline);
    let f = set_pixels(&fill);
    assert!(o.len() < f.len());
    assert!(o.iter().all(|p| f.contains(p)));
    assert!(o.contains(&(10, 20)) && o.contains(&(30, 20)));
    assert!(o.contains(&(20, 16)) && o.contains(&(20, 24)));
    // The stepper itself takes no shortcut for equal radii.
    let mut round = blank(40, 40);
    draw_ellipse(&mut round, Brush::Outline, (20, 20), 6, 6, 1u8);
    assert!(round.get_pixel(26, 20) == 1 && round.get_pixel(20, 14) == 1);
}

#[test]
fn large_radii_do_not_overflow() {
    let mut c = blank(16, 16);
    draw_hollow_circle_mut(&mut c, (8, 8), 300_000, 1u8);
    assert!(set_pixels(&c).is_empty());
    draw_filled_circle_mut(&mut c, (i32::MAX, i32::MIN), 1000, 1u8);
    assert!(set_pixels(&c).is_empty());
    draw_hollow_ellipse_mut(&mut c, (0, 0), MAX_ELLIPSE_RADIUS, 1, 1u8);
    assert_eq!(c.get_pixel(0, 1), 1);
    assert_eq!(c.get_pixel(15, 1), 1);
}

#[test]
fn clamped_write_and_span() {
    let mut c = blank(5, 3);
    draw_if_in_bounds(&mut c, 2, 1, 4u8);
    draw_if_in_bounds(&mut c, -1, 1, 4u8);
    draw_if_in_bounds(&mut c, 5, 0, 4u8);
    draw_if_in_bounds(&mut c, 0, 3, 4u8);
    assert_eq!(set_pixels(&c), vec![(2, 1)]);
    let mut c = blank(5, 3);
    draw_span(&mut c, 2, -3, 1, 4u8);
    draw_span(&mut c, 0, 3, 9, 4u8);
    draw_span(&mut c, 1, 4, 2, 4u8);
    draw_span(&mut c, 7, 0, 4, 4u8);
    assert_eq!(set_pixels(&c), vec![(3, 0), (4, 0), (0, 2), (1, 2)]);
}

#[test]
fn canvas_from_pixels_and_copy() {
    assert!(Canvas::from_pixels(2, 2, vec![1u8, 2, 3]).is_none());
    let c = Canvas::from_pixels(3, 2, vec![1u8, 2, 3, 4, 5, 6]).unwrap();
    assert_eq!((c.width(), c.height()), (3, 2));
    assert_eq!(c.get_pixel(0, 1), 4);
    assert_eq!(c.get_pixel(2, 0), 3);
    let mut d = c.copy();
    d.put_pixel(0, 0, 9);
    assert_eq!(c.get_pixel(0, 0), 1);
    assert_eq!(d.get_pixel(0, 0), 9);
    let empty: Canvas<u8> = Canvas::new(0, 7, 0);
    let out = draw_filled_circle(&empty, (0, 0), 3, 1u8);
    assert_eq!((out.width(), out.height()), (0, 7));
}
