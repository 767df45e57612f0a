use terrain_gen::canvas::Canvas;
use terrain_gen::circle::get_circle_points;
use terrain_gen::line::get_line_bres;
use terrain_gen::point::{in_bounds, Point2d};
use terrain_gen::render::{draw_layer, draw_marker, fill_background, fill_below, render, stamp_points, Layer};
use terrain_gen::ridge::{displace_pass, midpoint_displacement};

const SKY: [u8; 4] = [240, 203, 163, 255];
const WHITE: [u8; 4] = [255, 255, 255, 255];
const BACK: [u8; 4] = [157, 101, 202, 255];
const FRONT: [u8; 4] = [49, 12, 81, 255];

fn pt(x: u32, y: u32) -> Point2d {
    Point2d { x, y }
}

fn pairs(points: &[Point2d]) -> Vec<(u32, u32)> {
    points.iter().map(|p| (p.x, p.y)).collect()
}

#[test]
fn in_bounds_checks_both_axes() {
    assert!(in_bounds(&pt(0, 0), 10, 5));
    assert!(in_bounds(&pt(9, 4), 10, 5));
    assert!(!in_bounds(&pt(10, 4), 10, 5));
    assert!(!in_bounds(&pt(9, 5), 10, 5));
    assert!(!in_bounds(&pt(0, 0), 0, 0));
}

#[test]
fn line_shallow_exact_pixels() {
    let l = get_line_bres(pt(0, 0), pt(5, 2));
    assert_eq!(pairs(&l), vec![(0, 0), (1, 0), (2, 1), (3, 1), (4, 2), (5, 2)]);
}

#[test]
fn line_steep_exact_pixels() {
    let l = get_line_bres(pt(0, 0), pt(1, 3));
    assert_eq!(pairs(&l), vec![(0, 0), (0, 1), (1, 2), (1, 3)]);
}

#[test]
fn line_single_point() {
    let l = get_line_bres(pt(7, 7), pt(7, 7));
    assert_eq!(pairs(&l), vec![(7, 7)]);
}

#[test]
fn line_endpoints_and_length() {
    let cases = [
        (pt(0, 0), pt(10, 3)),
        (pt(10, 3), pt(0, 0)),
        (pt(4, 20), pt(6, 1)),
        (pt(3, 3), pt(3, 9)),
        (pt(9, 2), pt(1, 2)),
        (pt(0, u32::MAX), pt(5, u32::MAX - 9)),
    ];
    for (a, b) in cases {
        let l = get_line_bres(a, b);
        let dx = (a.x as i64 - b.x as i64).abs();
        let dy = (a.y as i64 - b.y as i64).abs();
        assert_eq!(l.len() as i64, dx.max(dy) + 1);
        assert_eq!(l[0], a);
        assert_eq!(*l.last().unwrap(), b);
    }
}

#[test]
fn line_reverse_is_symmetric() {
    let cases = [(pt(0, 0), pt(10, 3)), (pt(4, 20), pt(6, 1)), (pt(2, 2), pt(9, 9)), (pt(5, 0), pt(0, 2))];
    for (a, b) in cases {
        let mut forward = get_line_bres(a, b);
        forward.reverse();
        assert_eq!(forward, get_line_bres(b, a));
    }
}

#[test]
fn line_driving_axis_steps_by_one() {
    let l = get_line_bres(pt(12, 1), pt(2, 5));
    for w in l.windows(2) {
        assert_eq!(w[1].x as i64 - w[0].x as i64, -1);
        assert!((w[1].y as i64 - w[0].y as i64).abs() <= 1);
    }
    let l = get_line_bres(pt(1, 2), pt(4, 14));
    for w in l.windows(2) {
        assert_eq!(w[1].y as i64 - w[0].y as i64, 1);
        assert!((w[1].x as i64 - w[0].x as i64).abs() <= 1);
    }
}

#[test]
fn circle_radius_zero_is_center() {
    assert_eq!(pairs(&get_circle_points(pt(4, 6), 0)), vec![(4, 6)]);
}

#[test]
fn circle_radius_one_exact() {
    let c = get_circle_points(pt(10, 10), 1);
    assert_eq!(c.len(), 16);
    assert_eq!(
        pairs(&c[..8]),
        vec![(11, 10), (10, 11), (10, 11), (9, 10), (9, 10), (10, 9), (10, 9), (11, 10)]
    );
    assert_eq!(
        pairs(&c[8..]),
        vec![(11, 11), (11, 11), (9, 11), (9, 11), (9, 9), (9, 9), (11, 9), (11, 9)]
    );
}

#[test]
fn circle_all_reflections_present() {
    let center = pt(50, 50);
    let c = get_circle_points(center, 5);
    assert_eq!(c.len(), 48);
    for p in &c {
        let ox = p.x as i64 - 50;
        let oy = p.y as i64 - 50;
        let refl = [(ox, oy), (oy, ox), (-oy, ox), (-ox, oy), (-ox, -oy), (-oy, -ox), (oy, -ox), (ox, -oy)];
        for (rx, ry) in refl {
            let q = pt((50 + rx) as u32, (50 + ry) as u32);
            assert!(c.contains(&q));
        }
    }
}

#[test]
fn circle_wraps_left_of_origin() {
    let c = get_circle_points(pt(0, 0), 1);
    assert!(c.contains(&pt(u32::MAX, 0)));
    assert!(c.contains(&pt(0, u32::MAX)));
    assert!(c.contains(&pt(1, 0)));
}

#[test]
fn ridge_without_passes_is_the_endpoints() {
    let r = midpoint_displacement(pt(0, 10), pt(99, 10), &vec![]);
    assert_eq!(pairs(&r), vec![(0, 10), (99, 10)]);
}

#[test]
fn ridge_one_pass_exact() {
    let r = midpoint_displacement(pt(0, 10), pt(9, 20), &vec![vec![3]]);
    assert_eq!(pairs(&r), vec![(0, 10), (4, 18), (9, 20)]);
}

#[test]
fn ridge_two_passes_exact() {
    let r = midpoint_displacement(pt(0, 8), pt(8, 8), &vec![vec![-4], vec![1, -2]]);
    assert_eq!(pairs(&r), vec![(0, 8), (2, 7), (4, 4), (6, 4), (8, 8)]);
}

#[test]
fn ridge_length_and_endpoints() {
    for passes in 0..6usize {
        let draws: Vec<Vec<i64>> = (0..passes).map(|p| vec![7 - p as i64; 1 << p]).collect();
        let r = midpoint_displacement(pt(3, 40), pt(200, 60), &draws);
        assert_eq!(r.len(), (1usize << passes) + 1);
        assert_eq!(r[0], pt(3, 40));
        assert_eq!(*r.last().unwrap(), pt(200, 60));
    }
}

#[test]
fn ridge_clamps_at_top_row() {
    let r = midpoint_displacement(pt(0, 2), pt(4, 2), &vec![vec![i64::MIN], vec![-1000, -1]]);
    assert_eq!(pairs(&r), vec![(0, 2), (1, 0), (2, 0), (3, 0), (4, 2)]);
}

#[test]
fn ridge_clamps_at_largest_row() {
    let r = displace_pass(&vec![pt(0, u32::MAX), pt(2, u32::MAX)], &vec![i64::MAX]);
    assert_eq!(pairs(&r), vec![(0, u32::MAX), (1, u32::MAX), (2, u32::MAX)]);
}

#[test]
fn canvas_starts_zero_and_puts_in_bounds_only() {
    let mut c = Canvas::new(3, 2);
    assert_eq!(c.width(), 3);
    assert_eq!(c.height(), 2);
    assert_eq!(c.pixel(2, 1), Some([0, 0, 0, 0]));
    assert_eq!(c.pixel(3, 0), None);
    c.put(1, 1, WHITE);
    c.put(5, 5, WHITE);
    assert_eq!(c.pixel(1, 1), Some(WHITE));
    assert_eq!(c.pixel(0, 1), Some([0, 0, 0, 0]));
}

#[test]
fn background_fills_everything() {
    let mut c = Canvas::new(4, 3);
    fill_background(&mut c, SKY);
    for y in 0..3 {
        for x in 0..4 {
            assert_eq!(c.pixel(x, y), Some(SKY));
        }
    }
}

#[test]
fn stamp_points_skips_outside() {
    let mut c = Canvas::new(4, 4);
    stamp_points(&mut c, &vec![pt(0, 0), pt(9, 9), pt(3, 2)], WHITE);
    assert_eq!(c.pixel(0, 0), Some(WHITE));
    assert_eq!(c.pixel(3, 2), Some(WHITE));
    assert_eq!(c.pixel(1, 1), Some([0, 0, 0, 0]));
}

#[test]
fn fill_below_reaches_bottom_row() {
    let mut c = Canvas::new(5, 6);
    fill_below(&mut c, pt(2, 3), FRONT);
    for y in 0..6 {
        let want = if y >= 3 { FRONT } else { [0, 0, 0, 0] };
        assert_eq!(c.pixel(2, y), Some(want));
        assert_eq!(c.pixel(1, y), Some([0, 0, 0, 0]));
    }
}

#[test]
fn fill_below_at_and_past_the_bottom() {
    let mut c = Canvas::new(3, 4);
    fill_below(&mut c, pt(0, 3), FRONT);
    fill_below(&mut c, pt(1, 7), FRONT);
    fill_below(&mut c, pt(2, u32::MAX), FRONT);
    assert_eq!(c.pixel(0, 3), Some(FRONT));
    assert_eq!(c.pixel(0, 2), Some([0, 0, 0, 0]));
    for y in 0..4 {
        assert_eq!(c.pixel(1, y), Some([0, 0, 0, 0]));
        assert_eq!(c.pixel(2, y), Some([0, 0, 0, 0]));
    }
}

#[test]
fn marker_is_a_disc() {
    let mut c = Canvas::new(30, 20);
    fill_background(&mut c, SKY);
    draw_marker(&mut c, pt(10, 5), 3, WHITE);
    let half = [3i64, 3, 2, 1];
    for y in 0..20i64 {
        for x in 0..30i64 {
            let (dx, dy) = ((x - 10).abs(), (y - 5).abs());
            let inside = dy <= 3 && dx <= half[dy as usize];
            let want = if inside { WHITE } else { SKY };
            assert_eq!(c.pixel(x as u32, y as u32), Some(want));
        }
    }
}

#[test]
fn layer_fills_below_its_ridge() {
    let mut c = Canvas::new(6, 8);
    fill_background(&mut c, SKY);
    draw_layer(&mut c, &vec![pt(0, 2), pt(5, 7)], BACK);
    let ridge = get_line_bres(pt(0, 2), pt(5, 7));
    for p in &ridge {
        for y in 0..8 {
            let want = if y >= p.y { BACK } else { SKY };
            assert_eq!(c.pixel(p.x, y), Some(want));
        }
    }
}

#[test]
fn nearer_layer_overwrites_farther() {
    let layers = vec![
        Layer { start: pt(0, 5), end: pt(19, 5), draws: vec![], color: BACK },
        Layer { start: pt(10, 12), end: pt(19, 12), draws: vec![], color: FRONT },
    ];
    let c = render(20, 20, SKY, pt(500, 500), 0, WHITE, &layers);
    for y in 0..20 {
        for x in 0..20 {
            let want = if x >= 10 && y >= 12 {
                FRONT
            } else if y >= 5 {
                BACK
            } else {
                SKY
            };
            assert_eq!(c.pixel(x, y), Some(want));
        }
    }
}

#[test]
fn scene_background_and_marker_only() {
    let c = render(100, 50, SKY, pt(10, 5), 3, WHITE, &vec![]);
    assert_eq!(c.width(), 100);
    assert_eq!(c.height(), 50);
    let half = [3i64, 3, 2, 1];
    for y in 0..50i64 {
        for x in 0..100i64 {
            let (dx, dy) = ((x - 10).abs(), (y - 5).abs());
            let inside = dy <= 3 && dx <= half[dy as usize];
            let want = if inside { WHITE } else { SKY };
            assert_eq!(c.pixel(x as u32, y as u32), Some(want));
        }
    }
}

#[test]
fn scene_flat_layer_fills_lower_part() {
    let layers = vec![Layer { start: pt(0, 10), end: pt(99, 10), draws: vec![], color: BACK }];
    let c = render(100, 50, SKY, pt(1000, 1000), 0, WHITE, &layers);
    for y in 0..50 {
        for x in 0..100 {
            let want = if y >= 10 { BACK } else { SKY };
            assert_eq!(c.pixel(x, y), Some(want));
        }
    }
}
