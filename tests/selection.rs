use freeshot::{
    apply_mask, compose_frame, compute_mask, crop_selection, crossing, point_in_polygon,
    ray_cast_mask, selection_mask, Point, Raster, Rasterizer, SelectionError, Session, THROTTLE_MS,
};

fn poly(points: &[(i32, i32)]) -> Vec<Point> {
    points.iter().map(|&(x, y)| Point::new(x, y)).collect()
}

fn square() -> Vec<Point> {
    poly(&[(10, 10), (10, 20), (20, 20), (20, 10)])
}

fn triangle() -> Vec<Point> {
    poly(&[(0, 0), (10, 0), (0, 10)])
}

fn arrow() -> Vec<Point> {
    poly(&[(2, 10), (12, 2), (12, 7), (25, 7), (25, 13), (12, 13), (12, 18)])
}

fn bowtie() -> Vec<Point> {
    poly(&[(0, 0), (20, 20), (20, 0), (0, 20)])
}

/// Pixel bytes that differ from pixel to pixel and are never zero.
fn patterned(width: usize, height: usize) -> Raster {
    let data: Vec<u8> = (0..width * height * 4).map(|i| (i % 251) as u8 + 1).collect();
    Raster::from_rgba(width, height, data).unwrap()
}

/// Whether `(x, y)` lies on the segment `a - b`.
fn on_segment(a: Point, b: Point, x: i64, y: i64) -> bool {
    let (ax, ay, bx, by) = (a.x as i64, a.y as i64, b.x as i64, b.y as i64);
    let cross = (bx - ax) * (y - ay) - (by - ay) * (x - ax);
    cross == 0 && x >= ax.min(bx) && x <= ax.max(bx) && y >= ay.min(by) && y <= ay.max(by)
}

fn on_boundary(p: &[Point], x: usize, y: usize) -> bool {
    (0..p.len()).any(|i| on_segment(p[i], p[(i + 1) % p.len()], x as i64, y as i64))
}

#[test]
fn empty_polygon_contains_everything() {
    let p: Vec<Point> = Vec::new();
    for &(x, y) in &[(0, 0), (-5, 7), (1000, -1000), (i32::MAX, i32::MIN)] {
        assert!(point_in_polygon(&p, Point::new(x, y)));
    }
}

#[test]
fn one_or_two_points_contain_nothing() {
    let one = poly(&[(5, 5)]);
    let two = poly(&[(0, 0), (10, 10)]);
    for &(x, y) in &[(5, 5), (0, 0), (3, 3), (10, 10), (-1, 4)] {
        assert!(!point_in_polygon(&one, Point::new(x, y)));
        assert!(!point_in_polygon(&two, Point::new(x, y)));
    }
}

#[test]
fn square_ray_cast_is_half_open() {
    let p = square();
    for y in 0..30 {
        for x in 0..30 {
            let expected = (10..20).contains(&x) && (10..20).contains(&y);
            assert_eq!(point_in_polygon(&p, Point::new(x, y)), expected, "({}, {})", x, y);
        }
    }
}

#[test]
fn square_mask_fills_closed_spans() {
    // Rows 10..=19 cross the square; on each, the span from the crossing at
    // 10 to the crossing at 20 is filled with both ends included.
    let m = selection_mask(30, 30, &square());
    assert_eq!(m.len(), 900);
    for y in 0..30 {
        for x in 0..30 {
            let expected = (10..=20).contains(&x) && (10..20).contains(&y);
            assert_eq!(m[y * 30 + x], expected, "({}, {})", x, y);
        }
    }
}

#[test]
fn bowtie_lobes_alternate() {
    let m = selection_mask(25, 25, &bowtie());
    for y in 0..25usize {
        for x in 0..25usize {
            let expected = if y < 10 {
                x <= y || (20 - y <= x && x <= 20)
            } else if y == 10 {
                x <= 20
            } else if y < 20 {
                x <= 20 - y || (y <= x && x <= 20)
            } else {
                false
            };
            assert_eq!(m[y * 25 + x], expected, "({}, {})", x, y);
        }
    }
    // The gap between the lobes, above and below the pinch, is outside.
    assert!(!m[5 * 25 + 10]);
    assert!(!m[15 * 25 + 10]);
    assert!(m[5 * 25 + 2] && m[5 * 25 + 18]);
}

#[test]
fn mask_agrees_with_ray_cast_off_the_boundary() {
    for p in [square(), triangle(), arrow(), bowtie()] {
        let (w, h) = (30usize, 30usize);
        let m = selection_mask(w, h, &p);
        for y in 0..h {
            for x in 0..w {
                let tested = point_in_polygon(&p, Point::new(x as i32, y as i32));
                if tested {
                    assert!(m[y * w + x], "({}, {})", x, y);
                }
                if !on_boundary(&p, x, y) {
                    assert_eq!(m[y * w + x], tested, "({}, {})", x, y);
                }
            }
        }
    }
}

#[test]
fn arrow_concavity_is_outside() {
    let m = selection_mask(30, 30, &arrow());
    // Shaft and head are inside; the notches beside the shaft are not.
    assert!(m[10 * 30 + 20]);
    assert!(m[10 * 30 + 8]);
    assert!(!m[4 * 30 + 20]);
    assert!(!m[16 * 30 + 20]);
}

#[test]
fn degenerate_polygon_gives_empty_mask() {
    let m = selection_mask(8, 4, &poly(&[(0, 0), (7, 3)]));
    assert_eq!(m, vec![false; 32]);
}

#[test]
fn mask_clips_to_raster() {
    let p = poly(&[(-10, -10), (50, -10), (50, 50), (-10, 50)]);
    let m = selection_mask(6, 5, &p);
    assert_eq!(m, vec![true; 30]);
    let far = poly(&[(-30, 1), (-20, 1), (-20, 3), (-30, 3)]);
    assert_eq!(selection_mask(6, 5, &far), vec![false; 30]);
}

#[test]
fn rasterizing_twice_is_identical() {
    for p in [square(), triangle(), arrow(), bowtie()] {
        assert_eq!(selection_mask(40, 35, &p), selection_mask(40, 35, &p));
    }
}

#[test]
fn crossing_is_exact_fraction() {
    // Edge (0,0) -> (3,2) meets row 1 at x = 3/2.
    assert_eq!(crossing(Point::new(0, 0), Point::new(3, 2), 1), (3, 2));
    // Walking the edge the other way gives the same positive-denominator fraction.
    assert_eq!(crossing(Point::new(3, 2), Point::new(0, 0), 1), (3, 2));
}

#[test]
fn full_mask_keeps_pixels() {
    let img = patterned(7, 3);
    let out = apply_mask(&img, &vec![true; 21]);
    assert_eq!(out, img.data);
}

#[test]
fn empty_mask_halves_alpha() {
    let img = patterned(7, 3);
    let out = apply_mask(&img, &vec![false; 21]);
    assert_eq!(out.len(), img.data.len());
    for i in 0..out.len() {
        if i % 4 == 3 {
            assert_eq!(out[i], img.data[i] / 2);
        } else {
            assert_eq!(out[i], img.data[i]);
        }
    }
    let opaque = Raster::from_rgba(1, 1, vec![10, 20, 30, 255]).unwrap();
    assert_eq!(apply_mask(&opaque, &vec![false]), vec![10, 20, 30, 127]);
}

#[test]
fn frame_without_polygon_is_the_image() {
    let img = patterned(30, 30);
    assert_eq!(compose_frame(&img, &Vec::new()), img.data);
    assert_eq!(compose_frame(&img, &poly(&[(1, 1), (20, 20)])), img.data);
}

#[test]
fn frame_dims_outside_the_square() {
    let img = patterned(30, 30);
    let out = compose_frame(&img, &square());
    for y in 0..30usize {
        for x in 0..30usize {
            let i = (y * 30 + x) * 4;
            assert_eq!(out[i..i + 3], img.data[i..i + 3]);
            let inside = (10..=20).contains(&x) && (10..20).contains(&y);
            let alpha = if inside { img.data[i + 3] } else { img.data[i + 3] / 2 };
            assert_eq!(out[i + 3], alpha, "({}, {})", x, y);
        }
    }
}

#[test]
fn crop_triangle() {
    let img = patterned(20, 20);
    let out = crop_selection(&img, &triangle()).unwrap();
    assert_eq!((out.width, out.height), (10, 10));
    assert_eq!(out.data.len(), 400);
    for y in 0..10usize {
        for x in 0..10usize {
            let o = (y * 10 + x) * 4;
            let s = (y * 20 + x) * 4;
            if x + y <= 10 {
                assert_eq!(out.data[o..o + 4], img.data[s..s + 4], "({}, {})", x, y);
            } else {
                assert_eq!(out.data[o..o + 4], [0, 0, 0, 0], "({}, {})", x, y);
            }
        }
    }
}

#[test]
fn crop_offsets_by_bounding_box() {
    let img = patterned(30, 30);
    let out = crop_selection(&img, &square()).unwrap();
    assert_eq!((out.width, out.height), (10, 10));
    for y in 0..10usize {
        for x in 0..10usize {
            let o = (y * 10 + x) * 4;
            let s = ((y + 10) * 30 + x + 10) * 4;
            assert_eq!(out.data[o..o + 4], img.data[s..s + 4]);
        }
    }
}

#[test]
fn crop_clamps_points_outside_the_image() {
    let img = patterned(10, 8);
    let out = crop_selection(&img, &poly(&[(-5, -5), (40, -5), (40, 40), (-5, 40)])).unwrap();
    assert_eq!((out.width, out.height), (10, 8));
    assert_eq!(out.data, img.data);
}

#[test]
fn crop_of_too_few_points_fails() {
    let img = patterned(10, 10);
    assert_eq!(crop_selection(&img, &Vec::new()).unwrap_err(), SelectionError::TooSmall);
    assert_eq!(crop_selection(&img, &poly(&[(1, 1), (5, 5)])).unwrap_err(), SelectionError::TooSmall);
}

#[test]
fn raster_rejects_wrong_length() {
    assert!(Raster::from_rgba(2, 2, vec![0; 15]).is_none());
    assert!(Raster::from_rgba(usize::MAX, 2, Vec::new()).is_none());
    let r = Raster::from_rgba(2, 2, vec![0; 16]).unwrap();
    assert_eq!((r.width, r.height), (2, 2));
    let b = Raster::blank(3, 2).unwrap();
    assert_eq!(b.data, vec![0; 24]);
}

#[test]
fn session_throttles_samples() {
    let mut s = Session::new(patterned(4, 4), 1000);
    assert!(!s.cursor_moved(Point::new(1, 1), 2000));
    assert!(s.selection.is_empty());
    assert_eq!(s.cursor, Point::new(1, 1));
    s.pointer_pressed();
    assert!(s.selecting);
    assert!(s.cursor_moved(Point::new(2, 2), 1000 + THROTTLE_MS));
    assert!(!s.cursor_moved(Point::new(3, 3), 1000 + 2 * THROTTLE_MS - 1));
    assert_eq!(s.cursor, Point::new(3, 3));
    assert!(s.cursor_moved(Point::new(4, 4), 1000 + 2 * THROTTLE_MS));
    assert!(!s.cursor_moved(Point::new(5, 5), 10));
    assert_eq!(s.selection, poly(&[(2, 2), (4, 4)]));
    assert_eq!(s.last_sample_ms, 1000 + 2 * THROTTLE_MS);
}

#[test]
fn session_press_restarts_gesture() {
    let mut s = Session::new(patterned(4, 4), 0);
    s.pointer_pressed();
    assert!(s.cursor_moved(Point::new(1, 1), 100));
    s.pointer_pressed();
    assert!(s.selecting);
    assert!(s.selection.is_empty());
}

#[test]
fn session_release_finishes_gesture() {
    let mut s = Session::new(patterned(20, 20), 0);
    assert!(!s.pointer_released());
    s.pointer_pressed();
    for (k, &(x, y)) in [(0, 0), (10, 0), (0, 10)].iter().enumerate() {
        assert!(s.cursor_moved(Point::new(x, y), 100 * (k as u64 + 1)));
    }
    assert!(s.pointer_released());
    assert!(!s.selecting);
    assert!(!s.cursor_moved(Point::new(9, 9), 10_000));
    assert_eq!(s.selection.len(), 3);
    let out = s.selection_image().unwrap();
    assert_eq!((out.width, out.height), (10, 10));
    assert_eq!(s.frame(), compose_frame(&s.image, &triangle()));
}

#[test]
fn session_small_selection_reports_too_small() {
    let mut s = Session::new(patterned(5, 5), 0);
    s.pointer_pressed();
    assert!(s.cursor_moved(Point::new(1, 1), 100));
    assert!(s.pointer_released());
    assert_eq!(s.selection_image().unwrap_err(), SelectionError::TooSmall);
    assert_eq!(s.frame(), s.image.data);
}

#[test]
fn ray_cast_mask_matches_point_test() {
    let p = arrow();
    let m = ray_cast_mask(30, 20, &p);
    assert_eq!(m.len(), 600);
    for y in 0..20usize {
        for x in 0..30usize {
            assert_eq!(m[y * 30 + x], point_in_polygon(&p, Point::new(x as i32, y as i32)));
        }
    }
    assert_eq!(ray_cast_mask(5, 5, &poly(&[(1, 1), (3, 3)])), vec![false; 25]);
}

#[test]
fn strategies_differ_only_on_crossings() {
    let p = square();
    let scan = compute_mask(Rasterizer::Scanline, 30, 30, &p);
    let ray = compute_mask(Rasterizer::RayCast, 30, 30, &p);
    assert_eq!(scan, selection_mask(30, 30, &p));
    assert_eq!(ray, ray_cast_mask(30, 30, &p));
    for y in 0..30usize {
        for x in 0..30usize {
            let on_right_edge = x == 20 && (10..20).contains(&y);
            assert_eq!(scan[y * 30 + x] != ray[y * 30 + x], on_right_edge, "({}, {})", x, y);
        }
    }
}

#[test]
fn fractional_crossings_round_inward() {
    // Row 1 is crossed at x = 3/2 and x = 15/2: ceiling and floor give
    // columns 2 to 7. Row 0 meets both edges at the apex, column 3.
    let p = poly(&[(3, 0), (0, 2), (12, 2)]);
    let m = selection_mask(12, 3, &p);
    let expected: Vec<bool> = (0..36)
        .map(|i| {
            let (x, y) = (i % 12, i / 12);
            (y == 0 && x == 3) || (y == 1 && (2..=7).contains(&x))
        })
        .collect();
    assert_eq!(m, expected);
}
