use line_segments::geom::NormPoint;
use line_segments::geom::Point;
use line_segments::geom::Rect;
use line_segments::outline::build_outline;
use line_segments::outline::offset_points;
use line_segments::outline::stroke_outline;

#[test]
fn empty_polyline_gives_empty_outline() {
    let polyline: Vec<NormPoint> = Vec::new();
    let rect = Rect { x: 0, y: 0, w: 100, h: 50 };
    let outline = stroke_outline(&polyline, rect, 10);
    assert!(outline.is_empty());
}

#[test]
fn outline_has_twice_the_points() {
    let points = vec![
        Point { x: 0, y: 0 },
        Point { x: 40, y: 25 },
        Point { x: 90, y: 10 },
        Point { x: 160, y: 60 },
        Point { x: 200, y: 30 },
    ];
    let outline = build_outline(&points, 12);
    assert_eq!(outline.len(), 10);
}

#[test]
fn scenario_horizontal_ribbon() {
    // A unit-length horizontal polyline into a 100 by 50 rectangle at the
    // origin, stroked 10 wide: a 100 by 10 rectangle around the segment.
    let polyline = vec![NormPoint { x: 0, y: 0 }, NormPoint { x: 65536, y: 0 }];
    let rect = Rect { x: 0, y: 0, w: 100, h: 50 };
    let outline = stroke_outline(&polyline, rect, 10);
    assert_eq!(outline.len(), 4);
    assert_eq!(outline[0], Point { x: 0, y: -5 });
    assert_eq!(outline[1], Point { x: 100, y: -5 });
    assert_eq!(outline[2], Point { x: 100, y: 5 });
    assert_eq!(outline[3], Point { x: 0, y: 5 });
}

#[test]
fn single_point_is_finite_and_deterministic() {
    // One point has no joint direction: the offset falls back to half the
    // width straight down and up, never an undefined value.
    let points = vec![Point { x: 50, y: 40 }];
    let first = build_outline(&points, 10);
    let second = build_outline(&points, 10);
    assert_eq!(first.len(), 2);
    assert_eq!(first[0], Point { x: 50, y: 35 });
    assert_eq!(first[1], Point { x: 50, y: 45 });
    assert_eq!(first, second);
}

#[test]
fn offsets_mirror_around_sources() {
    let points = vec![
        Point { x: 0, y: 0 },
        Point { x: 40, y: 25 },
        Point { x: 90, y: 10 },
        Point { x: 160, y: 60 },
    ];
    let n = points.len();
    let outline = build_outline(&points, 14);
    for i in 0..n {
        let a = outline[i];
        let b = outline[2 * n - 1 - i];
        assert_eq!(a.x + b.x, 2 * points[i].x);
        assert_eq!(a.y + b.y, 2 * points[i].y);
    }
}

#[test]
fn reversed_polyline_rotates_the_outline() {
    let points = vec![
        Point { x: 0, y: 0 },
        Point { x: 100, y: 30 },
        Point { x: 220, y: 10 },
        Point { x: 300, y: 80 },
    ];
    let mut reversed = points.clone();
    reversed.reverse();
    let n = points.len();
    let outline = build_outline(&points, 16);
    let outline_rev = build_outline(&reversed, 16);
    for k in 0..2 * n {
        assert_eq!(outline_rev[k], outline[(k + n) % (2 * n)]);
    }
}

#[test]
fn straight_line_strokes_to_rectangle() {
    let points = vec![
        Point { x: 0, y: 100 },
        Point { x: 50, y: 100 },
        Point { x: 130, y: 100 },
    ];
    let n = points.len();
    let outline = build_outline(&points, 8);
    for i in 0..n {
        assert_eq!(outline[i], Point { x: points[i].x, y: 96 });
        assert_eq!(outline[2 * n - 1 - i], Point { x: points[i].x, y: 104 });
    }
}

#[test]
fn non_positive_width_collapses_to_the_path() {
    let points = vec![Point { x: 0, y: 0 }, Point { x: 70, y: 20 }];
    for width in [0i64, -7] {
        let outline = build_outline(&points, width);
        assert_eq!(outline.len(), 4);
        assert_eq!(outline[0], points[0]);
        assert_eq!(outline[1], points[1]);
        assert_eq!(outline[2], points[1]);
        assert_eq!(outline[3], points[0]);
    }
}

#[test]
fn offset_points_on_horizontal_segment() {
    let (plus, minus) = offset_points(
        None,
        Point { x: 0, y: 0 },
        Some(Point { x: 100, y: 0 }),
        5,
    );
    assert_eq!(plus, Point { x: 0, y: 5 });
    assert_eq!(minus, Point { x: 0, y: -5 });
}

#[test]
fn diagonal_offsets_have_half_width_length() {
    // On a forty-five degree segment the offset must be perpendicular to the
    // path and close to half the stroke width long; fixed-point rounding may
    // lose a little length but never adds any.
    let points = vec![Point { x: 0, y: 0 }, Point { x: 1000, y: 1000 }];
    let n = points.len();
    let half = 100.0f64;
    let outline = build_outline(&points, 200);
    for i in 0..n {
        let vx = (outline[i].x - points[i].x) as f64;
        let vy = (outline[i].y - points[i].y) as f64;
        let len = (vx * vx + vy * vy).sqrt();
        assert!(len <= half);
        assert!(len >= half - 2.0);
        // Perpendicular to the path direction (1, 1), exactly here.
        assert_eq!(outline[i].x - points[i].x, -(outline[i].y - points[i].y));
    }
    assert_eq!(outline.len(), 2 * n);
}

#[test]
fn vertical_line_strokes_to_rectangle() {
    let points = vec![
        Point { x: 30, y: 0 },
        Point { x: 30, y: 60 },
        Point { x: 30, y: 150 },
    ];
    let n = points.len();
    let outline = build_outline(&points, 8);
    for i in 0..n {
        assert_eq!(outline[i], Point { x: 34, y: points[i].y });
        assert_eq!(outline[2 * n - 1 - i], Point { x: 26, y: points[i].y });
    }
}
