use line_segments::fixed::isqrt;
use line_segments::fixed::mul_div;
use line_segments::geom::NormPoint;
use line_segments::geom::Point;
use line_segments::geom::Rect;
use line_segments::geom::point_to_px;
use line_segments::geom::project_polyline;

#[test]
fn mul_div_rounds_toward_zero() {
    assert_eq!(mul_div(3, 2, 4), 1);
    assert_eq!(mul_div(-3, 2, 4), -1);
    assert_eq!(mul_div(3, -2, 4), -1);
    assert_eq!(mul_div(-3, -2, 4), 1);
    assert_eq!(mul_div(0, 123, 7), 0);
    assert_eq!(mul_div(100, 65536, 100), 65536);
}

#[test]
fn isqrt_exact_and_floor() {
    assert_eq!(isqrt(0), 0);
    assert_eq!(isqrt(1), 1);
    assert_eq!(isqrt(2), 1);
    assert_eq!(isqrt(3), 1);
    assert_eq!(isqrt(4), 2);
    assert_eq!(isqrt(65536 * 65536), 65536);
    assert_eq!(isqrt(10_000_000_000), 100_000);
    assert_eq!(isqrt(u64::MAX), 4_294_967_295);
}

#[test]
fn point_to_px_affine_formula() {
    let rect = Rect { x: 10, y: 20, w: 100, h: 50 };
    let half_half = point_to_px(NormPoint { x: 32768, y: 65536 }, rect);
    assert_eq!(half_half, Point { x: 60, y: 70 });
    let origin = point_to_px(NormPoint { x: 0, y: 0 }, rect);
    assert_eq!(origin, Point { x: 10, y: 20 });
}

#[test]
fn point_to_px_does_not_clip() {
    let rect = Rect { x: 10, y: 20, w: 100, h: 50 };
    let outside = point_to_px(NormPoint { x: -32768, y: 131072 }, rect);
    assert_eq!(outside, Point { x: -40, y: 120 });
}

#[test]
fn project_polyline_keeps_order() {
    let rect = Rect { x: 0, y: 0, w: 200, h: 100 };
    let polyline = vec![
        NormPoint { x: 0, y: 0 },
        NormPoint { x: 16384, y: 32768 },
        NormPoint { x: 65536, y: 65536 },
    ];
    let px = project_polyline(&polyline, rect);
    assert_eq!(px.len(), 3);
    assert_eq!(px[0], Point { x: 0, y: 0 });
    assert_eq!(px[1], Point { x: 50, y: 50 });
    assert_eq!(px[2], Point { x: 200, y: 100 });
}
