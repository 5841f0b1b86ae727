//! Pixel-space and normalized points, and the projector between them.
//!
//! A normalized coordinate is a scaled integer: `SCALE` units stand for 1.0.
//! The projector maps a normalized point into a bounding rectangle by the
//! affine rule `pixel = normalized * extent / SCALE + origin`, stated exactly
//! over `mul_div_spec`. Points outside the unit square are allowed and simply
//! land outside the rectangle: nothing clips.

use vstd::prelude::*;
use crate::fixed::SCALE;
use crate::fixed::lemma_mul_div_bound;
use crate::fixed::mul_div;
use crate::fixed::mul_div_spec;

verus! {

/// Largest magnitude of a pixel-space coordinate the outline builder accepts.
pub const MAX_COORD: i64 = 0x800_0000;

/// Largest magnitude of a normalized coordinate: sixteen times `SCALE`, so
/// inputs may lie well outside the unit square.
pub const MAX_NORM: i64 = 0x10_0000;

/// Largest magnitude of a bounding rectangle extent.
pub const MAX_EXTENT: i64 = 0x40_0000;

/// Largest magnitude of a bounding rectangle origin coordinate.
pub const MAX_ORIGIN: i64 = 0x200_0000;

/// A point in pixel space.
#[derive(Clone, Copy, PartialEq, Eq, Structural, Debug)]
pub struct Point {
    pub x: i64,
    pub y: i64,
}

/// A point in normalized coordinates: `SCALE` units stand for 1.0.
#[derive(Clone, Copy, PartialEq, Eq, Structural, Debug)]
pub struct NormPoint {
    pub x: i64,
    pub y: i64,
}

/// An axis-aligned bounding rectangle in pixel space, origin plus extent.
#[derive(Clone, Copy, PartialEq, Eq, Structural, Debug)]
pub struct Rect {
    pub x: i64,
    pub y: i64,
    pub w: i64,
    pub h: i64,
}

/// The pixel point lies within the coordinate range the outline builder accepts.
pub open spec fn coord_ok(p: Point) -> bool {
    &&& -MAX_COORD <= p.x <= MAX_COORD
    &&& -MAX_COORD <= p.y <= MAX_COORD
}

/// Every point of the pixel polyline is within range.
pub open spec fn points_ok(ps: Seq<Point>) -> bool {
    forall|i: int| 0 <= i < ps.len() ==> coord_ok(#[trigger] ps[i])
}

/// The normalized point is within the projector's input range.
pub open spec fn norm_ok(p: NormPoint) -> bool {
    &&& -MAX_NORM <= p.x <= MAX_NORM
    &&& -MAX_NORM <= p.y <= MAX_NORM
}

/// Every point of the normalized polyline is within range.
pub open spec fn polyline_ok(ps: Seq<NormPoint>) -> bool {
    forall|i: int| 0 <= i < ps.len() ==> norm_ok(#[trigger] ps[i])
}

/// The rectangle's origin and extents are within the projector's range.
pub open spec fn rect_ok(r: Rect) -> bool {
    &&& -MAX_ORIGIN <= r.x <= MAX_ORIGIN
    &&& -MAX_ORIGIN <= r.y <= MAX_ORIGIN
    &&& -MAX_EXTENT <= r.w <= MAX_EXTENT
    &&& -MAX_EXTENT <= r.h <= MAX_EXTENT
}

/// The affine projection of one normalized point into a rectangle.
pub open spec fn point_to_px_spec(p: NormPoint, rect: Rect) -> Point {
    Point {
        x: (mul_div_spec(p.x as int, rect.w as int, SCALE as int) + rect.x) as i64,
        y: (mul_div_spec(p.y as int, rect.h as int, SCALE as int) + rect.y) as i64,
    }
}

/// The projection of a whole normalized polyline, pointwise.
pub open spec fn project_spec(ps: Seq<NormPoint>, rect: Rect) -> Seq<Point> {
    Seq::new(ps.len(), |i: int| point_to_px_spec(ps[i], rect))
}

/// Bounds on the projector's inputs bound its output coordinates.
pub proof fn lemma_point_to_px_in_range(p: NormPoint, rect: Rect)
    requires
        norm_ok(p),
        rect_ok(rect),
    ensures
        coord_ok(point_to_px_spec(p, rect)),
        -MAX_COORD <= mul_div_spec(p.x as int, rect.w as int, SCALE as int) + rect.x <= MAX_COORD,
        -MAX_COORD <= mul_div_spec(p.y as int, rect.h as int, SCALE as int) + rect.y <= MAX_COORD,
{
    let bn: int = MAX_NORM as int;
    let be: int = MAX_EXTENT as int;
    assert(bn * be == 0x400_0000_0000) by (nonlinear_arith)
        requires
            bn == 0x10_0000,
            be == 0x40_0000,
    ;
    lemma_mul_div_bound(
        p.x as int,
        rect.w as int,
        SCALE as int,
        MAX_NORM as int,
        MAX_EXTENT as int,
    );
    lemma_mul_div_bound(
        p.y as int,
        rect.h as int,
        SCALE as int,
        MAX_NORM as int,
        MAX_EXTENT as int,
    );
}

/// Projects one normalized point into the rectangle:
/// `pixel = normalized * extent / SCALE + origin`, exactly.
pub fn point_to_px(p: NormPoint, rect: Rect) -> (r: Point)
    requires
        norm_ok(p),
        rect_ok(rect),
    ensures
        r == point_to_px_spec(p, rect),
        coord_ok(r),
{
    proof {
        lemma_point_to_px_in_range(p, rect);
    }
    Point { x: mul_div(p.x, rect.w, SCALE) + rect.x, y: mul_div(p.y, rect.h, SCALE) + rect.y }
}

/// Projects every point of a normalized polyline into the rectangle, in order.
pub fn project_polyline(points: &Vec<NormPoint>, rect: Rect) -> (r: Vec<Point>)
    requires
        polyline_ok(points@),
        rect_ok(rect),
    ensures
        r@ == project_spec(points@, rect),
        points_ok(r@),
        r@.len() == points@.len(),
{
    let n: usize = points.len();
    let mut out: Vec<Point> = Vec::new();
    let mut i: usize = 0;
    while i < n
        invariant
            n == points@.len(),
            polyline_ok(points@),
            rect_ok(rect),
            i <= n,
            out@.len() == i,
            forall|j: int|
                0 <= j < i ==> #[trigger] out@[j] == point_to_px_spec(points@[j], rect)
                    && coord_ok(out@[j]),
        decreases n - i,
    {
        let q = point_to_px(points[i], rect);
        out.push(q);
        i += 1;
    }
    proof {
        assert(out@ =~= project_spec(points@, rect));
    }
    out
}

} // verus!
