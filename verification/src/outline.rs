//! The outline builder: stroking a pixel-space polyline into a closed polygon.
//!
//! At every point of the polyline a joint direction is formed by adding the
//! fixed-point unit vectors of the incoming and outgoing segments (the
//! angle-bisector approximation); the point is then pushed half the stroke
//! width to each side along the perpendicular of that direction. The side
//! points emitted while walking forward, followed by the opposite side points
//! in reverse order, close the ribbon into one polygon.
//!
//! A polyline with a single point, or a joint whose directions cancel
//! exactly, has no usable bisector; such a joint falls back to a fixed
//! downward offset of half the width, so the result is always finite and
//! deterministic. A non-positive stroke width is clamped to zero thickness.

use vstd::prelude::*;
use crate::fixed::SCALE;
use crate::fixed::isqrt;
use crate::fixed::isqrt_spec;
use crate::fixed::lemma_abs_mul;
use crate::fixed::lemma_mul_div_in_unit;
use crate::fixed::mul_div;
use crate::fixed::mul_div_spec;
use crate::geom::MAX_COORD;
use crate::geom::Point;
use crate::geom::Rect;
use crate::geom::NormPoint;
use crate::geom::coord_ok;
use crate::geom::points_ok;
use crate::geom::polyline_ok;
use crate::geom::project_polyline;
use crate::geom::project_spec;
use crate::geom::rect_ok;

verus! {

/// The optional neighbor, when present, is within coordinate range.
pub open spec fn opt_coord_ok(o: Option<Point>) -> bool {
    match o {
        Option::Some(p) => coord_ok(p),
        Option::None => true,
    }
}

/// The fixed-point unit vector pointing from `from` toward `to`:
/// each delta scaled by `SCALE` and divided by the segment length.
/// A zero-length segment has no direction and yields the zero vector.
pub open spec fn unit_toward_spec(from: Point, to: Point) -> (int, int) {
    let dx = to.x - from.x;
    let dy = to.y - from.y;
    let len = isqrt_spec((dx * dx + dy * dy) as nat);
    if len == 0 {
        (0, 0)
    } else {
        (mul_div_spec(dx, SCALE as int, len as int), mul_div_spec(dy, SCALE as int, len as int))
    }
}

/// The joint direction at a point: the sum of the unit vectors of the
/// incoming and outgoing segments, whichever of the two exist.
pub open spec fn bisector_spec(prev: Option<Point>, curr: Point, next: Option<Point>) -> (
    int,
    int,
) {
    let u1 = match prev {
        Option::Some(p) => unit_toward_spec(p, curr),
        Option::None => (0, 0),
    };
    let u2 = match next {
        Option::Some(q) => unit_toward_spec(curr, q),
        Option::None => (0, 0),
    };
    (u1.0 + u2.0, u1.1 + u2.1)
}

/// The offset vector at a joint: the perpendicular of the joint direction,
/// rescaled to magnitude at most `half`. When the joint direction vanishes
/// (single point, or directions that cancel exactly) the offset falls back
/// to `(0, half)`, the perpendicular of a horizontal direction.
pub open spec fn offset_vec_spec(
    prev: Option<Point>,
    curr: Point,
    next: Option<Point>,
    half: int,
) -> (int, int) {
    let m = bisector_spec(prev, curr, next);
    let len = isqrt_spec((m.0 * m.0 + m.1 * m.1) as nat);
    if len == 0 {
        (0, half)
    } else {
        (mul_div_spec(-m.1, half, len as int), mul_div_spec(m.0, half, len as int))
    }
}

/// Fixed-point unit vector from `from` toward `to`.
fn unit_toward(from: Point, to: Point) -> (u: (i64, i64))
    requires
        coord_ok(from),
        coord_ok(to),
    ensures
        u.0 as int == unit_toward_spec(from, to).0,
        u.1 as int == unit_toward_spec(from, to).1,
        -SCALE <= u.0 <= SCALE,
        -SCALE <= u.1 <= SCALE,
{
    let dx: i64 = to.x - from.x;
    let dy: i64 = to.y - from.y;
    let adx: u64 = if dx < 0 {
        (-dx) as u64
    } else {
        dx as u64
    };
    let ady: u64 = if dy < 0 {
        (-dy) as u64
    } else {
        dy as u64
    };
    proof {
        lemma_abs_mul(dx as int, dx as int);
        lemma_abs_mul(dy as int, dy as int);
        assert((adx as int) * (adx as int) <= 0x1000_0000 * 0x1000_0000
            && (ady as int) * (ady as int) <= 0x1000_0000 * 0x1000_0000) by (nonlinear_arith)
            requires
                0 <= (adx as int) <= 0x1000_0000,
                0 <= (ady as int) <= 0x1000_0000,
        ;
    }
    let len_sq: u64 = adx * adx + ady * ady;
    let len: u64 = isqrt(len_sq);
    proof {
        assert(len_sq as int == (dx as int) * (dx as int) + (dy as int) * (dy as int));
    }
    if len == 0 {
        (0, 0)
    } else {
        proof {
            crate::fixed::lemma_isqrt_bounds(len_sq as nat);
            let li: int = len as int;
            assert(-li <= dx as int <= li && -li <= dy as int <= li) by (nonlinear_arith)
                requires
                    (dx as int) * (dx as int) + (dy as int) * (dy as int) < (li + 1) * (li + 1),
                    0 <= li,
                    (dx as int) * (dx as int) >= 0,
                    (dy as int) * (dy as int) >= 0,
            ;
            lemma_mul_div_in_unit(dx as int, SCALE as int, li);
            lemma_mul_div_in_unit(dy as int, SCALE as int, li);
        }
        (mul_div(dx, SCALE, len as i64), mul_div(dy, SCALE, len as i64))
    }
}

/// Computes the two offset points at one joint of the polyline: the point
/// pushed by the offset vector to one side and by its negation to the other.
/// `offset` is the half stroke width, in pixel units.
pub fn offset_points(prev: Option<Point>, curr: Point, next: Option<Point>, offset: i64) -> (r: (
    Point,
    Point,
))
    requires
        opt_coord_ok(prev),
        coord_ok(curr),
        opt_coord_ok(next),
        0 <= offset <= MAX_COORD,
    ensures
        ({
            let v = offset_vec_spec(prev, curr, next, offset as int);
            r.0.x == curr.x + v.0 && r.0.y == curr.y + v.1 && r.1.x == curr.x - v.0 && r.1.y
                == curr.y - v.1
        }),
{
    let u1: (i64, i64) = match prev {
        Some(p) => unit_toward(p, curr),
        None => (0, 0),
    };
    let u2: (i64, i64) = match next {
        Some(q) => unit_toward(curr, q),
        None => (0, 0),
    };
    let mx: i64 = u1.0 + u2.0;
    let my: i64 = u1.1 + u2.1;
    let amx: u64 = if mx < 0 {
        (-mx) as u64
    } else {
        mx as u64
    };
    let amy: u64 = if my < 0 {
        (-my) as u64
    } else {
        my as u64
    };
    proof {
        lemma_abs_mul(mx as int, mx as int);
        lemma_abs_mul(my as int, my as int);
        assert((amx as int) * (amx as int) <= 0x2_0000 * 0x2_0000 && (amy as int) * (amy as int)
            <= 0x2_0000 * 0x2_0000) by (nonlinear_arith)
            requires
                0 <= (amx as int) <= 0x2_0000,
                0 <= (amy as int) <= 0x2_0000,
        ;
    }
    let msq: u64 = amx * amx + amy * amy;
    let mlen: u64 = isqrt(msq);
    proof {
        assert(msq as int == (mx as int) * (mx as int) + (my as int) * (my as int));
    }
    let (vx, vy): (i64, i64) = if mlen == 0 {
        (0, offset)
    } else {
        proof {
            crate::fixed::lemma_isqrt_bounds(msq as nat);
            let li: int = mlen as int;
            assert(-li <= mx as int <= li && -li <= my as int <= li) by (nonlinear_arith)
                requires
                    (mx as int) * (mx as int) + (my as int) * (my as int) < (li + 1) * (li + 1),
                    0 <= li,
                    (mx as int) * (mx as int) >= 0,
                    (my as int) * (my as int) >= 0,
            ;
            lemma_mul_div_in_unit(-(my as int), offset as int, li);
            lemma_mul_div_in_unit(mx as int, offset as int, li);
        }
        (mul_div(-my, offset, mlen as i64), mul_div(mx, offset, mlen as i64))
    };
    (Point { x: curr.x + vx, y: curr.y + vy }, Point { x: curr.x - vx, y: curr.y - vy })
}

/// Half of the stroke width, in pixel units; non-positive widths clamp to
/// zero thickness.
pub open spec fn half_width_spec(width: int) -> int {
    if width >= 0 {
        width / 2
    } else {
        0
    }
}

/// The neighbor before point `i` of the polyline, if any.
pub open spec fn prev_of(ps: Seq<Point>, i: int) -> Option<Point> {
    if 0 < i {
        Option::Some(ps[i - 1])
    } else {
        Option::None
    }
}

/// The neighbor after point `i` of the polyline, if any.
pub open spec fn next_of(ps: Seq<Point>, i: int) -> Option<Point> {
    if i + 1 < ps.len() {
        Option::Some(ps[i + 1])
    } else {
        Option::None
    }
}

/// The offset vector at point `i` of the polyline.
pub open spec fn offset_at(ps: Seq<Point>, i: int, half: int) -> (int, int) {
    offset_vec_spec(prev_of(ps, i), ps[i], next_of(ps, i), half)
}

/// The offset point emitted while walking forward: the source point minus
/// its offset vector.
pub open spec fn fore_point(ps: Seq<Point>, i: int, half: int) -> Point {
    Point {
        x: (ps[i].x - offset_at(ps, i, half).0) as i64,
        y: (ps[i].y - offset_at(ps, i, half).1) as i64,
    }
}

/// The offset point on the opposite side, emitted on the way back: the
/// source point plus its offset vector.
pub open spec fn back_point(ps: Seq<Point>, i: int, half: int) -> Point {
    Point {
        x: (ps[i].x + offset_at(ps, i, half).0) as i64,
        y: (ps[i].y + offset_at(ps, i, half).1) as i64,
    }
}

/// The closed outline of a stroked pixel polyline: the forward-side offset
/// points in traversal order, then the opposite-side offset points in
/// reverse order. Its length is exactly twice the polyline's, and it is
/// empty exactly when the polyline is.
pub open spec fn outline_spec(ps: Seq<Point>, width: int) -> Seq<Point> {
    Seq::new(ps.len(), |i: int| fore_point(ps, i, half_width_spec(width))) + Seq::new(
        ps.len(),
        |i: int| back_point(ps, ps.len() - 1 - i, half_width_spec(width)),
    )
}

/// Strokes a pixel-space polyline of width `width` into its closed outline.
pub fn build_outline(points: &Vec<Point>, width: i64) -> (outline: Vec<Point>)
    requires
        points_ok(points@),
        width <= MAX_COORD,
    ensures
        outline@ == outline_spec(points@, width as int),
        outline@.len() == 2 * points@.len(),
{
    let half: i64 = if width > 0 {
        ((width as u64) / 2) as i64
    } else {
        0
    };
    proof {
        assert(half as int == half_width_spec(width as int));
    }
    let ghost gh: int = half as int;
    let n: usize = points.len();
    let mut outline: Vec<Point> = Vec::new();
    let mut back: Vec<Point> = Vec::new();
    let mut idx: usize = 0;
    while idx < n
        invariant
            n == points@.len(),
            points_ok(points@),
            0 <= half <= MAX_COORD,
            gh == half as int,
            idx <= n,
            outline@.len() == idx,
            back@.len() == idx,
            forall|j: int| 0 <= j < idx ==> #[trigger] outline@[j] == fore_point(points@, j, gh),
            forall|j: int| 0 <= j < idx ==> #[trigger] back@[j] == back_point(points@, j, gh),
        decreases n - idx,
    {
        let prev: Option<Point> = if idx > 0 {
            Some(points[idx - 1])
        } else {
            None
        };
        let next: Option<Point> = if idx + 1 < n {
            Some(points[idx + 1])
        } else {
            None
        };
        proof {
            assert(prev == prev_of(points@, idx as int));
            assert(next == next_of(points@, idx as int));
        }
        let (p_back, p_fore) = offset_points(prev, points[idx], next, half);
        outline.push(p_fore);
        back.push(p_back);
        idx += 1;
    }
    let mut k: usize = 0;
    while k < n
        invariant
            n == points@.len(),
            k <= n,
            back@.len() == n,
            outline@.len() == n + k,
            forall|j: int| 0 <= j < n ==> #[trigger] outline@[j] == fore_point(points@, j, gh),
            forall|j: int| 0 <= j < n ==> #[trigger] back@[j] == back_point(points@, j, gh),
            forall|j: int|
                0 <= j < k ==> #[trigger] outline@[n + j] == back_point(points@, n - 1 - j, gh),
        decreases n - k,
    {
        let p: Point = back[n - 1 - k];
        outline.push(p);
        k += 1;
    }
    proof {
        let o = outline_spec(points@, width as int);
        assert(o.len() == 2 * points@.len());
        assert forall|i: int| 0 <= i < points@.len() implies o[i] == fore_point(
            points@,
            i,
            gh,
        ) by {}
        assert forall|i: int| points@.len() <= i < 2 * points@.len() implies o[i] == back_point(
            points@,
            points@.len() - 1 - (i - points@.len()),
            gh,
        ) by {}
        assert forall|i: int| points@.len() <= i < 2 * points@.len() implies outline@[i]
            == back_point(points@, points@.len() - 1 - (i - points@.len()), gh) by {
            assert(outline@[n + (i - points@.len())] == back_point(
                points@,
                n - 1 - (i - points@.len()),
                gh,
            ));
        }
        assert(outline@ =~= o);
    }
    outline
}

/// The whole pipeline: projects a normalized polyline into the rectangle and
/// strokes it with the given width into a closed pixel-space outline.
pub fn stroke_outline(polyline: &Vec<NormPoint>, rect: Rect, width: i64) -> (outline: Vec<Point>)
    requires
        polyline_ok(polyline@),
        rect_ok(rect),
        width <= MAX_COORD,
    ensures
        outline@ == outline_spec(project_spec(polyline@, rect), width as int),
        outline@.len() == 2 * polyline@.len(),
{
    let px: Vec<Point> = project_polyline(polyline, rect);
    build_outline(&px, width)
}

} // verus!
