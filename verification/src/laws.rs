//! Laws of the outline builder, stated and proved over the outline spec.

use vstd::prelude::*;
use crate::fixed::SCALE;
use crate::fixed::isqrt_spec;
use crate::fixed::lemma_abs_mul;
use crate::fixed::lemma_isqrt_bounds;
use crate::fixed::lemma_isqrt_square;
use crate::fixed::lemma_isqrt_zero;
use crate::fixed::lemma_mul_div_cancel;
use crate::fixed::lemma_mul_div_in_unit;
use crate::fixed::lemma_mul_div_opp;
use crate::fixed::lemma_mul_div_zero;
use crate::geom::MAX_COORD;
use crate::geom::Point;
use crate::geom::points_ok;
use crate::outline::back_point;
use crate::outline::bisector_spec;
use crate::outline::fore_point;
use crate::outline::half_width_spec;
use crate::outline::next_of;
use crate::outline::offset_at;
use crate::outline::offset_vec_spec;
use crate::outline::outline_spec;
use crate::outline::prev_of;
use crate::outline::unit_toward_spec;

verus! {

/// The joint direction at point `i` of a pixel polyline.
pub open spec fn bisector_at(ps: Seq<Point>, i: int) -> (int, int) {
    bisector_spec(prev_of(ps, i), ps[i], next_of(ps, i))
}

/// No joint direction of the polyline vanishes: at every point the incoming
/// and outgoing unit vectors do not cancel exactly. This excludes the
/// single-point polyline, repeated points, and exact reversals, where the
/// offset falls back to a fixed direction.
pub open spec fn joints_nondegenerate(ps: Seq<Point>) -> bool {
    forall|i: int|
        0 <= i < ps.len() ==> ((#[trigger] bisector_at(ps, i)).0 != 0 || bisector_at(ps, i).1 != 0)
}

/// The outline of a polyline of N points has exactly 2 N points, so it is
/// empty exactly when the polyline is empty.
pub proof fn lemma_outline_len(ps: Seq<Point>, width: int)
    ensures
        outline_spec(ps, width).len() == 2 * ps.len(),
        outline_spec(ps, width).len() == 0 <==> ps.len() == 0,
{
}

/// Both components of the offset vector stay within the half width.
pub proof fn lemma_offset_bounded(
    prev: Option<Point>,
    curr: Point,
    next: Option<Point>,
    half: int,
)
    requires
        0 <= half,
    ensures
        -half <= offset_vec_spec(prev, curr, next, half).0 <= half,
        -half <= offset_vec_spec(prev, curr, next, half).1 <= half,
{
    let m = bisector_spec(prev, curr, next);
    lemma_abs_mul(m.0, m.0);
    lemma_abs_mul(m.1, m.1);
    let sq: int = m.0 * m.0 + m.1 * m.1;
    lemma_isqrt_bounds(sq as nat);
    let len: int = isqrt_spec(sq as nat) as int;
    if len != 0 {
        assert(-len <= m.0 <= len && -len <= m.1 <= len) by (nonlinear_arith)
            requires
                m.0 * m.0 + m.1 * m.1 < (len + 1) * (len + 1),
                0 <= len,
                m.0 * m.0 >= 0,
                m.1 * m.1 >= 0,
        ;
        lemma_mul_div_in_unit(-m.1, half, len);
        lemma_mul_div_in_unit(m.0, half, len);
    }
}

/// Offset points come in mirror pairs: the two outline points emitted for
/// source point `i` average back to that source point, coordinate for
/// coordinate.
pub proof fn lemma_mirror_pairs(ps: Seq<Point>, width: int, i: int)
    requires
        points_ok(ps),
        width <= MAX_COORD,
        0 <= i < ps.len(),
    ensures
        outline_spec(ps, width)[i].x + outline_spec(ps, width)[2 * ps.len() - 1 - i].x == 2 * ps[i].x,
        outline_spec(ps, width)[i].y + outline_spec(ps, width)[2 * ps.len() - 1 - i].y == 2 * ps[i].y,
{
    let half: int = half_width_spec(width);
    lemma_offset_bounded(prev_of(ps, i), ps[i], next_of(ps, i), half);
    let n: int = ps.len() as int;
    assert(outline_spec(ps, width)[i] == fore_point(ps, i, half));
    assert(outline_spec(ps, width)[2 * n - 1 - i] == back_point(ps, n - 1 - (n - 1 - i), half));
}

/// Walking a segment the other way flips its unit vector exactly.
pub proof fn lemma_unit_opposite(a: Point, b: Point)
    ensures
        unit_toward_spec(b, a).0 == -unit_toward_spec(a, b).0,
        unit_toward_spec(b, a).1 == -unit_toward_spec(a, b).1,
{
    let dx: int = b.x - a.x;
    let dy: int = b.y - a.y;
    assert((-dx) * (-dx) == dx * dx && (-dy) * (-dy) == dy * dy) by (nonlinear_arith);
    let sq: int = dx * dx + dy * dy;
    let len: int = isqrt_spec(sq as nat) as int;
    lemma_abs_mul(dx, dx);
    lemma_abs_mul(dy, dy);
    lemma_isqrt_bounds(sq as nat);
    if len != 0 {
        lemma_mul_div_opp(dx, SCALE as int, len);
        lemma_mul_div_opp(dy, SCALE as int, len);
    }
}

/// Reversing the polyline flips the offset vector at the matching point,
/// provided the joint there does not degenerate.
pub proof fn lemma_reverse_offset(ps: Seq<Point>, qs: Seq<Point>, half: int, i: int)
    requires
        qs.len() == ps.len(),
        forall|j: int| 0 <= j < ps.len() ==> qs[j] == ps[ps.len() - 1 - j],
        0 <= i < ps.len(),
        bisector_at(ps, ps.len() - 1 - i).0 != 0 || bisector_at(ps, ps.len() - 1 - i).1 != 0,
    ensures
        offset_at(qs, i, half).0 == -offset_at(ps, ps.len() - 1 - i, half).0,
        offset_at(qs, i, half).1 == -offset_at(ps, ps.len() - 1 - i, half).1,
{
    let n: int = ps.len() as int;
    let k: int = n - 1 - i;
    if i > 0 {
        assert(prev_of(qs, i) == Option::Some(ps[n - i]));
        assert(next_of(ps, k) == Option::Some(ps[n - i]));
        lemma_unit_opposite(ps[k], ps[n - i]);
    }
    if i + 1 < n {
        assert(next_of(qs, i) == Option::Some(ps[n - 2 - i]));
        assert(prev_of(ps, k) == Option::Some(ps[n - 2 - i]));
        lemma_unit_opposite(ps[n - 2 - i], ps[k]);
    }
    let m = bisector_at(ps, k);
    let mq = bisector_at(qs, i);
    assert(mq.0 == -m.0 && mq.1 == -m.1);
    assert((-m.0) * (-m.0) == m.0 * m.0 && (-m.1) * (-m.1) == m.1 * m.1) by (nonlinear_arith);
    lemma_abs_mul(m.0, m.0);
    lemma_abs_mul(m.1, m.1);
    let sq: int = m.0 * m.0 + m.1 * m.1;
    let len: int = isqrt_spec(sq as nat) as int;
    if len == 0 {
        lemma_isqrt_zero(sq as nat);
        assert(false);
    }
    lemma_mul_div_opp(-m.1, half, len);
    lemma_mul_div_opp(m.0, half, len);
}

/// Shape invariance under traversal direction: stroking the reversed
/// polyline yields the same closed polygon, rotated by half its length —
/// each forward-side point becomes the matching opposite-side point and the
/// other way round. Joints whose directions cancel exactly are excluded:
/// their fixed fallback offset does not flip with the traversal direction.
pub proof fn lemma_reverse_outline(ps: Seq<Point>, qs: Seq<Point>, width: int, k: int)
    requires
        qs.len() == ps.len(),
        forall|j: int| 0 <= j < ps.len() ==> qs[j] == ps[ps.len() - 1 - j],
        joints_nondegenerate(ps),
        0 <= k < 2 * ps.len(),
    ensures
        k < ps.len() ==> outline_spec(qs, width)[k] == outline_spec(ps, width)[k + ps.len()],
        k >= ps.len() ==> outline_spec(qs, width)[k] == outline_spec(ps, width)[k - ps.len()],
{
    let n: int = ps.len() as int;
    let half: int = half_width_spec(width);
    if k < n {
        lemma_reverse_offset(ps, qs, half, k);
        assert(outline_spec(qs, width)[k] == fore_point(qs, k, half));
        assert(outline_spec(ps, width)[k + n] == back_point(ps, n - 1 - k, half));
    } else {
        let j: int = 2 * n - 1 - k;
        lemma_reverse_offset(ps, qs, half, j);
        assert(outline_spec(qs, width)[k] == back_point(qs, n - 1 - (k - n), half));
        assert(outline_spec(ps, width)[k - n] == fore_point(ps, k - n, half));
        assert(n - 1 - (k - n) == j);
        assert(n - 1 - j == k - n);
    }
}

/// A horizontal segment walked in increasing x has the rightward unit vector.
pub proof fn lemma_unit_horizontal(a: Point, b: Point)
    requires
        a.y == b.y,
        a.x < b.x,
    ensures
        unit_toward_spec(a, b).0 == SCALE as int,
        unit_toward_spec(a, b).1 == 0,
{
    let dx: int = b.x - a.x;
    let dy: int = b.y - a.y;
    lemma_abs_mul(dy, dy);
    assert(dy * dy == 0);
    assert((dx * dx) as nat == (dx as nat) * (dx as nat)) by (nonlinear_arith)
        requires
            dx >= 1,
    ;
    lemma_isqrt_square(dx as nat);
    let len: int = isqrt_spec((dx * dx + dy * dy) as nat) as int;
    assert(len == dx);
    lemma_mul_div_cancel(SCALE as int, dx);
    lemma_mul_div_zero(SCALE as int, dx);
}

/// Straight-line polylines stroke to an axis-aligned rectangle: on a
/// horizontal polyline walked in increasing x, every offset point sits
/// exactly half the stroke width straight below or above its source point,
/// so the outline is the rectangle of the path's length and the stroke's
/// width (an odd width rounds down to twice its half).
pub proof fn lemma_straight_horizontal(ps: Seq<Point>, width: int, i: int)
    requires
        forall|j: int| 0 <= j < ps.len() ==> #[trigger] ps[j].y == ps[0].y,
        forall|j: int| 0 <= j < ps.len() - 1 ==> #[trigger] ps[j].x < ps[j + 1].x,
        0 <= i < ps.len(),
    ensures
        outline_spec(ps, width)[i] == (Point {
            x: ps[i].x,
            y: (ps[i].y - half_width_spec(width)) as i64,
        }),
        outline_spec(ps, width)[2 * ps.len() - 1 - i] == (Point {
            x: ps[i].x,
            y: (ps[i].y + half_width_spec(width)) as i64,
        }),
{
    let n: int = ps.len() as int;
    let half: int = half_width_spec(width);
    if i > 0 {
        assert(ps[i - 1].x < ps[i].x);
        lemma_unit_horizontal(ps[i - 1], ps[i]);
    }
    if i + 1 < n {
        lemma_unit_horizontal(ps[i], ps[i + 1]);
    }
    let m = bisector_at(ps, i);
    assert(m.1 == 0);
    lemma_abs_mul(m.1, m.1);
    assert(m.1 * m.1 == 0);
    let sq: int = m.0 * m.0 + m.1 * m.1;
    if m.0 == 0 {
        lemma_abs_mul(m.0, m.0);
        assert(sq == 0);
        assert(isqrt_spec(0nat) == 0);
        assert(offset_at(ps, i, half) == (0int, half));
    } else {
        assert(m.0 >= 1);
        assert((m.0 * m.0) as nat == (m.0 as nat) * (m.0 as nat)) by (nonlinear_arith)
            requires
                m.0 >= 1,
        ;
        lemma_isqrt_square(m.0 as nat);
        let len: int = isqrt_spec(sq as nat) as int;
        assert(len == m.0);
        lemma_mul_div_zero(half, m.0);
        lemma_mul_div_cancel(half, m.0);
        assert(offset_at(ps, i, half) == (0int, half));
    }
    assert(outline_spec(ps, width)[i] == fore_point(ps, i, half));
    assert(outline_spec(ps, width)[2 * n - 1 - i] == back_point(ps, n - 1 - (n - 1 - i), half));
}


/// A vertical segment walked in increasing y has the downward unit vector.
pub proof fn lemma_unit_vertical(a: Point, b: Point)
    requires
        a.x == b.x,
        a.y < b.y,
    ensures
        unit_toward_spec(a, b).0 == 0,
        unit_toward_spec(a, b).1 == SCALE as int,
{
    let dx: int = b.x - a.x;
    let dy: int = b.y - a.y;
    lemma_abs_mul(dx, dx);
    assert(dx * dx == 0);
    assert((dy * dy) as nat == (dy as nat) * (dy as nat)) by (nonlinear_arith)
        requires
            dy >= 1,
    ;
    lemma_isqrt_square(dy as nat);
    let len: int = isqrt_spec((dx * dx + dy * dy) as nat) as int;
    assert(len == dy);
    lemma_mul_div_cancel(SCALE as int, dy);
    lemma_mul_div_zero(SCALE as int, dy);
}

/// The vertical counterpart of the straight-line law: on a vertical polyline
/// of at least two points walked in increasing y, every offset point sits
/// exactly half the stroke width to the right or left of its source point.
pub proof fn lemma_straight_vertical(ps: Seq<Point>, width: int, i: int)
    requires
        2 <= ps.len(),
        forall|j: int| 0 <= j < ps.len() ==> #[trigger] ps[j].x == ps[0].x,
        forall|j: int| 0 <= j < ps.len() - 1 ==> #[trigger] ps[j].y < ps[j + 1].y,
        0 <= i < ps.len(),
    ensures
        outline_spec(ps, width)[i] == (Point {
            x: (ps[i].x + half_width_spec(width)) as i64,
            y: ps[i].y,
        }),
        outline_spec(ps, width)[2 * ps.len() - 1 - i] == (Point {
            x: (ps[i].x - half_width_spec(width)) as i64,
            y: ps[i].y,
        }),
{
    let n: int = ps.len() as int;
    let half: int = half_width_spec(width);
    if i > 0 {
        assert(ps[i - 1].y < ps[i].y);
        lemma_unit_vertical(ps[i - 1], ps[i]);
    }
    if i + 1 < n {
        lemma_unit_vertical(ps[i], ps[i + 1]);
    }
    let m = bisector_at(ps, i);
    assert(m.0 == 0);
    lemma_abs_mul(m.0, m.0);
    assert(m.0 * m.0 == 0);
    let sq: int = m.0 * m.0 + m.1 * m.1;
    assert(m.1 >= 1);
    assert((m.1 * m.1) as nat == (m.1 as nat) * (m.1 as nat)) by (nonlinear_arith)
        requires
            m.1 >= 1,
    ;
    lemma_isqrt_square(m.1 as nat);
    let len: int = isqrt_spec(sq as nat) as int;
    assert(len == m.1);
    lemma_mul_div_opp(m.1, half, m.1);
    lemma_mul_div_cancel(half, m.1);
    lemma_mul_div_zero(half, m.1);
    assert(offset_at(ps, i, half) == (-half, 0int));
    assert(outline_spec(ps, width)[i] == fore_point(ps, i, half));
    assert(outline_spec(ps, width)[2 * n - 1 - i] == back_point(ps, n - 1 - (n - 1 - i), half));
}

} // verus!
