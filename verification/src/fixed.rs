//! Exact scaled integer arithmetic.
//!
//! The stroke geometry needs two scalar operations: a truncating
//! multiply-then-divide (`mul_div`) for rescaling coordinates, and an integer
//! square root (`isqrt`) for measuring lengths. Both are specified exactly,
//! so every contract built on them pins its result down to the last unit.

use vstd::prelude::*;
use vstd::arithmetic::div_mod::lemma_div_is_ordered;
use vstd::arithmetic::div_mod::lemma_div_multiples_vanish;
use vstd::arithmetic::div_mod::lemma_div_nonincreasing;
use vstd::arithmetic::div_mod::lemma_div_of0;
use vstd::arithmetic::div_mod::lemma_div_pos_is_pos;

verus! {

/// Fixed-point scale: this many integer units stand for 1.0, both in
/// normalized input coordinates and in unit direction vectors.
pub const SCALE: i64 = 65536;

/// Magnitude of an integer.
pub open spec fn abs_int(a: int) -> int {
    if a >= 0 {
        a
    } else {
        -a
    }
}

/// `a * b / d` rounded toward zero, the rescaling step used throughout.
///
/// Rounding toward zero (rather than toward minus infinity) keeps the
/// operation odd in `a`: negating an input negates the result exactly,
/// which the direction-reversal law of the outline relies on.
pub open spec fn mul_div_spec(a: int, b: int, d: int) -> int
    recommends
        d >= 1,
{
    if a * b >= 0 {
        abs_int(a * b) / d
    } else {
        -(abs_int(a * b) / d)
    }
}

/// The magnitude of a product is the product of the magnitudes, and the sign
/// of a product follows the signs of its factors.
pub proof fn lemma_abs_mul(x: int, y: int)
    ensures
        abs_int(x * y) == abs_int(x) * abs_int(y),
        x * y >= 0 <==> (x >= 0 && y >= 0) || (x <= 0 && y <= 0),
        x * y == 0 <==> x == 0 || y == 0,
{
    if x >= 0 && y >= 0 {
        assert(x * y >= 0 && (x * y == 0 <==> x == 0 || y == 0)) by (nonlinear_arith)
            requires
                x >= 0,
                y >= 0,
        ;
    } else if x < 0 && y >= 0 {
        assert(x * y <= 0 && (-x) * y == -(x * y) && (x * y == 0 <==> y == 0)) by (nonlinear_arith)
            requires
                x < 0,
                y >= 0,
        ;
    } else if x >= 0 && y < 0 {
        assert(x * y <= 0 && x * (-y) == -(x * y) && (x * y == 0 <==> x == 0)) by (nonlinear_arith)
            requires
                x >= 0,
                y < 0,
        ;
    } else {
        assert(x * y > 0 && (-x) * (-y) == x * y) by (nonlinear_arith)
            requires
                x < 0,
                y < 0,
        ;
    }
}

/// The magnitude of `mul_div_spec` is the truncated quotient of magnitudes.
pub proof fn lemma_mul_div_abs(a: int, b: int, d: int)
    requires
        d >= 1,
    ensures
        abs_int(mul_div_spec(a, b, d)) == abs_int(a * b) / d,
{
    lemma_div_pos_is_pos(abs_int(a * b), d);
}

/// `mul_div_spec` is odd in its first argument.
pub proof fn lemma_mul_div_opp(a: int, b: int, d: int)
    requires
        d >= 1,
    ensures
        mul_div_spec(-a, b, d) == -mul_div_spec(a, b, d),
{
    assert((-a) * b == -(a * b)) by (nonlinear_arith);
    if a * b == 0 {
        lemma_div_of0(d);
    }
}

/// Scaling a value of magnitude at most `d` by `b / d` stays within `b`.
pub proof fn lemma_mul_div_in_unit(a: int, b: int, d: int)
    requires
        d >= 1,
        0 <= b,
        -d <= a <= d,
    ensures
        -b <= mul_div_spec(a, b, d) <= b,
{
    lemma_abs_mul(a, b);
    assert(abs_int(a) * b <= d * b) by (nonlinear_arith)
        requires
            0 <= abs_int(a) <= d,
            0 <= b,
    ;
    lemma_mul_div_abs(a, b, d);
    lemma_div_is_ordered(abs_int(a * b), d * b, d);
    lemma_div_multiples_vanish(b, d);
}

/// A bound on both factors bounds the scaled product.
pub proof fn lemma_mul_div_bound(a: int, b: int, d: int, ba: int, bb: int)
    requires
        d >= 1,
        -ba <= a <= ba,
        -bb <= b <= bb,
    ensures
        -((ba * bb) / d) <= mul_div_spec(a, b, d) <= (ba * bb) / d,
{
    lemma_abs_mul(a, b);
    assert(abs_int(a) * abs_int(b) <= ba * bb) by (nonlinear_arith)
        requires
            0 <= abs_int(a) <= ba,
            0 <= abs_int(b) <= bb,
    ;
    lemma_mul_div_abs(a, b, d);
    lemma_div_is_ordered(abs_int(a * b), ba * bb, d);
    lemma_div_pos_is_pos(ba * bb, d);
}

/// Scaling `b` by `d / d` gives back `b` exactly.
pub proof fn lemma_mul_div_cancel(b: int, d: int)
    requires
        d >= 1,
        0 <= b,
    ensures
        mul_div_spec(d, b, d) == b,
{
    lemma_abs_mul(d, b);
    lemma_div_multiples_vanish(b, d);
}

/// Scaling zero gives zero.
pub proof fn lemma_mul_div_zero(b: int, d: int)
    requires
        d >= 1,
    ensures
        mul_div_spec(0, b, d) == 0,
{
    lemma_div_of0(d);
}

/// The floor of the square root of `n`, defined by counting up.
pub open spec fn isqrt_spec(n: nat) -> nat
    decreases n,
{
    if n == 0 {
        0
    } else {
        let r = isqrt_spec((n - 1) as nat);
        if (r + 1) * (r + 1) <= n {
            r + 1
        } else {
            r
        }
    }
}

/// `isqrt_spec(n)` is the unique integer whose square brackets `n`.
pub proof fn lemma_isqrt_bounds(n: nat)
    ensures
        isqrt_spec(n) * isqrt_spec(n) <= n,
        n < (isqrt_spec(n) + 1) * (isqrt_spec(n) + 1),
    decreases n,
{
    if n == 0 {
        let s = isqrt_spec(n);
        assert(s == 0);
        assert((s + 1) * (s + 1) == 1) by (nonlinear_arith)
            requires
                s == 0,
        ;
    } else {
        lemma_isqrt_bounds((n - 1) as nat);
        let r = isqrt_spec((n - 1) as nat);
        if (r + 1) * (r + 1) <= n {
            assert(isqrt_spec(n) == r + 1);
            assert(n == (r + 1) * (r + 1));
            assert((r + 1) * (r + 1) < (r + 2) * (r + 2)) by (nonlinear_arith);
            assert(n < (isqrt_spec(n) + 1) * (isqrt_spec(n) + 1));
        } else {
            assert(isqrt_spec(n) == r);
        }
    }
}

/// Any integer whose square brackets `n` is `isqrt_spec(n)`.
pub proof fn lemma_isqrt_unique(n: nat, r: nat)
    requires
        r * r <= n,
        n < (r + 1) * (r + 1),
    ensures
        isqrt_spec(n) == r,
{
    lemma_isqrt_bounds(n);
    let s = isqrt_spec(n);
    if s < r {
        assert((s + 1) * (s + 1) <= r * r) by (nonlinear_arith)
            requires
                s + 1 <= r,
        ;
    }
    if r < s {
        assert((r + 1) * (r + 1) <= s * s) by (nonlinear_arith)
            requires
                r + 1 <= s,
        ;
    }
}

/// The square root of a perfect square is exact.
pub proof fn lemma_isqrt_square(a: nat)
    ensures
        isqrt_spec(a * a) == a,
{
    assert(a * a < (a + 1) * (a + 1)) by (nonlinear_arith);
    lemma_isqrt_unique(a * a, a);
}

/// Only zero has square root zero.
pub proof fn lemma_isqrt_zero(n: nat)
    requires
        isqrt_spec(n) == 0,
    ensures
        n == 0,
{
    lemma_isqrt_bounds(n);
    let s = isqrt_spec(n);
    assert((s + 1) * (s + 1) == 1) by (nonlinear_arith)
        requires
            s == 0,
    ;
}

/// Truncating `a * b / d` on machine integers.
pub fn mul_div(a: i64, b: i64, d: i64) -> (r: i64)
    requires
        1 <= d,
        -0x2000_0000 <= a <= 0x2000_0000,
        -0x2000_0000 <= b <= 0x2000_0000,
    ensures
        r as int == mul_div_spec(a as int, b as int, d as int),
{
    let aa: u64 = if a < 0 {
        (-a) as u64
    } else {
        a as u64
    };
    let bb: u64 = if b < 0 {
        (-b) as u64
    } else {
        b as u64
    };
    proof {
        lemma_abs_mul(a as int, b as int);
        assert(aa as int == abs_int(a as int));
        assert(bb as int == abs_int(b as int));
        assert((aa as int) * (bb as int) <= 0x2000_0000 * 0x2000_0000) by (nonlinear_arith)
            requires
                0 <= (aa as int) <= 0x2000_0000,
                0 <= (bb as int) <= 0x2000_0000,
        ;
    }
    let prod: u64 = aa * bb;
    let q: u64 = prod / (d as u64);
    proof {
        let ia: int = a as int;
        let ib: int = b as int;
        assert(prod as int == abs_int(ia * ib));
        assert(q as int == abs_int(ia * ib) / (d as int));
        lemma_div_pos_is_pos(abs_int(ia * ib), d as int);
        lemma_div_nonincreasing(prod as int, d as int);
        if ia * ib == 0 {
            lemma_div_of0(d as int);
            assert(q == 0);
        }
    }
    if (a < 0) != (b < 0) {
        proof {
            let ia: int = a as int;
            let ib: int = b as int;
            if ia * ib == 0 {
                assert(q == 0);
                assert(mul_div_spec(ia, ib, d as int) == 0);
            } else {
                assert(ia * ib < 0);
                assert(mul_div_spec(ia, ib, d as int) == -(abs_int(ia * ib) / (d as int)));
            }
        }
        -(q as i64)
    } else {
        proof {
            let ia: int = a as int;
            let ib: int = b as int;
            assert(ia * ib >= 0);
            assert(mul_div_spec(ia, ib, d as int) == abs_int(ia * ib) / (d as int));
        }
        q as i64
    }
}

/// Floor of the square root of `n`, by binary search.
pub fn isqrt(n: u64) -> (r: u64)
    ensures
        r as nat == isqrt_spec(n as nat),
        r * r <= n,
        r < 0x1_0000_0000,
{
    let mut lo: u64 = 0;
    let mut hi: u64 = 0x1_0000_0000;
    proof {
        assert((hi as int) * (hi as int) > n as int) by (nonlinear_arith)
            requires
                hi as int == 0x1_0000_0000,
                (n as int) < 0x1_0000_0000_0000_0000,
        ;
    }
    while lo + 1 < hi
        invariant
            lo < hi <= 0x1_0000_0000,
            (lo as int) * (lo as int) <= n as int,
            (n as int) < (hi as int) * (hi as int),
        decreases hi - lo,
    {
        let mid: u64 = lo + (hi - lo) / 2;
        proof {
            assert((mid as int) * (mid as int) <= 0x1_0000_0000 * 0x1_0000_0000) by (nonlinear_arith)
                requires
                    0 <= (mid as int) <= 0x1_0000_0000,
            ;
        }
        if (mid as u128) * (mid as u128) <= n as u128 {
            lo = mid;
        } else {
            hi = mid;
        }
    }
    proof {
        lemma_isqrt_unique(n as nat, lo as nat);
    }
    lo
}

} // verus!
