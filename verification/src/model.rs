//! Mathematical model of the Hilbert curve on a `n` by `n` grid.
//!
//! `hilbert_point` and `hilbert_dist` define the curve by recursion on the
//! side length `n` (a power of two): an order-`n` curve is four order-`n/2`
//! curves, one per quadrant, each rotated or reflected so that the traversal
//! stays continuous. The executable conversions in the crate root are proved
//! to compute exactly these functions, and the laws in `crate::laws` are
//! proved about them.

use vstd::prelude::*;
use vstd::arithmetic::div_mod::{
    lemma_breakdown, lemma_div_denominator, lemma_div_pos_is_pos, lemma_fundamental_div_mod,
    lemma_fundamental_div_mod_converse, lemma_mod_bound, lemma_multiply_divide_lt,
};

verus! {

/// `n` is a power of two: 1, 2, 4, 8, ...
pub open spec fn is_pow2(n: int) -> bool
    decreases n,
{
    if n <= 0 {
        false
    } else if n == 1 {
        true
    } else {
        n % 2 == 0 && is_pow2(n / 2)
    }
}

/// The quadrant transform of the curve: entering a quadrant flagged
/// `(rx, ry)` of a square whose quadrants have side `s`, the sub-curve is the
/// parent shape transposed (`ry == 0, rx != 1`), rotated by a half turn and
/// transposed (`ry == 0, rx == 1`), or kept as it is (`ry == 1`).
pub open spec fn rotate_spec(s: int, x: int, y: int, rx: int, ry: int) -> (int, int) {
    if ry == 0 {
        if rx == 1 {
            (s - 1 - y, s - 1 - x)
        } else {
            (y, x)
        }
    } else {
        (x, y)
    }
}

/// Traversal order of the four quadrants: the quadrant flagged `(rx, ry)` is
/// the `quadrant_index(rx, ry)`-th one the curve passes through.
pub open spec fn quadrant_index(rx: int, ry: int) -> int {
    if rx == 1 {
        3 - ry
    } else {
        ry
    }
}

/// The cell at distance `d` along the Hilbert curve of an `n` by `n` grid.
///
/// For `n > 1` the curve is split at scale `s = n / 2`: the two high bits of
/// `d` (its quotient by `s * s`) pick the quadrant, and the remainder walks
/// the order-`s` sub-curve inside it, reoriented by `rotate_spec`.
pub open spec fn hilbert_point(n: int, d: int) -> (int, int)
    decreases n,
{
    if n <= 1 {
        (0, 0)
    } else {
        let s: int = n / 2;
        let q: int = d / (s * s);
        let inner: (int, int) = hilbert_point(s, d % (s * s));
        let rx: int = (q / 2) % 2;
        let ry: int = if q % 2 == rx {
            0
        } else {
            1
        };
        let rotated: (int, int) = rotate_spec(s, inner.0, inner.1, rx, ry);
        (rotated.0 + s * rx, rotated.1 + s * ry)
    }
}

/// The distance along the Hilbert curve of an `n` by `n` grid at which the
/// cell `(x, y)` is visited.
///
/// For `n > 1` the high bit of each coordinate picks the quadrant, which
/// contributes `s * s` cells per quadrant passed earlier; the low bits,
/// brought back to the parent orientation by `rotate_spec`, are resolved by
/// the order-`s` sub-curve.
pub open spec fn hilbert_dist(n: int, x: int, y: int) -> int
    decreases n,
{
    if n <= 1 {
        0
    } else {
        let s: int = n / 2;
        let rx: int = x / s;
        let ry: int = y / s;
        let rotated: (int, int) = rotate_spec(s, x - s * rx, y - s * ry, rx, ry);
        s * s * quadrant_index(rx, ry) + hilbert_dist(s, rotated.0, rotated.1)
    }
}

/// The absolute difference of two integers.
pub open spec fn abs_diff(a: int, b: int) -> int {
    if a >= b {
        a - b
    } else {
        b - a
    }
}

/// Manhattan (taxicab) distance between two cells.
pub open spec fn manhattan(p: (int, int), q: (int, int)) -> int {
    abs_diff(p.0, q.0) + abs_diff(p.1, q.1)
}

/// A power of two is at least 1.
pub proof fn lemma_pow2_pos(n: int)
    requires
        is_pow2(n),
    ensures
        n >= 1,
{
}

/// A power of two above 1 is twice the power of two below it.
pub proof fn lemma_pow2_halves(n: int)
    requires
        is_pow2(n),
        n > 1,
    ensures
        n >= 2,
        n % 2 == 0,
        is_pow2(n / 2),
        n == 2 * (n / 2),
        n / 2 >= 1,
{
    lemma_fundamental_div_mod(n, 2);
    lemma_pow2_pos(n / 2);
}

/// Doubling a power of two gives a power of two.
pub proof fn lemma_pow2_double(s: int)
    requires
        is_pow2(s),
    ensures
        is_pow2(2 * s),
        2 * s > 1,
{
    lemma_pow2_pos(s);
    lemma_fundamental_div_mod_converse(2 * s, 2, s, 0);
}

/// Between a power of two and any larger one there is room for a doubling.
pub proof fn lemma_pow2_ordered(a: int, b: int)
    requires
        is_pow2(a),
        is_pow2(b),
        a < b,
    ensures
        2 * a <= b,
    decreases a,
{
    lemma_pow2_pos(a);
    lemma_pow2_pos(b);
    if a > 1 {
        lemma_pow2_halves(a);
        lemma_pow2_halves(b);
        lemma_pow2_ordered(a / 2, b / 2);
    }
}

/// A cell of the grid is mapped to a distance inside the curve's range.
pub proof fn lemma_dist_in_range(n: int, x: int, y: int)
    requires
        is_pow2(n),
        0 <= x < n,
        0 <= y < n,
    ensures
        0 <= hilbert_dist(n, x, y) < n * n,
    decreases n,
{
    lemma_pow2_pos(n);
    if n > 1 {
        lemma_pow2_halves(n);
        let s: int = n / 2;
        assert(s * s >= 1) by (nonlinear_arith)
            requires
                s >= 1,
        ;
        let rx: int = x / s;
        let ry: int = y / s;
        lemma_div_pos_is_pos(x, s);
        lemma_div_pos_is_pos(y, s);
        lemma_multiply_divide_lt(x, s, 2);
        lemma_multiply_divide_lt(y, s, 2);
        lemma_fundamental_div_mod(x, s);
        lemma_fundamental_div_mod(y, s);
        lemma_mod_bound(x, s);
        lemma_mod_bound(y, s);
        let rotated: (int, int) = rotate_spec(s, x - s * rx, y - s * ry, rx, ry);
        lemma_dist_in_range(s, rotated.0, rotated.1);
        let q: int = quadrant_index(rx, ry);
        assert(0 <= s * s * q <= 3 * (s * s)) by (nonlinear_arith)
            requires
                0 <= q <= 3,
                s * s >= 1,
        ;
        assert(n * n == 4 * (s * s)) by (nonlinear_arith)
            requires
                n == 2 * s,
        ;
    }
}

/// The two quadrant bits that the iterative conversion reads from the low end
/// of the running distance `t` agree with the bits that the recursive model
/// reads from `t % 4`.
pub proof fn lemma_low_bits(t: int)
    requires
        0 <= t,
    ensures
        0 <= (t / 2) % 2 <= 1,
        0 <= t % 4 < 4,
        ((t % 4) / 2) % 2 == (t / 2) % 2,
        (t % 4) % 2 == t % 2,
{
    lemma_mod_bound(t, 4);
    lemma_mod_bound(t, 2);
    lemma_div_pos_is_pos(t, 2);
    lemma_mod_bound(t / 2, 2);
    lemma_breakdown(t, 2, 2);
    assert(t % 4 == 2 * ((t / 2) % 2) + t % 2);
    lemma_fundamental_div_mod_converse(t % 4, 2, (t / 2) % 2, t % 2);
}

/// One step of the distance-to-point loop: consuming the two low bits of the
/// running distance `t == d / (s * s)` and placing the point built so far
/// into the quadrant they name turns the point of the order-`s` curve into
/// the point of the order-`2 * s` curve.
pub proof fn lemma_point_step(s: int, d: int, t: int, rx: int, ry: int)
    requires
        is_pow2(s),
        0 <= d,
        t == d / (s * s),
        rx == (t / 2) % 2,
        ry == (if t % 2 == rx {
            0int
        } else {
            1int
        }),
    ensures
        0 <= rx <= 1,
        0 <= ry <= 1,
        0 <= s * rx <= s,
        0 <= s * ry <= s,
        t / 4 == d / ((2 * s) * (2 * s)),
        hilbert_point(2 * s, d % ((2 * s) * (2 * s))) == (
            rotate_spec(
                s,
                hilbert_point(s, d % (s * s)).0,
                hilbert_point(s, d % (s * s)).1,
                rx,
                ry,
            ).0 + s * rx,
            rotate_spec(
                s,
                hilbert_point(s, d % (s * s)).0,
                hilbert_point(s, d % (s * s)).1,
                rx,
                ry,
            ).1 + s * ry,
        ),
{
    lemma_pow2_pos(s);
    lemma_pow2_double(s);
    assert(s * s >= 1) by (nonlinear_arith)
        requires
            s >= 1,
    ;
    let ss: int = s * s;
    let r: int = d % ss;
    lemma_mod_bound(d, ss);
    lemma_div_pos_is_pos(d, ss);
    lemma_low_bits(t);
    let q: int = t % 4;
    lemma_breakdown(d, ss, 4);
    assert((2 * s) * (2 * s) == ss * 4) by (nonlinear_arith)
        requires
            ss == s * s,
    ;
    let big: int = (2 * s) * (2 * s);
    assert(d % big == ss * q + r);
    assert(ss * q == q * ss) by (nonlinear_arith);
    lemma_fundamental_div_mod_converse(d % big, ss, q, r);
    assert((d % big) / (s * s) == q);
    assert((d % big) % (s * s) == r);
    lemma_fundamental_div_mod_converse(2 * s, 2, s, 0);
    assert((2 * s) / 2 == s);
    assert(s * rx <= s && 0 <= s * rx && s * ry <= s && 0 <= s * ry) by (nonlinear_arith)
        requires
            0 <= rx <= 1,
            0 <= ry <= 1,
            s >= 1,
    ;
    lemma_div_denominator(d, ss, 4);
}

/// One step of the point-to-distance loop: the high bit of each coordinate of
/// a cell of the order-`2 * s` grid names its quadrant; the cells the curve
/// spends in earlier quadrants account for `s * s` each, and the reduced,
/// reoriented coordinates carry on in the order-`s` sub-curve.
pub proof fn lemma_dist_step(s: int, cx: int, cy: int)
    requires
        is_pow2(s),
        0 <= cx < 2 * s,
        0 <= cy < 2 * s,
    ensures
        0 <= cx / s <= 1,
        0 <= cy / s <= 1,
        0 <= s * (cx / s) <= cx,
        0 <= s * (cy / s) <= cy,
        cx - s * (cx / s) == cx % s,
        cy - s * (cy / s) == cy % s,
        0 <= cx % s < s,
        0 <= cy % s < s,
        hilbert_dist(2 * s, cx, cy) == s * s * quadrant_index(cx / s, cy / s) + hilbert_dist(
            s,
            rotate_spec(s, cx % s, cy % s, cx / s, cy / s).0,
            rotate_spec(s, cx % s, cy % s, cx / s, cy / s).1,
        ),
        0 <= hilbert_dist(
            s,
            rotate_spec(s, cx % s, cy % s, cx / s, cy / s).0,
            rotate_spec(s, cx % s, cy % s, cx / s, cy / s).1,
        ) < s * s,
        0 <= s * s * quadrant_index(cx / s, cy / s) <= 3 * (s * s),
{
    lemma_pow2_pos(s);
    lemma_pow2_double(s);
    assert(s * s >= 1) by (nonlinear_arith)
        requires
            s >= 1,
    ;
    lemma_div_pos_is_pos(cx, s);
    lemma_div_pos_is_pos(cy, s);
    lemma_multiply_divide_lt(cx, s, 2);
    lemma_multiply_divide_lt(cy, s, 2);
    lemma_fundamental_div_mod(cx, s);
    lemma_fundamental_div_mod(cy, s);
    lemma_mod_bound(cx, s);
    lemma_mod_bound(cy, s);
    lemma_fundamental_div_mod_converse(2 * s, 2, s, 0);
    assert((2 * s) / 2 == s);
    let rx: int = cx / s;
    let ry: int = cy / s;
    assert(0 <= s * rx <= cx && 0 <= s * ry <= cy) by (nonlinear_arith)
        requires
            0 <= rx <= 1,
            0 <= ry <= 1,
            s >= 1,
            s * rx + cx % s == cx,
            s * ry + cy % s == cy,
            0 <= cx % s,
            0 <= cy % s,
    ;
    let rotated: (int, int) = rotate_spec(s, cx % s, cy % s, rx, ry);
    lemma_dist_in_range(s, rotated.0, rotated.1);
    let q: int = quadrant_index(rx, ry);
    assert(0 <= s * s * q <= 3 * (s * s)) by (nonlinear_arith)
        requires
            0 <= q <= 3,
            s * s >= 1,
    ;
}

} // verus!
