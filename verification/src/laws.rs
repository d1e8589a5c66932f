//! Global laws of the Hilbert curve mappings: the two conversions are
//! mutually inverse bijections between distances and grid cells, the curve
//! starts at the origin and ends in the lower right corner, and consecutive
//! distances always land on edge-adjacent cells.

use vstd::prelude::*;
use vstd::arithmetic::div_mod::{
    lemma_div_pos_is_pos, lemma_fundamental_div_mod, lemma_fundamental_div_mod_converse,
    lemma_mod_bound, lemma_multiply_divide_lt,
};

verus! {

use crate::model::{hilbert_dist, hilbert_point, is_pow2, manhattan, quadrant_index, rotate_spec};
use crate::model::{
    lemma_dist_in_range, lemma_dist_step, lemma_pow2_halves, lemma_pow2_pos,
};

/// The curve starts at the origin: distance 0 maps to cell (0, 0), and cell
/// (0, 0) maps back to distance 0.
pub proof fn lemma_curve_origin(n: int)
    requires
        is_pow2(n),
    ensures
        hilbert_point(n, 0) == (0int, 0int),
        hilbert_dist(n, 0, 0) == 0,
    decreases n,
{
    lemma_pow2_pos(n);
    if n > 1 {
        lemma_pow2_halves(n);
        let s: int = n / 2;
        assert(s * s >= 1) by (nonlinear_arith)
            requires
                s >= 1,
        ;
        lemma_curve_origin(s);
        lemma_fundamental_div_mod_converse(0, s * s, 0, 0);
        lemma_fundamental_div_mod_converse(0, s, 0, 0);
    }
}

/// The curve ends in the lower right corner: the last distance, `n * n - 1`,
/// maps to the cell (n - 1, 0).
pub proof fn lemma_curve_corner(n: int)
    requires
        is_pow2(n),
    ensures
        hilbert_point(n, n * n - 1) == (n - 1, 0int),
    decreases n,
{
    lemma_pow2_pos(n);
    if n == 1 {
        assert(n * n == 1) by (nonlinear_arith)
            requires
                n == 1,
        ;
    } else {
        lemma_pow2_halves(n);
        let s: int = n / 2;
        assert(s * s >= 1) by (nonlinear_arith)
            requires
                s >= 1,
        ;
        lemma_curve_corner(s);
        assert(n * n == 4 * (s * s)) by (nonlinear_arith)
            requires
                n == 2 * s,
        ;
        lemma_fundamental_div_mod_converse(n * n - 1, s * s, 3, s * s - 1);
    }
}

/// Round trip from a distance: converting a distance `d` in `[0, n * n)` to a
/// cell lands inside the grid, and converting that cell back yields `d`. In
/// particular the distance-to-point map is injective.
pub proof fn lemma_round_trip(n: int, d: int)
    requires
        is_pow2(n),
        0 <= d,
        d < n * n,
    ensures
        0 <= hilbert_point(n, d).0 < n,
        0 <= hilbert_point(n, d).1 < n,
        hilbert_dist(n, hilbert_point(n, d).0, hilbert_point(n, d).1) == d,
    decreases n,
{
    lemma_pow2_pos(n);
    if n == 1 {
        assert(n * n == 1) by (nonlinear_arith)
            requires
                n == 1,
        ;
    } else {
        lemma_pow2_halves(n);
        let s: int = n / 2;
        assert(s * s >= 1) by (nonlinear_arith)
            requires
                s >= 1,
        ;
        let ss: int = s * s;
        let q: int = d / ss;
        let r: int = d % ss;
        lemma_mod_bound(d, ss);
        lemma_div_pos_is_pos(d, ss);
        lemma_fundamental_div_mod(d, ss);
        assert(n * n == 4 * ss) by (nonlinear_arith)
            requires
                n == 2 * s,
                ss == s * s,
        ;
        lemma_multiply_divide_lt(d, ss, 4);
        lemma_round_trip(s, r);
        let inner: (int, int) = hilbert_point(s, r);
        let rx: int = (q / 2) % 2;
        let ry: int = if q % 2 == rx {
            0
        } else {
            1
        };
        assert(0 <= rx <= 1 && 0 <= ry <= 1 && quadrant_index(rx, ry) == q) by {
            assert(q == 0 || q == 1 || q == 2 || q == 3);
        }
        let rotated: (int, int) = rotate_spec(s, inner.0, inner.1, rx, ry);
        let px: int = rotated.0 + s * rx;
        let py: int = rotated.1 + s * ry;
        assert(0 <= s * rx <= s && 0 <= s * ry <= s && s * rx == rx * s && s * ry == ry * s)
            by (nonlinear_arith)
            requires
                0 <= rx <= 1,
                0 <= ry <= 1,
                s >= 1,
        ;
        assert(hilbert_point(n, d) == (px, py));
        lemma_fundamental_div_mod_converse(px, s, rx, rotated.0);
        lemma_fundamental_div_mod_converse(py, s, ry, rotated.1);
        lemma_fundamental_div_mod(px, s);
        lemma_fundamental_div_mod(py, s);
        assert(rotate_spec(s, rotated.0, rotated.1, rx, ry) == inner);
        assert(hilbert_dist(n, px, py) == ss * q + hilbert_dist(s, inner.0, inner.1));
    }
}

/// Round trip from a cell: every cell of the grid maps to a distance in
/// `[0, n * n)`, and that distance maps back to the same cell. Together with
/// `lemma_round_trip` this makes the distance-to-point map a bijection from
/// `[0, n * n)` onto the grid: it visits every cell exactly once.
pub proof fn lemma_grid_round_trip(n: int, x: int, y: int)
    requires
        is_pow2(n),
        0 <= x < n,
        0 <= y < n,
    ensures
        0 <= hilbert_dist(n, x, y) < n * n,
        hilbert_point(n, hilbert_dist(n, x, y)) == (x, y),
    decreases n,
{
    lemma_pow2_pos(n);
    lemma_dist_in_range(n, x, y);
    if n > 1 {
        lemma_pow2_halves(n);
        let s: int = n / 2;
        lemma_dist_step(s, x, y);
        let rx: int = x / s;
        let ry: int = y / s;
        let xr: int = x % s;
        let yr: int = y % s;
        let rotated: (int, int) = rotate_spec(s, xr, yr, rx, ry);
        lemma_grid_round_trip(s, rotated.0, rotated.1);
        let dd: int = hilbert_dist(s, rotated.0, rotated.1);
        let q: int = quadrant_index(rx, ry);
        let total: int = s * s * q + dd;
        assert(s * s * q == q * (s * s)) by (nonlinear_arith);
        lemma_fundamental_div_mod_converse(total, s * s, q, dd);
        assert((q / 2) % 2 == rx && (if q % 2 == (q / 2) % 2 {
            0int
        } else {
            1int
        }) == ry) by {
            assert((rx == 0 || rx == 1) && (ry == 0 || ry == 1));
        }
        assert(rotate_spec(s, rotated.0, rotated.1, rx, ry) == (xr, yr));
        lemma_fundamental_div_mod(x, s);
        lemma_fundamental_div_mod(y, s);
        assert(hilbert_point(n, total) == (x, y));
    }
}

/// Locality: two consecutive distances map to edge-adjacent cells, at
/// Manhattan distance exactly 1 from one another.
pub proof fn lemma_locality(n: int, d: int)
    requires
        is_pow2(n),
        0 <= d,
        d + 1 < n * n,
    ensures
        manhattan(hilbert_point(n, d), hilbert_point(n, d + 1)) == 1,
    decreases n,
{
    lemma_pow2_pos(n);
    if n == 1 {
        assert(n * n == 1) by (nonlinear_arith)
            requires
                n == 1,
        ;
    } else {
        lemma_pow2_halves(n);
        let s: int = n / 2;
        assert(s * s >= 1) by (nonlinear_arith)
            requires
                s >= 1,
        ;
        let ss: int = s * s;
        let q: int = d / ss;
        let r: int = d % ss;
        lemma_mod_bound(d, ss);
        lemma_div_pos_is_pos(d, ss);
        lemma_fundamental_div_mod(d, ss);
        assert(n * n == 4 * ss) by (nonlinear_arith)
            requires
                n == 2 * s,
                ss == s * s,
        ;
        lemma_multiply_divide_lt(d, ss, 4);
        lemma_multiply_divide_lt(d + 1, ss, 4);
        if r + 1 < ss {
            lemma_fundamental_div_mod_converse(d + 1, ss, q, r + 1);
            lemma_locality(s, r);
            let p1: (int, int) = hilbert_point(s, r);
            let p2: (int, int) = hilbert_point(s, r + 1);
            let rx: int = (q / 2) % 2;
            let ry: int = if q % 2 == rx {
                0
            } else {
                1
            };
            assert(rx == 0 || rx == 1) by {
                lemma_div_pos_is_pos(q, 2);
                lemma_mod_bound(q / 2, 2);
            }
            let t1: (int, int) = rotate_spec(s, p1.0, p1.1, rx, ry);
            let t2: (int, int) = rotate_spec(s, p2.0, p2.1, rx, ry);
            assert(hilbert_point(n, d) == (t1.0 + s * rx, t1.1 + s * ry));
            assert(hilbert_point(n, d + 1) == (t2.0 + s * rx, t2.1 + s * ry));
            assert(manhattan(t1, t2) == manhattan(p1, p2));
            assert(manhattan(
                (t1.0 + s * rx, t1.1 + s * ry),
                (t2.0 + s * rx, t2.1 + s * ry),
            ) == manhattan(t1, t2));
        } else {
            assert(r == ss - 1);
            assert(ss * q + ss == (q + 1) * ss) by (nonlinear_arith);
            lemma_fundamental_div_mod_converse(d + 1, ss, q + 1, 0);
            assert(q + 1 <= 3);
            lemma_curve_corner(s);
            lemma_curve_origin(s);
            assert(hilbert_point(s, ss - 1) == (s - 1, 0int));
            if q == 0 {
                assert(hilbert_point(n, d) == (0int, s - 1));
                assert(hilbert_point(n, d + 1) == (0int, s));
            } else if q == 1 {
                assert(hilbert_point(n, d) == (s - 1, s));
                assert(hilbert_point(n, d + 1) == (s, s));
            } else {
                assert(q == 2);
                assert(hilbert_point(n, d) == (2 * s - 1, s));
                assert(hilbert_point(n, d + 1) == (2 * s - 1, s - 1));
            }
        }
    }
}

} // verus!
