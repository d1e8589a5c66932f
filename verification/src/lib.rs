//! Hilbert curve mappings on a square grid.
//!
//! The grid has `n` by `n` cells (`n` a power of two) with integral
//! coordinates: (0, 0) in the lower left corner, (n − 1, n − 1) in the upper
//! right corner. The curve visits every cell once; its distance `d` starts at
//! 0 in the lower left corner and ends at `n * n − 1` in the lower right
//! corner. `convert_1d_to_2d` maps a distance to the cell it visits and
//! `convert_2d_to_1d` maps a cell back to its distance; `crate::laws` proves
//! that the two are inverse bijections and that consecutive distances land on
//! edge-adjacent cells.

use vstd::prelude::*;

pub mod laws;
pub mod model;

verus! {

use crate::model::{hilbert_dist, hilbert_point, is_pow2, quadrant_index, rotate_spec};
use crate::model::{
    lemma_dist_in_range, lemma_dist_step, lemma_point_step, lemma_pow2_double, lemma_pow2_halves,
    lemma_pow2_ordered, lemma_pow2_pos,
};
use vstd::arithmetic::div_mod::lemma_fundamental_div_mod_converse;

/// Convert a one-dimensional distance `d` to a pair of (x, y) coordinates.
///
/// `n` must be a power of two and `d` must lie in `[0, n * n)`; the result is
/// the cell the curve visits at distance `d`, both coordinates in `[0, n)`.
pub fn convert_1d_to_2d(d: usize, n: usize) -> (r: (usize, usize))
    requires
        is_pow2(n as int),
        (d as int) < (n as int) * (n as int),
    ensures
        (r.0 as int, r.1 as int) == hilbert_point(n as int, d as int),
        r.0 < n,
        r.1 < n,
{
    let mut s: usize = 1;
    let mut t: usize = d;
    let mut x: usize = 0;
    let mut y: usize = 0;

    proof {
        lemma_pow2_pos(n as int);
        lemma_fundamental_div_mod_converse(d as int, 1, d as int, 0);
    }

    while s < n
        invariant
            is_pow2(n as int),
            is_pow2(s as int),
            1 <= s <= n,
            x < s,
            y < s,
            (x as int, y as int) == hilbert_point(
                s as int,
                (d as int) % ((s as int) * (s as int)),
            ),
            t as int == (d as int) / ((s as int) * (s as int)),
        decreases n - s,
    {
        let rx: usize = (t / 2) % 2;
        let ry: usize = if t % 2 == rx {
            0
        } else {
            1
        };
        proof {
            lemma_point_step(s as int, d as int, t as int, rx as int, ry as int);
            lemma_pow2_ordered(s as int, n as int);
            lemma_pow2_double(s as int);
        }
        rotate(s, &mut x, &mut y, rx, ry);
        x = x + s * rx;
        y = y + s * ry;
        t = t / 4;
        s = s * 2;
    }

    proof {
        lemma_fundamental_div_mod_converse(d as int, (n as int) * (n as int), 0, d as int);
    }
    (x, y)
}

/// Convert a pair of (x, y) coordinates to a one-dimensional distance.
///
/// `n` must be a power of two and both coordinates must lie in `[0, n)`; the
/// result is the distance, in `[0, n * n)`, at which the curve visits the
/// cell.
pub fn convert_2d_to_1d(x: usize, y: usize, n: usize) -> (d: usize)
    requires
        is_pow2(n as int),
        x < n,
        y < n,
        (n as int) * (n as int) - 1 <= usize::MAX as int,
    ensures
        d as int == hilbert_dist(n as int, x as int, y as int),
        (d as int) < (n as int) * (n as int),
{
    let mut d: usize = 0;
    let mut s: usize = n / 2;
    let mut cx: usize = x;
    let mut cy: usize = y;
    let ghost total: int = hilbert_dist(n as int, x as int, y as int);
    let ghost mut m: int = n as int;

    proof {
        lemma_pow2_pos(n as int);
        lemma_dist_in_range(n as int, x as int, y as int);
        if n > 1 {
            lemma_pow2_halves(n as int);
        }
    }

    while s > 0
        invariant
            is_pow2(n as int),
            (n as int) * (n as int) - 1 <= usize::MAX as int,
            total == hilbert_dist(n as int, x as int, y as int),
            0 <= total < (n as int) * (n as int),
            (d as int) + hilbert_dist(m, cx as int, cy as int) == total,
            0 <= hilbert_dist(m, cx as int, cy as int),
            s >= 1 ==> m == 2 * (s as int) && is_pow2(m) && (cx as int) < m && (cy as int) < m
                && m <= n as int,
            s == 0 ==> d as int == total,
        decreases s,
    {
        proof {
            lemma_dist_step(s as int, cx as int, cy as int);
            assert((s as int) * (s as int) <= (n as int) * (n as int) - 1) by (nonlinear_arith)
                requires
                    2 * (s as int) <= n as int,
                    1 <= s as int,
            ;
        }
        let rx: usize = cx / s;
        let ry: usize = cy / s;
        let quad: usize = if rx == 1 {
            3 - ry
        } else {
            ry
        };
        proof {
            assert(quad as int == quadrant_index(cx as int / s as int, cy as int / s as int));
        }
        d = d + s * s * quad;
        cx = cx - s * rx;
        cy = cy - s * ry;
        rotate(s, &mut cx, &mut cy, rx, ry);
        proof {
            m = s as int;
            if s > 1 {
                lemma_pow2_halves(s as int);
            }
        }
        s = s / 2;
    }
    d
}

/// Decide at run time whether `n` is a power of two, that is, whether it is a
/// valid grid side for the two conversions. Both of them require it, so a
/// caller whose `n` is not known ahead of time checks it here first.
pub fn is_power_of_two(n: usize) -> (r: bool)
    ensures
        r == is_pow2(n as int),
{
    if n == 0 {
        return false;
    }
    let mut m: usize = n;
    while m > 1
        invariant
            m >= 1,
            is_pow2(n as int) == is_pow2(m as int),
        decreases m,
    {
        if m % 2 != 0 {
            return false;
        }
        m = m / 2;
    }
    true
}

// Rotate a quadrant: reorient a point of a sub-square of side `n` the way the
// curve reorients the quadrant it lies in.
fn rotate(n: usize, x: &mut usize, y: &mut usize, rx: usize, ry: usize)
    requires
        rx <= 1,
        ry <= 1,
        *old(x) < n,
        *old(y) < n,
    ensures
        (*final(x) as int, *final(y) as int) == rotate_spec(
            n as int,
            *old(x) as int,
            *old(y) as int,
            rx as int,
            ry as int,
        ),
        *final(x) < n,
        *final(y) < n,
{
    if ry == 0 {
        if rx == 1 {
            *x = n - 1 - *x;
            *y = n - 1 - *y;
        }
        let tmp: usize = *x;
        *x = *y;
        *y = tmp;
    }
}

} // verus!
