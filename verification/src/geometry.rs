//! Geometry primitives of the slicer: fixed-point vectors, the on-plane
//! tolerance, and quantization of 2-D points to the map-key grid.
//!
//! All coordinates are integers counting sub-units of `1 / UNIT` model units.
//! Rounding to the nearest grid point is half-up (ties round toward positive
//! infinity), which makes quantization commute with translations by whole
//! grid steps.

use vstd::prelude::*;

verus! {

/// Sub-units per model unit: a coordinate of `UNIT` is one model unit.
pub const UNIT: i64 = 1_000_000;

/// On-plane tolerance: a vertex is on a cutting plane when its height differs
/// from the plane's by at most `PLANE_EPS` sub-units (1e-4 model units).
pub const PLANE_EPS: i64 = 100;

/// Grid step for segment-map keys: 2-D points are rounded to the nearest
/// multiple of `GRID` sub-units (1e-3 model units) before use as keys.
pub const GRID: i64 = 1000;

/// Largest magnitude accepted for a mesh coordinate handed to the slicer.
pub const COORD_LIMIT: i64 = 2_000_000_000;

/// Largest magnitude a 2-D point in a segment map or a closed path may have.
/// Every point the slicer produces from in-limit meshes stays well inside.
pub const POINT_LIMIT: i64 = 1_000_000_000_000;

/// A 2-D point or vector on the fixed-point lattice.
#[derive(Clone, Copy, Debug, PartialEq, Eq, Structural)]
pub struct Vector2 {
    pub x: i64,
    pub y: i64,
}

/// A 3-D point or vector on the fixed-point lattice.
#[derive(Clone, Copy, Debug, PartialEq, Eq, Structural)]
pub struct Vector3 {
    pub x: i64,
    pub y: i64,
    pub z: i64,
}

/// One oriented facet of the mesh: vertices in counter-clockwise order as
/// seen from outside the solid, so `(p1-p0) x (p2-p0)` points outward.
#[derive(Clone, Copy, Debug, PartialEq, Eq, Structural)]
pub struct Triangle {
    pub p0: Vector3,
    pub p1: Vector3,
    pub p2: Vector3,
}

impl Default for Triangle {
    fn default() -> (t: Triangle)
        ensures
            t == (Triangle {
                p0: Vector3 { x: 0, y: 0, z: 0 },
                p1: Vector3 { x: 0, y: 0, z: 0 },
                p2: Vector3 { x: 0, y: 0, z: 0 },
            }),
    {
        Triangle {
            p0: Vector3 { x: 0, y: 0, z: 0 },
            p1: Vector3 { x: 0, y: 0, z: 0 },
            p2: Vector3 { x: 0, y: 0, z: 0 },
        }
    }
}

/// Two heights agree up to the on-plane tolerance.
pub open spec fn spec_near(a: int, b: int) -> bool {
    -(PLANE_EPS as int) <= a - b <= PLANE_EPS as int
}

/// `n / d` rounded to the nearest integer, ties toward positive infinity.
/// Division of `int` is Euclidean, so this is a floor of `(2n + d) / 2d`.
pub open spec fn round_div(n: int, d: int) -> int
    recommends
        d >= 1,
{
    (2 * n + d) / (2 * d)
}

/// `n / d` rounded to nearest for a nonzero divisor of either sign.
pub open spec fn round_ratio(n: int, d: int) -> int
    recommends
        d != 0,
{
    if d >= 1 {
        round_div(n, d)
    } else {
        round_div(-n, -d)
    }
}

/// A coordinate rounded to the nearest multiple of `GRID`.
pub open spec fn spec_quantize(x: int) -> int {
    (GRID as int) * round_div(x, GRID as int)
}

/// Z-component of the cross product of 2-D vectors `(ax, ay)` and `(bx, by)`.
pub open spec fn spec_cross(ax: int, ay: int, bx: int, by: int) -> int {
    ax * by - ay * bx
}

/// Whether both heights are on the same side of zero (zero counts as the
/// positive side, as the sign bit of a float does).
pub open spec fn spec_same_side(d0: int, d1: int) -> bool {
    (d0 < 0) == (d1 < 0)
}

/// Decides `spec_near` on machine integers.
pub fn near(a: i64, b: i64) -> (r: bool)
    ensures
        r == spec_near(a as int, b as int),
{
    let d: i128 = a as i128 - b as i128;
    -(PLANE_EPS as i128) <= d && d <= PLANE_EPS as i128
}

/// The characterization of `round_div`: the rounded quotient is within half
/// a divisor of the true ratio.
pub proof fn lemma_round_div_close(n: int, d: int)
    requires
        d >= 1,
    ensures
        2 * d * round_div(n, d) - d <= 2 * n,
        2 * n <= 2 * d * round_div(n, d) + d - 1,
{
    let num = 2 * n + d;
    let den = 2 * d;
    let q = num / den;
    vstd::arithmetic::div_mod::lemma_fundamental_div_mod(num, den);
    vstd::arithmetic::div_mod::lemma_mod_bound(num, den);
    assert(num == den * q + num % den);
}

/// Rounding by a positive divisor keeps a bounded ratio bounded.
pub proof fn lemma_round_div_bound(n: int, d: int, b: int)
    requires
        d >= 1,
        b >= 0,
        -b * d <= n <= b * d,
    ensures
        -b <= round_div(n, d) <= b,
{
    let q = round_div(n, d);
    lemma_round_div_close(n, d);
    assert(-b <= q <= b) by (nonlinear_arith)
        requires
            d >= 1,
            b >= 0,
            -b * d <= n <= b * d,
            2 * d * q - d <= 2 * n,
            2 * n <= 2 * d * q + d - 1,
    {}
}

/// Rounding commutes with shifts by whole multiples of the divisor.
pub proof fn lemma_round_div_shift(n: int, d: int, k: int)
    requires
        d >= 1,
    ensures
        round_div(n + k * d, d) == round_div(n, d) + k,
{
    let num = 2 * n + d;
    let den = 2 * d;
    assert(2 * (n + k * d) + d == num + k * den) by (nonlinear_arith)
        requires
            num == 2 * n + d,
            den == 2 * d,
    {}
    vstd::arithmetic::div_mod::lemma_hoist_over_denominator(num, k, den as nat);
    assert((num + k * den) / den == num / den + k);
}

/// Euclidean division of a negative value by a positive divisor, expressed
/// through unsigned division: `(-m) / d == -((m + d - 1) / d)`.
proof fn lemma_div_neg(m: int, d: int)
    requires
        m >= 1,
        d >= 1,
    ensures
        (-m) / d == -((m + d - 1) / d),
{
    let q = (m + d - 1) / d;
    let r = (m + d - 1) % d;
    vstd::arithmetic::div_mod::lemma_fundamental_div_mod(m + d - 1, d);
    vstd::arithmetic::div_mod::lemma_mod_bound(m + d - 1, d);
    assert(m + d - 1 == d * q + r);
    assert(-m == d * (-q) + (d - 1 - r)) by (nonlinear_arith)
        requires
            m + d - 1 == d * q + r,
    {}
    vstd::arithmetic::div_mod::lemma_fundamental_div_mod_converse(-m, d, -q, d - 1 - r);
}

/// Computes `round_div` on machine integers.
fn round_div_i128(n: i128, d: i128) -> (r: i128)
    requires
        1 <= d <= 0x1000_0000_0000_0000_0000_0000_0000_0000i128 / 4,
        -(0x1000_0000_0000_0000_0000_0000_0000_0000i128 / 4) <= n
            <= 0x1000_0000_0000_0000_0000_0000_0000_0000i128 / 4,
    ensures
        r as int == round_div(n as int, d as int),
{
    let num: i128 = 2 * n + d;
    let den: i128 = 2 * d;
    if num >= 0 {
        let q: u128 = (num as u128) / (den as u128);
        proof {
            vstd::arithmetic::div_mod::lemma_div_nonincreasing(num as int, den as int);
            vstd::arithmetic::div_mod::lemma_div_pos_is_pos(num as int, den as int);
        }
        q as i128
    } else {
        let m: u128 = (-num) as u128;
        let q: u128 = (m + (den as u128) - 1) / (den as u128);
        proof {
            lemma_div_neg(m as int, den as int);
            vstd::arithmetic::div_mod::lemma_div_nonincreasing(
                m as int + den as int - 1,
                den as int,
            );
            vstd::arithmetic::div_mod::lemma_div_pos_is_pos(m as int + den as int - 1, den as int);
        }
        -(q as i128)
    }
}

/// Computes `round_ratio` on machine integers.
pub fn round_ratio_i128(n: i128, d: i128) -> (r: i128)
    requires
        d != 0,
        -(0x1000_0000_0000_0000_0000_0000_0000_0000i128 / 4) <= n
            <= 0x1000_0000_0000_0000_0000_0000_0000_0000i128 / 4,
        -(0x1000_0000_0000_0000_0000_0000_0000_0000i128 / 4) <= d
            <= 0x1000_0000_0000_0000_0000_0000_0000_0000i128 / 4,
    ensures
        r as int == round_ratio(n as int, d as int),
{
    if d >= 1 {
        round_div_i128(n, d)
    } else {
        round_div_i128(-n, -d)
    }
}

/// Rounds a coordinate to the nearest multiple of `GRID`, half up.
pub fn quantize(x: i64) -> (r: i64)
    requires
        -0x0010_0000_0000_0000i64 <= x <= 0x0010_0000_0000_0000i64,
    ensures
        r as int == spec_quantize(x as int),
        x - GRID <= r <= x + GRID,
{
    let q: i128 = round_div_i128(x as i128, GRID as i128);
    proof {
        lemma_round_div_close(x as int, GRID as int);
    }
    (GRID as i128 * q) as i64
}

/// Computes `spec_cross` of two 2-D integer vectors exactly.
pub fn cross_z(ax: i64, ay: i64, bx: i64, by: i64) -> (r: i128)
    requires
        -4_000_000_000_000i64 <= ax <= 4_000_000_000_000i64,
        -4_000_000_000_000i64 <= ay <= 4_000_000_000_000i64,
        -4_000_000_000_000i64 <= bx <= 4_000_000_000_000i64,
        -4_000_000_000_000i64 <= by <= 4_000_000_000_000i64,
    ensures
        r as int == spec_cross(ax as int, ay as int, bx as int, by as int),
{
    proof {
        assert((ax as int) * (by as int) <= 16_000_000_000_000_000_000_000_000int
            && (ax as int) * (by as int) >= -16_000_000_000_000_000_000_000_000int
            && (ay as int) * (bx as int) <= 16_000_000_000_000_000_000_000_000int
            && (ay as int) * (bx as int) >= -16_000_000_000_000_000_000_000_000int)
            by (nonlinear_arith)
            requires
                -4_000_000_000_000 <= ax as int <= 4_000_000_000_000,
                -4_000_000_000_000 <= ay as int <= 4_000_000_000_000,
                -4_000_000_000_000 <= bx as int <= 4_000_000_000_000,
                -4_000_000_000_000 <= by as int <= 4_000_000_000_000,
        {}
    }
    (ax as i128) * (by as i128) - (ay as i128) * (bx as i128)
}

} // verus!
