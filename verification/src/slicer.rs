//! The plane-triangle intersector and the layer planner.
//!
//! For one triangle and one cutting plane `z = zc` the intersector classifies
//! the vertices as on-plane or off-plane and emits at most one directed 2-D
//! segment, oriented so that, walking along the segment with head up along
//! `+z`, the interior of the solid lies on the left.  The layer planner maps
//! a triangle's height extent to the inclusive range of plane indices that
//! touch it.

use vstd::prelude::*;

use crate::contour::Contour;
use crate::contour::WalkState;
use crate::contour::contours_points;
use crate::contour::lemma_assemble_min_len;
use crate::contour::lemma_paths_points_nonempty;
use crate::contour::lemma_pts_bounds_concat;
use crate::contour::paths_points;
use crate::contour::pts_bounds;
use crate::contour::spec_assemble;
use crate::contour::spec_contour;
use crate::geometry::COORD_LIMIT;
use crate::segment_map::SegmentMap;
use crate::geometry::GRID;
use crate::geometry::PLANE_EPS;
use crate::geometry::Triangle;
use crate::geometry::Vector2;
use crate::geometry::Vector3;
use crate::geometry::cross_z;
use crate::geometry::lemma_round_div_bound;
use crate::geometry::near;
use crate::geometry::quantize;
use crate::geometry::round_div;
use crate::geometry::round_ratio;
use crate::geometry::round_ratio_i128;
use crate::geometry::spec_cross;
use crate::geometry::spec_near;
use crate::geometry::spec_quantize;
use crate::geometry::spec_same_side;

verus! {

/// Largest magnitude an intersection coordinate can reach before
/// quantization, for meshes within `COORD_LIMIT`.
pub const INTERSECT_LIMIT: i64 = 402_000_000_000;

/// Slicing parameters: the vertical spacing of the cutting planes, in
/// sub-units.  It must be positive; `slice_mesh` rejects anything else.
#[derive(Clone, Copy, Debug, PartialEq, Eq, Structural)]
pub struct SlicerConfig {
    pub layer_height: i64,
}

/// The error of the slicer: the configuration was rejected up front.
#[derive(Clone, Copy, Debug, PartialEq, Eq, Structural)]
pub enum SlicerError {
    InvalidConfig,
}

/// A coordinate is within the bound accepted for mesh input.
pub open spec fn coord_ok(x: int) -> bool {
    -COORD_LIMIT <= x <= COORD_LIMIT
}

/// All three coordinates of a vertex are within the mesh bound.
pub open spec fn vertex_ok(p: Vector3) -> bool {
    coord_ok(p.x as int) && coord_ok(p.y as int) && coord_ok(p.z as int)
}

/// All vertices of a triangle are within the mesh bound.
pub open spec fn triangle_ok(t: Triangle) -> bool {
    vertex_ok(t.p0) && vertex_ok(t.p1) && vertex_ok(t.p2)
}

/// A 2-D point is within the bound kept for segment maps and paths.
pub open spec fn point_ok(p: Vector2) -> bool {
    -crate::geometry::POINT_LIMIT <= p.x as int <= crate::geometry::POINT_LIMIT
        && -crate::geometry::POINT_LIMIT <= p.y as int <= crate::geometry::POINT_LIMIT
}

/// The lowest vertex height of a triangle.
pub open spec fn tri_zmin(t: Triangle) -> int {
    vstd::math::min(vstd::math::min(t.p0.z as int, t.p1.z as int), t.p2.z as int)
}

/// The highest vertex height of a triangle.
pub open spec fn tri_zmax(t: Triangle) -> int {
    vstd::math::max(vstd::math::max(t.p0.z as int, t.p1.z as int), t.p2.z as int)
}

/// One coordinate of the point where edge `(a0, z0) -> (a1, z1)` crosses
/// height `zc`, linearly interpolated and rounded to the nearest sub-unit.
pub open spec fn spec_interp(a0: int, a1: int, z0: int, z1: int, zc: int) -> int
    recommends
        z0 != z1,
{
    round_ratio(a0 * (z1 - zc) + a1 * (zc - z0), z1 - z0)
}

/// Where the edge `p0 -> p1` meets the plane `z = zc`: `None` when both ends
/// are off the plane on the same side, otherwise the interpolated crossing.
pub open spec fn spec_intersect(p0: Vector3, p1: Vector3, zc: int) -> Option<(int, int)> {
    if !spec_near(p0.z as int, zc) && !spec_near(p1.z as int, zc) && spec_same_side(
        p0.z as int - zc,
        p1.z as int - zc,
    ) {
        None
    } else {
        Some(
            (
                spec_interp(p0.x as int, p1.x as int, p0.z as int, p1.z as int, zc),
                spec_interp(p0.y as int, p1.y as int, p0.z as int, p1.z as int, zc),
            ),
        )
    }
}

/// Both 2-D endpoints quantized to the key grid; `None` when they land on
/// the same grid point, since such a segment is discarded.
pub open spec fn spec_quantized_pair(ax: int, ay: int, bx: int, by: int) -> Option<
    (Vector2, Vector2),
> {
    let a = Vector2 { x: spec_quantize(ax) as i64, y: spec_quantize(ay) as i64 };
    let b = Vector2 { x: spec_quantize(bx) as i64, y: spec_quantize(by) as i64 };
    if a == b {
        None
    } else {
        Some((a, b))
    }
}

/// How many of the three edge-plane intersections exist.
pub open spec fn spec_intersection_count(t: Triangle, zc: int) -> int {
    (if spec_intersect(t.p0, t.p1, zc) is Some {
        1int
    } else {
        0int
    }) + (if spec_intersect(t.p1, t.p2, zc) is Some {
        1int
    } else {
        0int
    }) + (if spec_intersect(t.p2, t.p0, zc) is Some {
        1int
    } else {
        0int
    })
}

/// The generic case: intersect all three edges, expect exactly two crossing
/// points, and orient the segment along `n_plane x n_triangle`, so that the
/// interior of the solid is on its left.
pub open spec fn spec_generic_segment(t: Triangle, zc: int) -> Option<(Vector2, Vector2)> {
    let ab = spec_intersect(t.p0, t.p1, zc);
    let bc = spec_intersect(t.p1, t.p2, zc);
    let ca = spec_intersect(t.p2, t.p0, zc);
    if spec_intersection_count(t, zc) != 2 {
        None
    } else {
        let first = if ab is Some {
            ab->0
        } else {
            bc->0
        };
        let second = if ab is Some {
            if bc is Some {
                bc->0
            } else {
                ca->0
            }
        } else {
            ca->0
        };
        // x and y components of the triangle's outward normal
        let nx = spec_cross(
            t.p1.y as int - t.p0.y as int,
            t.p1.z as int - t.p0.z as int,
            t.p2.y as int - t.p0.y as int,
            t.p2.z as int - t.p0.z as int,
        );
        let ny = spec_cross(
            t.p1.z as int - t.p0.z as int,
            t.p1.x as int - t.p0.x as int,
            t.p2.z as int - t.p0.z as int,
            t.p2.x as int - t.p0.x as int,
        );
        // travel direction (-ny, nx); emit the pair running along it
        let along = (second.0 - first.0) * (-ny) + (second.1 - first.1) * nx;
        if along > 0 {
            spec_quantized_pair(first.0, first.1, second.0, second.1)
        } else {
            spec_quantized_pair(second.0, second.1, first.0, first.1)
        }
    }
}

/// The emission policy for one triangle at one cutting plane: the eight-case
/// classification by on-plane vertices.
pub open spec fn spec_layer_segment(t: Triangle, zc: int) -> Option<(Vector2, Vector2)> {
    let a = spec_near(t.p0.z as int, zc);
    let b = spec_near(t.p1.z as int, zc);
    let c = spec_near(t.p2.z as int, zc);
    let zmin = tri_zmin(t);
    let zmax = tri_zmax(t);
    if a && b && c {
        // the whole face lies on the plane; adjacent facets supply the edges
        None
    } else if a && !b && !c && (spec_near(t.p0.z as int, zmin) || spec_near(t.p0.z as int, zmax)) {
        // the plane only grazes a vertex at the triangle's extreme
        None
    } else if !a && b && !c && (spec_near(t.p1.z as int, zmin) || spec_near(t.p1.z as int, zmax)) {
        None
    } else if !a && !b && c && (spec_near(t.p2.z as int, zmin) || spec_near(t.p2.z as int, zmax)) {
        None
    } else if a && b && !c {
        // one triangle edge lies on the plane; its CCW order already walks
        // the boundary with the interior on the left
        spec_quantized_pair(t.p0.x as int, t.p0.y as int, t.p1.x as int, t.p1.y as int)
    } else if !a && b && c {
        spec_quantized_pair(t.p1.x as int, t.p1.y as int, t.p2.x as int, t.p2.y as int)
    } else if a && !b && c {
        spec_quantized_pair(t.p2.x as int, t.p2.y as int, t.p0.x as int, t.p0.y as int)
    } else {
        spec_generic_segment(t, zc)
    }
}

/// The interpolated crossing lies within `INTERSECT_LIMIT` whenever the
/// edge is within the mesh bound and actually reaches the plane.
proof fn lemma_interp_bound(a0: int, a1: int, z0: int, z1: int, zc: int)
    requires
        coord_ok(a0),
        coord_ok(a1),
        coord_ok(z0),
        coord_ok(z1),
        coord_ok(zc),
        z0 != z1,
        spec_near(z0, zc) || spec_near(z1, zc) || !spec_same_side(z0 - zc, z1 - zc),
    ensures
        -INTERSECT_LIMIT <= spec_interp(a0, a1, z0, z1, zc) <= INTERSECT_LIMIT,
{
    let n = a0 * (z1 - zc) + a1 * (zc - z0);
    let d = z1 - z0;
    let b = INTERSECT_LIMIT as int;
    let dabs = if d >= 0 { d } else { -d };
    if spec_near(z0, zc) {
        assert(-b * dabs <= n <= b * dabs) by (nonlinear_arith)
            requires
                n == a0 * (z1 - zc) + a1 * (zc - z0),
                d == z1 - z0,
                dabs == if d >= 0 { d } else { -d },
                dabs >= 1,
                b == 402_000_000_000,
                -2_000_000_000 <= a0 <= 2_000_000_000,
                -2_000_000_000 <= a1 <= 2_000_000_000,
                -100 <= zc - z0 <= 100,
        {
            assert(n == a0 * d + (a1 - a0) * (zc - z0));
        }
    } else if spec_near(z1, zc) {
        assert(-b * dabs <= n <= b * dabs) by (nonlinear_arith)
            requires
                n == a0 * (z1 - zc) + a1 * (zc - z0),
                d == z1 - z0,
                dabs == if d >= 0 { d } else { -d },
                dabs >= 1,
                b == 402_000_000_000,
                -2_000_000_000 <= a0 <= 2_000_000_000,
                -2_000_000_000 <= a1 <= 2_000_000_000,
                -100 <= z1 - zc <= 100,
        {
            assert(n == a1 * d - (a1 - a0) * (z1 - zc));
        }
    } else {
        assert(-b * dabs <= n <= b * dabs) by (nonlinear_arith)
            requires
                n == a0 * (z1 - zc) + a1 * (zc - z0),
                d == z1 - z0,
                dabs == if d >= 0 { d } else { -d },
                b == 402_000_000_000,
                -2_000_000_000 <= a0 <= 2_000_000_000,
                -2_000_000_000 <= a1 <= 2_000_000_000,
                (z0 - zc < 0) != (z1 - zc < 0),
        {}
    }
    if d >= 1 {
        lemma_round_div_bound(n, d, b);
    } else {
        lemma_round_div_bound(-n, -d, b);
    }
}

/// Where the edge `p0 -> p1` crosses the plane `z = zc`, rounded to the
/// sub-unit lattice; `None` when the edge stays strictly on one side.
///
/// An edge lying level with the plane has no single crossing point, so such
/// input is excluded; the classification in `spec_layer_segment` never sends
/// one here.
pub fn intersect(p0: &Vector3, p1: &Vector3, z: i64) -> (r: Option<Vector3>)
    requires
        vertex_ok(*p0),
        vertex_ok(*p1),
        coord_ok(z as int),
        p0.z != p1.z || !spec_near(p0.z as int, z as int),
    ensures
        r is Some <==> spec_intersect(*p0, *p1, z as int) is Some,
        r matches Some(v) ==> {
            &&& v.x as int == (spec_intersect(*p0, *p1, z as int)->0).0
            &&& v.y as int == (spec_intersect(*p0, *p1, z as int)->0).1
            &&& v.z == z
            &&& -INTERSECT_LIMIT <= v.x <= INTERSECT_LIMIT
            &&& -INTERSECT_LIMIT <= v.y <= INTERSECT_LIMIT
        },
{
    let d0: i64 = p0.z - z;
    let d1: i64 = p1.z - z;
    let e0 = near(p0.z, z);
    let e1 = near(p1.z, z);
    if !e0 && !e1 && ((d0 < 0) == (d1 < 0)) {
        return None;
    }
    proof {
        lemma_interp_bound(p0.x as int, p1.x as int, p0.z as int, p1.z as int, z as int);
        lemma_interp_bound(p0.y as int, p1.y as int, p0.z as int, p1.z as int, z as int);
    }
    proof {
        assert((p0.x as int) * (p1.z as int - z as int) <= 8_000_000_000_000_000_000int
            && (p0.x as int) * (p1.z as int - z as int) >= -8_000_000_000_000_000_000int
            && (p1.x as int) * (z as int - p0.z as int) <= 8_000_000_000_000_000_000int
            && (p1.x as int) * (z as int - p0.z as int) >= -8_000_000_000_000_000_000int
            && (p0.y as int) * (p1.z as int - z as int) <= 8_000_000_000_000_000_000int
            && (p0.y as int) * (p1.z as int - z as int) >= -8_000_000_000_000_000_000int
            && (p1.y as int) * (z as int - p0.z as int) <= 8_000_000_000_000_000_000int
            && (p1.y as int) * (z as int - p0.z as int) >= -8_000_000_000_000_000_000int)
            by (nonlinear_arith)
            requires
                -2_000_000_000 <= p0.x as int <= 2_000_000_000,
                -2_000_000_000 <= p0.y as int <= 2_000_000_000,
                -2_000_000_000 <= p0.z as int <= 2_000_000_000,
                -2_000_000_000 <= p1.x as int <= 2_000_000_000,
                -2_000_000_000 <= p1.y as int <= 2_000_000_000,
                -2_000_000_000 <= p1.z as int <= 2_000_000_000,
                -2_000_000_000 <= z as int <= 2_000_000_000,
        {}
    }
    let dz: i128 = p1.z as i128 - p0.z as i128;
    let wx: i128 = (p0.x as i128) * (p1.z as i128 - z as i128) + (p1.x as i128) * (z as i128
        - p0.z as i128);
    let wy: i128 = (p0.y as i128) * (p1.z as i128 - z as i128) + (p1.y as i128) * (z as i128
        - p0.z as i128);
    let ix: i128 = round_ratio_i128(wx, dz);
    let iy: i128 = round_ratio_i128(wy, dz);
    Some(Vector3 { x: ix as i64, y: iy as i64, z })
}

/// Quantizes both endpoints to the key grid and discards the segment when
/// they collapse to one grid point.
fn quantized_pair(ax: i64, ay: i64, bx: i64, by: i64) -> (r: Option<(Vector2, Vector2)>)
    requires
        -INTERSECT_LIMIT <= ax <= INTERSECT_LIMIT,
        -INTERSECT_LIMIT <= ay <= INTERSECT_LIMIT,
        -INTERSECT_LIMIT <= bx <= INTERSECT_LIMIT,
        -INTERSECT_LIMIT <= by <= INTERSECT_LIMIT,
    ensures
        r == spec_quantized_pair(ax as int, ay as int, bx as int, by as int),
        r matches Some(s) ==> point_ok(s.0) && point_ok(s.1) && s.0 != s.1,
{
    let a = Vector2 { x: quantize(ax), y: quantize(ay) };
    let b = Vector2 { x: quantize(bx), y: quantize(by) };
    if a.x == b.x && a.y == b.y {
        None
    } else {
        Some((a, b))
    }
}

/// Classifies one triangle against the plane `z = zc` and emits at most one
/// directed segment, as `spec_layer_segment` states.  The returned endpoints
/// are distinct and within `POINT_LIMIT`.
pub fn segment_for_layer(t: &Triangle, zc: i64, zmin: i64, zmax: i64) -> (r: Option<
    (Vector2, Vector2),
>)
    requires
        triangle_ok(*t),
        coord_ok(zc as int),
        zmin as int == tri_zmin(*t),
        zmax as int == tri_zmax(*t),
    ensures
        r == spec_layer_segment(*t, zc as int),
        r matches Some(s) ==> point_ok(s.0) && point_ok(s.1) && s.0 != s.1,
{
    let a = near(t.p0.z, zc);
    let b = near(t.p1.z, zc);
    let c = near(t.p2.z, zc);
    if a && b && c {
        return None;
    }
    if a && !b && !c && (near(t.p0.z, zmin) || near(t.p0.z, zmax)) {
        return None;
    }
    if !a && b && !c && (near(t.p1.z, zmin) || near(t.p1.z, zmax)) {
        return None;
    }
    if !a && !b && c && (near(t.p2.z, zmin) || near(t.p2.z, zmax)) {
        return None;
    }
    if a && b && !c {
        return quantized_pair(t.p0.x, t.p0.y, t.p1.x, t.p1.y);
    }
    if !a && b && c {
        return quantized_pair(t.p1.x, t.p1.y, t.p2.x, t.p2.y);
    }
    if a && !b && c {
        return quantized_pair(t.p2.x, t.p2.y, t.p0.x, t.p0.y);
    }
    // Generic case: cut all three edges.  At most one vertex is on the
    // plane here, so no edge lies level with the plane.
    let ab = intersect(&t.p0, &t.p1, zc);
    let bc = intersect(&t.p1, &t.p2, zc);
    let ca = intersect(&t.p2, &t.p0, zc);
    let mut count: u32 = 0;
    if ab.is_some() {
        count = count + 1;
    }
    if bc.is_some() {
        count = count + 1;
    }
    if ca.is_some() {
        count = count + 1;
    }
    if count != 2 {
        return None;
    }
    let (first, second) = if let Some(abv) = ab {
        (abv, if let Some(bcv) = bc {
            bcv
        } else {
            ca.unwrap()
        })
    } else {
        (bc.unwrap(), ca.unwrap())
    };
    let nx: i128 = cross_z(t.p1.y - t.p0.y, t.p1.z - t.p0.z, t.p2.y - t.p0.y, t.p2.z - t.p0.z);
    let ny: i128 = cross_z(t.p1.z - t.p0.z, t.p1.x - t.p0.x, t.p2.z - t.p0.z, t.p2.x - t.p0.x);
    proof {
        assert(-32_000_000_000_000_000_000int <= nx as int <= 32_000_000_000_000_000_000int
            && -32_000_000_000_000_000_000int <= ny as int <= 32_000_000_000_000_000_000int)
            by (nonlinear_arith)
            requires
                nx as int == spec_cross(
                    t.p1.y as int - t.p0.y as int,
                    t.p1.z as int - t.p0.z as int,
                    t.p2.y as int - t.p0.y as int,
                    t.p2.z as int - t.p0.z as int,
                ),
                ny as int == spec_cross(
                    t.p1.z as int - t.p0.z as int,
                    t.p1.x as int - t.p0.x as int,
                    t.p2.z as int - t.p0.z as int,
                    t.p2.x as int - t.p0.x as int,
                ),
                triangle_ok(*t),
        {}
    }
    let fx: i128 = second.x as i128 - first.x as i128;
    let fy: i128 = second.y as i128 - first.y as i128;
    proof {
        assert(fx as int * (-(ny as int)) <= 0x1000_0000_0000_0000_0000_0000_0000_0000int / 4
            && fx as int * (-(ny as int)) >= -(0x1000_0000_0000_0000_0000_0000_0000_0000int / 4)
            && fy as int * (nx as int) <= 0x1000_0000_0000_0000_0000_0000_0000_0000int / 4
            && fy as int * (nx as int) >= -(0x1000_0000_0000_0000_0000_0000_0000_0000int / 4))
            by (nonlinear_arith)
            requires
                -32_000_000_000_000_000_000int <= nx as int <= 32_000_000_000_000_000_000int,
                -32_000_000_000_000_000_000int <= ny as int <= 32_000_000_000_000_000_000int,
                -1_000_000_000_000 <= fx as int <= 1_000_000_000_000,
                -1_000_000_000_000 <= fy as int <= 1_000_000_000_000,
        {}
    }
    let along: i128 = fx * (-ny) + fy * nx;
    if along > 0 {
        quantized_pair(first.x, first.y, second.x, second.y)
    } else {
        quantized_pair(second.x, second.y, first.x, first.y)
    }
}

/// Whether the plane with index `k` (at height `k * h`) touches the height
/// interval `[zmin, zmax]`.
pub open spec fn plane_in_range(k: int, zmin: int, zmax: int, h: int) -> bool {
    0 <= k && zmin <= k * h && k * h <= zmax
}

/// The lowest and the highest vertex height of a triangle.
pub fn compute_min_max(t: &Triangle) -> (r: (i64, i64))
    ensures
        r.0 as int == tri_zmin(*t),
        r.1 as int == tri_zmax(*t),
{
    let lo01 = if t.p0.z <= t.p1.z {
        t.p0.z
    } else {
        t.p1.z
    };
    let zmin = if lo01 <= t.p2.z {
        lo01
    } else {
        t.p2.z
    };
    let hi01 = if t.p0.z >= t.p1.z {
        t.p0.z
    } else {
        t.p1.z
    };
    let zmax = if hi01 >= t.p2.z {
        hi01
    } else {
        t.p2.z
    };
    (zmin, zmax)
}

/// The inclusive range of plane indices whose planes touch `[zmin, zmax]`,
/// or `None` when no plane with index `k >= 0` has `zmin <= k * h <= zmax`.
pub open spec fn spec_layer_range(zmin: int, zmax: int, h: int) -> Option<(int, int)>
    recommends
        h >= 1,
{
    if zmax < 0 {
        None
    } else {
        let hi = zmax / h;
        let lo = if zmin <= 0 {
            0int
        } else {
            (zmin + h - 1) / h
        };
        if lo <= hi {
            Some((lo, hi))
        } else {
            None
        }
    }
}

/// `spec_layer_range` returns exactly the plane indices whose height falls
/// inside `[zmin, zmax]`.
pub proof fn lemma_layer_range_char(zmin: int, zmax: int, h: int)
    requires
        h >= 1,
        zmin <= zmax,
    ensures
        match spec_layer_range(zmin, zmax, h) {
            Some(lohi) => 0 <= lohi.0 <= lohi.1 && lohi.1 <= zmax && forall|k: int|
                plane_in_range(k, zmin, zmax, h) <==> (lohi.0 <= k <= lohi.1),
            None => forall|k: int| !plane_in_range(k, zmin, zmax, h),
        },
{
    if zmax < 0 {
        assert forall|k: int| !plane_in_range(k, zmin, zmax, h) by {
            if 0 <= k {
                vstd::arithmetic::mul::lemma_mul_nonnegative(k, h);
            }
        }
    } else {
        let hi = zmax / h;
        let lo = if zmin <= 0 {
            0int
        } else {
            (zmin + h - 1) / h
        };
        vstd::arithmetic::div_mod::lemma_fundamental_div_mod(zmax, h);
        vstd::arithmetic::div_mod::lemma_mod_bound(zmax, h);
        vstd::arithmetic::div_mod::lemma_div_nonincreasing(zmax, h);
        vstd::arithmetic::div_mod::lemma_div_pos_is_pos(zmax, h);
        assert(h * (hi + 1) == h * hi + h) by (nonlinear_arith);
        if zmin > 0 {
            vstd::arithmetic::div_mod::lemma_fundamental_div_mod(zmin + h - 1, h);
            vstd::arithmetic::div_mod::lemma_mod_bound(zmin + h - 1, h);
            vstd::arithmetic::div_mod::lemma_div_pos_is_pos(zmin + h - 1, h);
            assert(h * (lo - 1) == h * lo - h) by (nonlinear_arith);
        }
        // characterizations: h * hi <= zmax < h * (hi + 1) and, when
        // zmin > 0, h * (lo - 1) < zmin <= h * lo
        if lo <= hi {
            assert forall|k: int| plane_in_range(k, zmin, zmax, h) <==> (lo <= k <= hi) by {
                lemma_plane_range_char(k, zmin, zmax, h, lo, hi);
            }
        } else {
            assert forall|k: int| !plane_in_range(k, zmin, zmax, h) by {
                lemma_plane_range_char(k, zmin, zmax, h, lo, hi);
            }
        }
    }
}

/// Computes `spec_layer_range` on machine integers.
pub fn compute_constant_layer_range(zmin: i64, zmax: i64, config: &SlicerConfig) -> (r: Option<
    (usize, usize),
>)
    requires
        1 <= config.layer_height,
        -COORD_LIMIT <= zmin,
        zmin <= zmax,
        zmax <= COORD_LIMIT,
    ensures
        match r {
            Some(lohi) => spec_layer_range(zmin as int, zmax as int, config.layer_height as int)
                == Some((lohi.0 as int, lohi.1 as int)) && lohi.0 <= lohi.1 && lohi.1
                <= COORD_LIMIT && forall|k: int|
                plane_in_range(k, zmin as int, zmax as int, config.layer_height as int) <==> (
                lohi.0 as int <= k <= lohi.1 as int),
            None => spec_layer_range(zmin as int, zmax as int, config.layer_height as int) is None
                && forall|k: int|
                !plane_in_range(k, zmin as int, zmax as int, config.layer_height as int),
        },
{
    let h = config.layer_height;
    proof {
        lemma_layer_range_char(zmin as int, zmax as int, h as int);
    }
    if zmax < 0 {
        return None;
    }
    let hi: u64 = (zmax as u64) / (h as u64);
    proof {
        vstd::arithmetic::div_mod::lemma_div_nonincreasing(zmax as int, h as int);
        vstd::arithmetic::div_mod::lemma_div_pos_is_pos(zmax as int, h as int);
    }
    let lo: u64 = if zmin <= 0 {
        0
    } else {
        let l = ((zmin as u64) + (h as u64) - 1) / (h as u64);
        proof {
            vstd::arithmetic::div_mod::lemma_div_nonincreasing(zmin as int + h as int - 1, h as int);
            vstd::arithmetic::div_mod::lemma_div_pos_is_pos(zmin as int + h as int - 1, h as int);
        }
        l
    };
    if lo <= hi {
        Some((lo as usize, hi as usize))
    } else {
        None
    }
}

/// Extends a stack of layer maps with empty layers up to length `n`.
pub open spec fn spec_pad(maps: Seq<Seq<(Vector2, Vector2)>>, n: int) -> Seq<
    Seq<(Vector2, Vector2)>,
> {
    if maps.len() >= n {
        maps
    } else {
        maps + Seq::new((n - maps.len()) as nat, |i: int| Seq::<(Vector2, Vector2)>::empty())
    }
}

/// Stores one segment in the map of `layer`, growing the stack as needed.
pub open spec fn spec_insert_at(
    maps: Seq<Seq<(Vector2, Vector2)>>,
    layer: int,
    s: Vector2,
    e: Vector2,
) -> Seq<Seq<(Vector2, Vector2)>>
    recommends
        0 <= layer,
{
    let padded = spec_pad(maps, layer + 1);
    padded.update(layer, crate::segment_map::spec_upsert(padded[layer], s, e))
}

/// Emits one triangle into every plane from `k` through `hi`.
pub open spec fn spec_apply_layers(
    maps: Seq<Seq<(Vector2, Vector2)>>,
    t: Triangle,
    h: int,
    k: int,
    hi: int,
) -> Seq<Seq<(Vector2, Vector2)>>
    decreases hi + 1 - k,
{
    if k > hi || k < 0 {
        maps
    } else {
        let m1 = match spec_layer_segment(t, k * h) {
            Some(s) => spec_insert_at(maps, k, s.0, s.1),
            None => maps,
        };
        spec_apply_layers(m1, t, h, k + 1, hi)
    }
}

/// Emits one triangle into every plane its height extent touches.
pub open spec fn spec_apply_triangle(
    maps: Seq<Seq<(Vector2, Vector2)>>,
    t: Triangle,
    h: int,
) -> Seq<Seq<(Vector2, Vector2)>> {
    match spec_layer_range(tri_zmin(t), tri_zmax(t), h) {
        None => maps,
        Some(lohi) => spec_apply_layers(maps, t, h, lohi.0, lohi.1),
    }
}

/// The per-layer segment maps after emitting every triangle in order.
pub open spec fn spec_slice_maps(ts: Seq<Triangle>, h: int) -> Seq<Seq<(Vector2, Vector2)>>
    decreases ts.len(),
{
    if ts.len() == 0 {
        Seq::empty()
    } else {
        spec_apply_triangle(spec_slice_maps(ts.drop_last(), h), ts.last(), h)
    }
}

/// The highest vertex height of a mesh (of a nonempty triangle list).
pub open spec fn spec_mesh_zmax(ts: Seq<Triangle>) -> int
    recommends
        ts.len() > 0,
    decreases ts.len(),
{
    if ts.len() <= 1 {
        tri_zmax(ts[0])
    } else {
        vstd::math::max(spec_mesh_zmax(ts.drop_last()), tri_zmax(ts.last()))
    }
}

/// How many layers a sliced mesh has: one per plane from `z = 0` up to the
/// mesh's top, and none for an empty mesh or one entirely below `z = 0`.
pub open spec fn spec_total_layers(ts: Seq<Triangle>, h: int) -> int
    recommends
        h >= 1,
{
    if ts.len() == 0 || spec_mesh_zmax(ts) < 0 {
        0
    } else {
        spec_mesh_zmax(ts) / h + 1
    }
}

/// The mathematical value of a sliced mesh.
pub struct SlicedMeshView {
    pub contours: Seq<crate::contour::ContourView>,
    pub limits_x: (int, int),
    pub limits_y: (int, int),
}

/// What slicing a mesh yields: one assembled contour per plane from `z = 0`
/// up to the mesh's top, and the bounding box of all retained vertices.
pub open spec fn spec_slice(ts: Seq<Triangle>, h: int) -> SlicedMeshView {
    let maps = spec_pad(spec_slice_maps(ts, h), spec_total_layers(ts, h));
    let contours = maps.map_values(
        |es: Seq<(Vector2, Vector2)>| crate::contour::spec_contour(es),
    );
    SlicedMeshView {
        contours,
        limits_x: crate::contour::pts_bounds(crate::contour::contours_points(contours)).0,
        limits_y: crate::contour::pts_bounds(crate::contour::contours_points(contours)).1,
    }
}

/// For `lo`, `hi` satisfying the ceiling and floor characterizations, a plane
/// index is in `[zmin, zmax]` exactly when it is in `[lo, hi]`.
proof fn lemma_plane_range_char(k: int, zmin: int, zmax: int, h: int, lo: int, hi: int)
    requires
        h >= 1,
        zmin <= zmax,
        0 <= zmax,
        h * hi <= zmax,
        zmax < h * (hi + 1),
        lo >= 0,
        zmin <= 0 ==> lo == 0,
        zmin > 0 ==> h * (lo - 1) < zmin <= h * lo,
    ensures
        plane_in_range(k, zmin, zmax, h) <==> (lo <= k <= hi),
{
    if plane_in_range(k, zmin, zmax, h) {
        // k <= hi: otherwise k >= hi + 1 and k * h >= (hi + 1) * h > zmax
        if k > hi {
            vstd::arithmetic::mul::lemma_mul_inequality(hi + 1, k, h);
            assert(k * h >= (hi + 1) * h);
            assert((hi + 1) * h == h * (hi + 1)) by (nonlinear_arith);
            assert(false);
        }
        // lo <= k: otherwise k <= lo - 1 and k * h <= (lo - 1) * h < zmin
        if k < lo {
            assert(zmin > 0);
            vstd::arithmetic::mul::lemma_mul_inequality(k, lo - 1, h);
            assert(k * h <= (lo - 1) * h);
            assert((lo - 1) * h == h * (lo - 1)) by (nonlinear_arith);
            assert(false);
        }
    }
    if lo <= k <= hi {
        vstd::arithmetic::mul::lemma_mul_inequality(k, hi, h);
        assert(k * h <= hi * h);
        assert(hi * h == h * hi) by (nonlinear_arith);
        if zmin <= 0 {
            vstd::arithmetic::mul::lemma_mul_nonnegative(k, h);
        } else {
            vstd::arithmetic::mul::lemma_mul_inequality(lo, k, h);
            assert(lo * h <= k * h);
            assert(lo * h == h * lo) by (nonlinear_arith);
        }
        assert(plane_in_range(k, zmin, zmax, h));
    }
}

/// Every layer map is well formed: unique keys, no self-loops, and points
/// within `POINT_LIMIT`.
pub open spec fn maps_ok(maps: Seq<Seq<(Vector2, Vector2)>>) -> bool {
    forall|i: int|
        0 <= i < maps.len() ==> crate::segment_map::unique_keys(#[trigger] maps[i])
            && crate::segment_map::no_self_loops(maps[i]) && crate::contour::entries_ok(maps[i])
}

/// A quantized coordinate moves by less than one grid step and stays within
/// the point bound.
pub proof fn lemma_quantize_ok(x: int)
    requires
        -INTERSECT_LIMIT <= x <= INTERSECT_LIMIT,
    ensures
        -(crate::geometry::POINT_LIMIT as int) <= spec_quantize(x) <= crate::geometry::POINT_LIMIT as int,
        x - GRID <= spec_quantize(x) <= x + GRID,
{
    crate::geometry::lemma_round_div_close(x, GRID as int);
}

/// A quantized segment has in-limit, distinct endpoints.
proof fn lemma_quantized_pair_ok(ax: int, ay: int, bx: int, by: int)
    requires
        -INTERSECT_LIMIT <= ax <= INTERSECT_LIMIT,
        -INTERSECT_LIMIT <= ay <= INTERSECT_LIMIT,
        -INTERSECT_LIMIT <= bx <= INTERSECT_LIMIT,
        -INTERSECT_LIMIT <= by <= INTERSECT_LIMIT,
    ensures
        spec_quantized_pair(ax, ay, bx, by) matches Some(s) ==> point_ok(s.0) && point_ok(s.1)
            && s.0 != s.1,
{
    lemma_quantize_ok(ax);
    lemma_quantize_ok(ay);
    lemma_quantize_ok(bx);
    lemma_quantize_ok(by);
}

/// Whatever `spec_layer_segment` emits has in-limit, distinct endpoints.
pub proof fn lemma_layer_segment_ok(t: Triangle, zc: int)
    requires
        triangle_ok(t),
        coord_ok(zc),
    ensures
        spec_layer_segment(t, zc) matches Some(s) ==> point_ok(s.0) && point_ok(s.1) && s.0
            != s.1,
{
    let a = spec_near(t.p0.z as int, zc);
    let b = spec_near(t.p1.z as int, zc);
    let c = spec_near(t.p2.z as int, zc);
    if a && b && !c {
        lemma_quantized_pair_ok(t.p0.x as int, t.p0.y as int, t.p1.x as int, t.p1.y as int);
    } else if !a && b && c {
        lemma_quantized_pair_ok(t.p1.x as int, t.p1.y as int, t.p2.x as int, t.p2.y as int);
    } else if a && !b && c {
        lemma_quantized_pair_ok(t.p2.x as int, t.p2.y as int, t.p0.x as int, t.p0.y as int);
    } else if !(a && b && c) {
        lemma_edge_interp_ok(t.p0, t.p1, a, b, zc);
        lemma_edge_interp_ok(t.p1, t.p2, b, c, zc);
        lemma_edge_interp_ok(t.p2, t.p0, c, a, zc);
        let ab = spec_intersect(t.p0, t.p1, zc);
        let bc = spec_intersect(t.p1, t.p2, zc);
        let ca = spec_intersect(t.p2, t.p0, zc);
        if spec_intersection_count(t, zc) == 2 {
            let first = if ab is Some {
                ab->0
            } else {
                bc->0
            };
            let second = if ab is Some {
                if bc is Some {
                    bc->0
                } else {
                    ca->0
                }
            } else {
                ca->0
            };
            lemma_quantized_pair_ok(first.0, first.1, second.0, second.1);
            lemma_quantized_pair_ok(second.0, second.1, first.0, first.1);
        }
    }
}

/// In the generic branch a crossing edge never lies level with the plane, so
/// its interpolated crossing is within `INTERSECT_LIMIT`.
pub proof fn lemma_edge_interp_ok(p0: Vector3, p1: Vector3, e0: bool, e1: bool, zc: int)
    requires
        vertex_ok(p0),
        vertex_ok(p1),
        coord_ok(zc),
        e0 == spec_near(p0.z as int, zc),
        e1 == spec_near(p1.z as int, zc),
        !(e0 && e1),
    ensures
        spec_intersect(p0, p1, zc) matches Some(q) ==> -INTERSECT_LIMIT <= q.0
            <= INTERSECT_LIMIT && -INTERSECT_LIMIT <= q.1 <= INTERSECT_LIMIT,
{
    if spec_intersect(p0, p1, zc) is Some {
        if p0.z == p1.z {
            assert(!e0 && !e1);
            assert(spec_same_side(p0.z as int - zc, p1.z as int - zc));
            assert(false);
        }
        lemma_interp_bound(p0.x as int, p1.x as int, p0.z as int, p1.z as int, zc);
        lemma_interp_bound(p0.y as int, p1.y as int, p0.z as int, p1.z as int, zc);
    }
}

/// Inserting a proper, in-limit segment keeps a stack of layer maps well
/// formed.
proof fn lemma_insert_at_ok(maps: Seq<Seq<(Vector2, Vector2)>>, layer: int, s: Vector2, e: Vector2)
    requires
        maps_ok(maps),
        0 <= layer,
        point_ok(s),
        point_ok(e),
        s != e,
    ensures
        maps_ok(spec_insert_at(maps, layer, s, e)),
{
    let padded = spec_pad(maps, layer + 1);
    lemma_pad_ok(maps, layer + 1);
    crate::segment_map::lemma_upsert_unique(padded[layer], s, e);
    crate::segment_map::lemma_upsert_no_self_loops(padded[layer], s, e);
    let up = crate::segment_map::spec_upsert(padded[layer], s, e);
    crate::segment_map::lemma_key_index(padded[layer], s);
    assert(crate::contour::entries_ok(up));
    let r = spec_insert_at(maps, layer, s, e);
    assert forall|i: int|
        0 <= i < r.len() implies crate::segment_map::unique_keys(#[trigger] r[i])
        && crate::segment_map::no_self_loops(r[i]) && crate::contour::entries_ok(r[i]) by {
        if i != layer {
            assert(r[i] == padded[i]);
        }
    }
}

/// Padding with empty layers keeps a stack of layer maps well formed.
proof fn lemma_pad_ok(maps: Seq<Seq<(Vector2, Vector2)>>, n: int)
    requires
        maps_ok(maps),
    ensures
        maps_ok(spec_pad(maps, n)),
{
    let r = spec_pad(maps, n);
    assert forall|i: int|
        0 <= i < r.len() implies crate::segment_map::unique_keys(#[trigger] r[i])
        && crate::segment_map::no_self_loops(r[i]) && crate::contour::entries_ok(r[i]) by {
        if i < maps.len() {
            assert(r[i] == maps[i]);
        } else {
            assert(r[i] =~= Seq::<(Vector2, Vector2)>::empty());
        }
    }
}

/// Emitting one triangle into a range of in-bound planes keeps the stack
/// well formed.
proof fn lemma_apply_layers_ok(
    maps: Seq<Seq<(Vector2, Vector2)>>,
    t: Triangle,
    h: int,
    k: int,
    hi: int,
)
    requires
        maps_ok(maps),
        triangle_ok(t),
        h >= 1,
        forall|j: int| k <= j <= hi ==> -COORD_LIMIT <= #[trigger] (j * h) <= COORD_LIMIT,
    ensures
        maps_ok(spec_apply_layers(maps, t, h, k, hi)),
    decreases hi + 1 - k,
{
    if k > hi || k < 0 {
    } else {
        let zc = k * h;
        lemma_layer_segment_ok(t, zc);
        let m1 = match spec_layer_segment(t, zc) {
            Some(s) => spec_insert_at(maps, k, s.0, s.1),
            None => maps,
        };
        match spec_layer_segment(t, zc) {
            Some(s) => {
                lemma_insert_at_ok(maps, k, s.0, s.1);
            },
            None => {},
        }
        lemma_apply_layers_ok(m1, t, h, k + 1, hi);
    }
}

/// Emitting one in-bound triangle keeps the stack well formed.
proof fn lemma_apply_triangle_ok(maps: Seq<Seq<(Vector2, Vector2)>>, t: Triangle, h: int)
    requires
        maps_ok(maps),
        triangle_ok(t),
        h >= 1,
    ensures
        maps_ok(spec_apply_triangle(maps, t, h)),
{
    let zmin = tri_zmin(t);
    let zmax = tri_zmax(t);
    lemma_layer_range_char(zmin, zmax, h);
    match spec_layer_range(zmin, zmax, h) {
        None => {},
        Some(lohi) => {
            assert forall|j: int| lohi.0 <= j <= lohi.1 implies -COORD_LIMIT <= #[trigger] (j * h)
                <= COORD_LIMIT by {
                assert(plane_in_range(j, zmin, zmax, h));
            }
            lemma_apply_layers_ok(maps, t, h, lohi.0, lohi.1);
        },
    }
}

/// The maps the slicing model builds are well formed: keys are unique, no
/// segment is degenerate, and every point is within `POINT_LIMIT`.
pub proof fn lemma_slice_maps_ok(ts: Seq<Triangle>, h: int)
    requires
        forall|i: int| 0 <= i < ts.len() ==> triangle_ok(#[trigger] ts[i]),
        h >= 1,
    ensures
        maps_ok(spec_slice_maps(ts, h)),
        maps_ok(spec_pad(spec_slice_maps(ts, h), spec_total_layers(ts, h))),
    decreases ts.len(),
{
    if ts.len() == 0 {
        assert(maps_ok(Seq::<Seq<(Vector2, Vector2)>>::empty()));
    } else {
        lemma_slice_maps_ok(ts.drop_last(), h);
        lemma_apply_triangle_ok(spec_slice_maps(ts.drop_last(), h), ts.last(), h);
    }
    lemma_pad_ok(spec_slice_maps(ts, h), spec_total_layers(ts, h));
}

/// Inserting at a layer grows the stack exactly to cover that layer.
proof fn lemma_insert_at_len(maps: Seq<Seq<(Vector2, Vector2)>>, layer: int, s: Vector2, e: Vector2)
    requires
        0 <= layer,
    ensures
        spec_insert_at(maps, layer, s, e).len() == vstd::math::max(maps.len() as int, layer + 1),
{
}

/// Emitting a triangle grows the stack at most to cover its highest plane.
proof fn lemma_apply_layers_len(
    maps: Seq<Seq<(Vector2, Vector2)>>,
    t: Triangle,
    h: int,
    k: int,
    hi: int,
)
    ensures
        maps.len() <= spec_apply_layers(maps, t, h, k, hi).len() <= vstd::math::max(
            maps.len() as int,
            hi + 1,
        ),
    decreases hi + 1 - k,
{
    if k > hi || k < 0 {
    } else {
        let m1 = match spec_layer_segment(t, k * h) {
            Some(s) => spec_insert_at(maps, k, s.0, s.1),
            None => maps,
        };
        match spec_layer_segment(t, k * h) {
            Some(s) => {
                lemma_insert_at_len(maps, k, s.0, s.1);
            },
            None => {},
        }
        lemma_apply_layers_len(m1, t, h, k + 1, hi);
    }
}

/// No triangle reaches above the mesh's top.
proof fn lemma_tri_zmax_le(ts: Seq<Triangle>, i: int)
    requires
        0 <= i < ts.len(),
    ensures
        tri_zmax(ts[i]) <= spec_mesh_zmax(ts),
    decreases ts.len(),
{
    if ts.len() > 1 && i < ts.len() - 1 {
        lemma_tri_zmax_le(ts.drop_last(), i);
    }
}

/// The top of a shorter prefix of the mesh is no higher.
proof fn lemma_mesh_zmax_mono(ts: Seq<Triangle>)
    requires
        ts.len() > 1,
    ensures
        spec_mesh_zmax(ts.drop_last()) <= spec_mesh_zmax(ts),
{
}

/// The model never builds more layers than the mesh's top calls for.
pub proof fn lemma_slice_maps_len(ts: Seq<Triangle>, h: int)
    requires
        h >= 1,
    ensures
        spec_slice_maps(ts, h).len() <= spec_total_layers(ts, h),
    decreases ts.len(),
{
    if ts.len() == 0 {
    } else {
        lemma_slice_maps_len(ts.drop_last(), h);
        let prev = spec_slice_maps(ts.drop_last(), h);
        let t = ts.last();
        let zmin = tri_zmin(t);
        let zmax = tri_zmax(t);
        // the total layer count is monotone in the mesh
        if ts.len() > 1 {
            lemma_mesh_zmax_mono(ts);
            if spec_mesh_zmax(ts.drop_last()) >= 0 {
                vstd::arithmetic::div_mod::lemma_div_is_ordered(
                    spec_mesh_zmax(ts.drop_last()),
                    spec_mesh_zmax(ts),
                    h,
                );
            }
        }
        assert(spec_total_layers(ts.drop_last(), h) <= spec_total_layers(ts, h));
        match spec_layer_range(zmin, zmax, h) {
            None => {},
            Some(lohi) => {
                lemma_apply_layers_len(prev, t, h, lohi.0, lohi.1);
                // the range's top plane is below the mesh's top
                assert(zmax >= 0);
                lemma_tri_zmax_le(ts, ts.len() - 1);
                vstd::arithmetic::div_mod::lemma_div_is_ordered(zmax, spec_mesh_zmax(ts), h);
            },
        }
    }
}

/// A sliced mesh has exactly one contour per plane from `z = 0` up to the
/// mesh's top: `floor(zmax / h) + 1` of them, and none when the mesh is
/// empty or entirely below `z = 0`.
pub proof fn lemma_slice_layer_count(ts: Seq<Triangle>, h: int)
    requires
        h >= 1,
    ensures
        spec_slice(ts, h).contours.len() == spec_total_layers(ts, h),
{
    lemma_slice_maps_len(ts, h);
}

/// The per-layer maps of a vector of segment maps.
pub open spec fn seg_maps_view(maps: Seq<SegmentMap>) -> Seq<Seq<(Vector2, Vector2)>> {
    maps.map_values(|m: SegmentMap| m@)
}

/// Appending one empty layer extends the padding by one.
proof fn lemma_pad_push(before: Seq<Seq<(Vector2, Vector2)>>, cur: Seq<Seq<(Vector2, Vector2)>>, n: int)
    requires
        before.len() <= n,
        cur == spec_pad(before, n),
    ensures
        cur.push(Seq::<(Vector2, Vector2)>::empty()) == spec_pad(before, n + 1),
{
    let nxt = spec_pad(before, n + 1);
    assert forall|j: int| 0 <= j < n + 1 implies cur.push(Seq::<(Vector2, Vector2)>::empty())[j]
        == nxt[j] by {
        if j < before.len() {
            assert(cur[j] == before[j]);
            assert(nxt[j] == before[j]);
        } else if j < n {
            assert(cur[j] =~= Seq::<(Vector2, Vector2)>::empty());
            assert(nxt[j] =~= Seq::<(Vector2, Vector2)>::empty());
        } else {
            assert(nxt[j] =~= Seq::<(Vector2, Vector2)>::empty());
        }
    }
    assert(cur.push(Seq::<(Vector2, Vector2)>::empty()) =~= nxt);
}

/// The stack of per-layer contours a slicing run produces, with the union
/// bounding box of all retained vertices.
#[derive(Debug, PartialEq)]
pub struct SlicedMesh {
    contours: Vec<Contour>,
    limits_x: (i64, i64),
    limits_y: (i64, i64),
}

impl View for SlicedMesh {
    type V = SlicedMeshView;

    closed spec fn view(&self) -> SlicedMeshView {
        SlicedMeshView {
            contours: self.contours@.map_values(|c: Contour| c@),
            limits_x: (self.limits_x.0 as int, self.limits_x.1 as int),
            limits_y: (self.limits_y.0 as int, self.limits_y.1 as int),
        }
    }
}

impl SlicedMesh {
    /// An empty sliced mesh.
    pub fn new() -> (sm: SlicedMesh)
        ensures
            sm@.contours == Seq::<crate::contour::ContourView>::empty(),
            sm@.limits_x == (0int, 0int),
            sm@.limits_y == (0int, 0int),
    {
        let sm = SlicedMesh { contours: Vec::new(), limits_x: (0, 0), limits_y: (0, 0) };
        proof {
            assert(sm@.contours =~= Seq::<crate::contour::ContourView>::empty());
        }
        sm
    }

    /// The contour of each layer, in plane order.
    pub fn contours(&self) -> (r: &Vec<Contour>)
        ensures
            r@.map_values(|c: Contour| c@) == self@.contours,
    {
        &self.contours
    }

    /// Lowest and highest x over all layers' retained vertices.
    pub fn limits_x(&self) -> (r: (i64, i64))
        ensures
            (r.0 as int, r.1 as int) == self@.limits_x,
    {
        self.limits_x
    }

    /// Lowest and highest y over all layers' retained vertices.
    pub fn limits_y(&self) -> (r: (i64, i64))
        ensures
            (r.0 as int, r.1 as int) == self@.limits_y,
    {
        self.limits_y
    }
}

impl Default for SlicedMesh {
    fn default() -> (sm: SlicedMesh)
        ensures
            sm@.contours == Seq::<crate::contour::ContourView>::empty(),
            sm@.limits_x == (0int, 0int),
            sm@.limits_y == (0int, 0int),
    {
        SlicedMesh::new()
    }
}

/// Slices a mesh into per-layer contours, as `spec_slice` states: for each
/// triangle and each cutting plane that touches its height extent, emit the
/// oriented intersection segment, then stitch each layer's segments into
/// closed paths.  A nonpositive layer height is rejected up front.
///
/// Boundary planes are included: a solid resting on the plane `z = 0`
/// contributes its resting edges to layer 0, so a mesh spanning heights
/// `0` through `z` fills every layer from `0` through `floor(z / h)`.
pub fn slice_mesh(triangles: &Vec<Triangle>, config: &SlicerConfig) -> (r: Result<
    SlicedMesh,
    SlicerError,
>)
    requires
        forall|i: int| 0 <= i < triangles@.len() ==> triangle_ok(#[trigger] triangles@[i]),
    ensures
        r is Ok <==> config.layer_height >= 1,
        config.layer_height < 1 ==> r == Err::<SlicedMesh, SlicerError>(SlicerError::InvalidConfig),
        r matches Ok(sm) ==> sm@ == spec_slice(triangles@, config.layer_height as int),
{
    if config.layer_height < 1 {
        return Err(SlicerError::InvalidConfig);
    }
    let h = config.layer_height;
    let ghost ts = triangles@;
    let mut maps: Vec<SegmentMap> = Vec::new();
    let mut zmax_mesh: i64 = 0;
    let mut ti: usize = 0;
    proof {
        assert(ts.take(0) =~= Seq::<Triangle>::empty());
        assert(seg_maps_view(maps@) =~= spec_slice_maps(ts.take(0), h as int));
    }
    while ti < triangles.len()
        invariant
            forall|i: int| 0 <= i < ts.len() ==> triangle_ok(#[trigger] ts[i]),
            ts == triangles@,
            h == config.layer_height,
            1 <= h,
            0 <= ti <= ts.len(),
            seg_maps_view(maps@) == spec_slice_maps(ts.take(ti as int), h as int),
            ti > 0 ==> zmax_mesh as int == spec_mesh_zmax(ts.take(ti as int)),
            ti == 0 ==> zmax_mesh == 0,
            -COORD_LIMIT <= zmax_mesh <= COORD_LIMIT,
        decreases ts.len() - ti,
    {
        let t = triangles[ti];
        let (zmin, zmax) = compute_min_max(&t);
        if ti == 0 || zmax > zmax_mesh {
            zmax_mesh = zmax;
        }
        let ghost base = seg_maps_view(maps@);
        let range = compute_constant_layer_range(zmin, zmax, config);
        match range {
            None => {},
            Some((lo, hi)) => {
                let mut k: usize = lo;
                while k <= hi
                    invariant
                        triangle_ok(t),
                        h == config.layer_height,
                        1 <= h,
                        zmin as int == tri_zmin(t),
                        zmax as int == tri_zmax(t),
                        lo <= k <= hi + 1,
                        hi <= COORD_LIMIT,
                        spec_layer_range(zmin as int, zmax as int, h as int) == Some(
                            (lo as int, hi as int),
                        ),
                        forall|j: int|
                            plane_in_range(j, zmin as int, zmax as int, h as int) <==> (lo as int
                                <= j <= hi as int),
                        spec_apply_layers(seg_maps_view(maps@), t, h as int, k as int, hi as int)
                            == spec_apply_layers(base, t, h as int, lo as int, hi as int),
                    decreases hi + 1 - k,
                {
                    let ghost mv = seg_maps_view(maps@);
                    proof {
                        assert(plane_in_range(k as int, zmin as int, zmax as int, h as int));
                    }
                    let zc128: i128 = (k as i128) * (h as i128);
                    proof {
                        assert(zc128 == (k as int) * (h as int)
                            && -COORD_LIMIT <= (k as int) * (h as int) <= COORD_LIMIT);
                    }
                    let zc: i64 = zc128 as i64;
                    let seg = segment_for_layer(&t, zc, zmin, zmax);
                    match seg {
                        None => {},
                        Some(s) => {
                            let ghost before = seg_maps_view(maps@);
                            while maps.len() <= k
                                invariant
                                    before.len() <= maps@.len(),
                                    maps@.len() <= k + 1 || maps@.len() == before.len(),
                                    seg_maps_view(maps@) == spec_pad(before, maps@.len() as int),
                                decreases k + 1 - maps@.len(),
                            {
                                let ghost pv = seg_maps_view(maps@);
                                let ghost plen = maps@.len() as int;
                                maps.push(SegmentMap::new());
                                proof {
                                    assert(seg_maps_view(maps@) =~= pv.push(
                                        Seq::<(Vector2, Vector2)>::empty(),
                                    ));
                                    lemma_pad_push(before, pv, plen);
                                }
                            }
                            proof {
                                if before.len() > k {
                                    assert(spec_pad(before, k as int + 1) == before);
                                    assert(seg_maps_view(maps@) == spec_pad(before, k as int + 1));
                                } else {
                                    assert(maps@.len() == k + 1);
                                }
                            }
                            let mut m = maps.remove(k);
                            m.insert(s.0, s.1);
                            maps.insert(k, m);
                            proof {
                                assert(seg_maps_view(maps@) =~= spec_insert_at(
                                    before,
                                    k as int,
                                    s.0,
                                    s.1,
                                ));
                            }
                        },
                    }
                    proof {
                        let m1 = match spec_layer_segment(t, (k as int) * (h as int)) {
                            Some(sv) => spec_insert_at(mv, k as int, sv.0, sv.1),
                            None => mv,
                        };
                        assert(seg_maps_view(maps@) == m1);
                        assert(spec_apply_layers(mv, t, h as int, k as int, hi as int)
                            == spec_apply_layers(m1, t, h as int, k as int + 1, hi as int));
                    }
                    k = k + 1;
                }
                proof {
                    assert(spec_apply_layers(
                        seg_maps_view(maps@),
                        t,
                        h as int,
                        hi as int + 1,
                        hi as int,
                    ) == seg_maps_view(maps@));
                }
            },
        }
        proof {
            assert(ts.take(ti as int + 1).drop_last() =~= ts.take(ti as int));
            assert(ts.take(ti as int + 1).last() == ts[ti as int]);
            assert(seg_maps_view(maps@) == spec_apply_triangle(
                spec_slice_maps(ts.take(ti as int), h as int),
                ts[ti as int],
                h as int,
            ));
            if ti > 0 {
                assert(spec_mesh_zmax(ts.take(ti as int + 1)) == vstd::math::max(
                    spec_mesh_zmax(ts.take(ti as int)),
                    tri_zmax(ts[ti as int]),
                ));
            }
        }
        ti = ti + 1;
    }
    proof {
        assert(ts.take(ts.len() as int) =~= ts);
    }
    // grow the stack to one map per plane up to the mesh's top
    let total: usize = if triangles.len() == 0 || zmax_mesh < 0 {
        0
    } else {
        proof {
            vstd::arithmetic::div_mod::lemma_div_nonincreasing(zmax_mesh as int, h as int);
            vstd::arithmetic::div_mod::lemma_div_pos_is_pos(zmax_mesh as int, h as int);
        }
        ((zmax_mesh as u64) / (h as u64)) as usize + 1
    };
    proof {
        assert(total as int == spec_total_layers(ts, h as int));
        lemma_slice_maps_len(ts, h as int);
    }
    let ghost before_pad = seg_maps_view(maps@);
    while maps.len() < total
        invariant
            before_pad.len() <= maps@.len() <= total,
            seg_maps_view(maps@) == spec_pad(before_pad, maps@.len() as int),
        decreases total - maps@.len(),
    {
        let ghost pv = seg_maps_view(maps@);
        let ghost plen = maps@.len() as int;
        maps.push(SegmentMap::new());
        proof {
            assert(seg_maps_view(maps@) =~= pv.push(Seq::<(Vector2, Vector2)>::empty()));
            lemma_pad_push(before_pad, pv, plen);
        }
    }
    let ghost all_maps = spec_pad(spec_slice_maps(ts, h as int), spec_total_layers(ts, h as int));
    proof {
        if before_pad.len() >= total {
            assert(spec_pad(before_pad, total as int) == before_pad);
        }
        assert(seg_maps_view(maps@) == all_maps);
        lemma_slice_maps_ok(ts, h as int);
    }
    let ghost scv = all_maps.map_values(|es: Seq<(Vector2, Vector2)>| spec_contour(es));
    // assemble each layer's contour and fold the union bounding box
    let mut contours: Vec<Contour> = Vec::new();
    let mut min_x: i64 = 0;
    let mut max_x: i64 = 0;
    let mut min_y: i64 = 0;
    let mut max_y: i64 = 0;
    let mut any = false;
    proof {
        assert(scv.take(0) =~= Seq::<crate::contour::ContourView>::empty());
    }
    while maps.len() > 0
        invariant
            maps_ok(all_maps),
            scv == all_maps.map_values(|es: Seq<(Vector2, Vector2)>| spec_contour(es)),
            contours@.len() + maps@.len() == all_maps.len(),
            seg_maps_view(maps@) == all_maps.skip(contours@.len() as int),
            contours@.map_values(|c: Contour| c@) == scv.take(contours@.len() as int),
            any == (contours_points(scv.take(contours@.len() as int)).len() > 0),
            any ==> ((min_x as int, max_x as int), (min_y as int, max_y as int)) == pts_bounds(
                contours_points(scv.take(contours@.len() as int)),
            ),
            !any ==> (min_x, max_x, min_y, max_y) == (0i64, 0i64, 0i64, 0i64),
        decreases maps@.len(),
    {
        let ghost ci = contours@.len() as int;
        let ghost done = contours_points(scv.take(ci));
        let ghost pm = maps@;
        let m = maps.remove(0);
        proof {
            assert(all_maps.skip(ci)[0] == all_maps[ci]);
            assert(m@ == all_maps[ci]);
            assert(crate::contour::entries_ok(m@));
            assert forall|j: int| 0 <= j < maps@.len() implies seg_maps_view(maps@)[j]
                == all_maps.skip(ci + 1)[j] by {
                assert(maps@[j] == pm[j + 1]);
                assert(seg_maps_view(pm)[j + 1] == pm[j + 1]@);
                assert(seg_maps_view(pm)[j + 1] == all_maps.skip(ci)[j + 1]);
                assert(all_maps.skip(ci)[j + 1] == all_maps[ci + 1 + j]);
                assert(all_maps.skip(ci + 1)[j] == all_maps[ci + 1 + j]);
            }
            assert(seg_maps_view(maps@) =~= all_maps.skip(ci + 1));
        }
        let c = Contour::from_segment_map(m);
        proof {
            assert(c@ == spec_contour(all_maps[ci]));
            assert(c@ == scv[ci]);
            lemma_assemble_min_len(all_maps[ci], WalkState::Pick);
            assert forall|i: int| 0 <= i < c@.paths.len() implies (#[trigger] c@.paths[i]).len()
                >= 3 by {
                assert(c@.paths[i] == spec_assemble(all_maps[ci], WalkState::Pick)[i]);
            }
            lemma_paths_points_nonempty(c@.paths);
            lemma_pts_bounds_concat(done, paths_points(c@.paths));
            assert(scv.take(ci + 1).drop_last() =~= scv.take(ci));
            assert(scv.take(ci + 1).last() == scv[ci]);
            assert(contours_points(scv.take(ci + 1)) == done + paths_points(c@.paths));
        }
        let npaths = c.paths().len();
        let lx = c.limits_x();
        let ly = c.limits_y();
        if npaths > 0 {
            if !any {
                min_x = lx.0;
                max_x = lx.1;
                min_y = ly.0;
                max_y = ly.1;
                any = true;
            } else {
                if lx.0 < min_x {
                    min_x = lx.0;
                }
                if lx.1 > max_x {
                    max_x = lx.1;
                }
                if ly.0 < min_y {
                    min_y = ly.0;
                }
                if ly.1 > max_y {
                    max_y = ly.1;
                }
            }
        } else {
            proof {
                assert(paths_points(c@.paths).len() == 0);
                assert(done + paths_points(c@.paths) =~= done);
            }
        }
        contours.push(c);
        proof {
            assert(contours@.map_values(|cc: Contour| cc@) =~= scv.take(ci + 1));
        }
    }
    proof {
        assert(scv.take(all_maps.len() as int) =~= scv);
        assert(contours@.map_values(|c: Contour| c@) == scv);
    }
    Ok(SlicedMesh { contours, limits_x: (min_x, max_x), limits_y: (min_y, max_y) })
}

} // verus!
