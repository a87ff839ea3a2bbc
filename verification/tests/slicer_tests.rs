//! End-to-end tests of the slicing pipeline on hand-built meshes.

use mandoline::SlicedMesh;
use mandoline::SlicerConfig;
use mandoline::SlicerError;
use mandoline::Triangle;
use mandoline::Vector2;
use mandoline::Vector3;
use mandoline::compute_constant_layer_range;
use mandoline::compute_min_max;
use mandoline::intersect;
use mandoline::segment_for_layer;
use mandoline::slice_mesh;

/// Sub-units per model unit.
const U: i64 = 1_000_000;

fn v3(x: i64, y: i64, z: i64) -> Vector3 {
    Vector3 { x: x * U, y: y * U, z: z * U }
}

fn v2(x: i64, y: i64) -> Vector2 {
    Vector2 { x: x * U, y: y * U }
}

fn tri(p0: Vector3, p1: Vector3, p2: Vector3) -> Triangle {
    Triangle { p0, p1, p2 }
}

/// The axis-aligned cube with vertices at {0, 20}^3, 12 triangles, with the
/// counter-clockwise winding of the classic test model.
fn cube_triangles() -> Vec<Triangle> {
    let x0 = v3(0, 20, 20);
    let x1 = v3(20, 0, 20);
    let x2 = v3(20, 20, 20);
    let x3 = v3(0, 0, 20);
    let x4 = v3(0, 0, 0);
    let x5 = v3(20, 20, 0);
    let x6 = v3(20, 0, 0);
    let x7 = v3(0, 20, 0);
    vec![
        tri(x0, x1, x2),
        tri(x1, x0, x3),
        tri(x4, x5, x6),
        tri(x5, x4, x7),
        tri(x4, x1, x3),
        tri(x1, x4, x6),
        tri(x1, x5, x2),
        tri(x5, x1, x6),
        tri(x5, x0, x2),
        tri(x0, x5, x7),
        tri(x4, x0, x7),
        tri(x0, x4, x3),
    ]
}

/// Twice the signed area of a closed path (positive for counter-clockwise).
fn shoelace(points: &Vec<Vector2>) -> i128 {
    let n = points.len();
    let mut sum: i128 = 0;
    for i in 0..n {
        let p = points[i];
        let q = points[(i + 1) % n];
        sum += (p.x as i128) * (q.y as i128) - (q.x as i128) * (p.y as i128);
    }
    sum
}

fn point_set(points: &Vec<Vector2>) -> Vec<(i64, i64)> {
    let mut v: Vec<(i64, i64)> = points.iter().map(|p| (p.x, p.y)).collect();
    v.sort();
    v
}

#[test]
fn lib_intersect_no_intersection() {
    // A line below the cutting plane:
    assert_eq!(
        None,
        intersect(
            &Vector3 { x: 0, y: 0, z: 0 },
            &Vector3 { x: U, y: U, z: 0 },
            U / 10,
        )
    );
    // A line above the cutting plane:
    assert_eq!(
        None,
        intersect(
            &Vector3 { x: 0, y: 0, z: 11 * U / 10 },
            &Vector3 { x: U, y: U, z: 11 * U / 10 },
            U,
        )
    );
}

#[test]
fn slicer_intersect_no_intersection() {
    assert_eq!(
        None,
        intersect(
            &Vector3 { x: 0, y: 0, z: 0 },
            &Vector3 { x: U, y: U, z: 0 },
            U / 10,
        )
    );
    assert_eq!(
        None,
        intersect(
            &Vector3 { x: 0, y: 0, z: 11 * U / 10 },
            &Vector3 { x: U, y: U, z: 11 * U / 10 },
            U,
        )
    );
}

#[test]
fn lib_intersect_plane_with_line() {
    let intersection = intersect(
        &Vector3 { x: 0, y: 0, z: 0 },
        &Vector3 { x: 0, y: 0, z: U },
        U / 2,
    )
    .unwrap();
    assert_eq!(intersection.x, 0);
    assert_eq!(intersection.y, 0);
    assert_eq!(intersection.z, U / 2);
}

#[test]
fn slicer_intersect_plane_with_line() {
    let intersection = intersect(
        &Vector3 { x: 0, y: 0, z: 0 },
        &Vector3 { x: 0, y: 0, z: U },
        U / 2,
    )
    .unwrap();
    assert_eq!(intersection.x, 0);
    assert_eq!(intersection.y, 0);
    assert_eq!(intersection.z, U / 2);
}

#[test]
fn slice_cube() {
    let config = SlicerConfig { layer_height: U };
    slice_mesh(&cube_triangles(), &config).unwrap();
}

#[test]
fn slice_simple_cube() {
    let config = SlicerConfig { layer_height: U / 5 };
    slice_mesh(&cube_triangles(), &config).unwrap();
}

#[test]
fn slice_calibration_cube() {
    let config = SlicerConfig { layer_height: U / 5 };
    slice_mesh(&cube_triangles(), &config).unwrap();
}

#[test]
fn cube_unit_layers() {
    // the 20-unit cube at one layer per unit: 21 planes carry the square
    let config = SlicerConfig { layer_height: U };
    let sliced = slice_mesh(&cube_triangles(), &config).unwrap();
    assert_eq!(sliced.contours().len(), 21);
    let corners = vec![(0, 0), (20 * U, 0), (0, 20 * U), (20 * U, 20 * U)];
    let mut sorted_corners = corners.clone();
    sorted_corners.sort();
    for (k, contour) in sliced.contours().iter().enumerate() {
        let paths = contour.paths();
        assert_eq!(paths.len(), 1, "layer {}", k);
        let points = paths[0].points();
        assert_eq!(points.len(), 4, "layer {}", k);
        assert_eq!(point_set(points), sorted_corners, "layer {}", k);
        assert_eq!(shoelace(points).abs(), 2 * (20 * U as i128) * (20 * U as i128));
        assert_eq!(contour.limits_x(), (0, 20 * U));
        assert_eq!(contour.limits_y(), (0, 20 * U));
    }
    // interior layers walk the square counter-clockwise, starting at the
    // origin: the interior of the solid stays on the left
    for k in 0..20 {
        let points = sliced.contours()[k].paths()[0].points();
        assert_eq!(*points, vec![v2(0, 0), v2(20, 0), v2(20, 20), v2(0, 20)], "layer {}", k);
    }
    // the top plane sees the side walls' top edges in their own winding,
    // which runs the square the other way
    assert!(shoelace(sliced.contours()[20].paths()[0].points()) < 0);
    assert_eq!(sliced.limits_x(), (0, 20 * U));
    assert_eq!(sliced.limits_y(), (0, 20 * U));
}

#[test]
fn cube_fifth_layers() {
    // the same cube at layer height 0.2: 101 planes, one square each
    let config = SlicerConfig { layer_height: U / 5 };
    let sliced = slice_mesh(&cube_triangles(), &config).unwrap();
    assert_eq!(sliced.contours().len(), 101);
    for (k, contour) in sliced.contours().iter().enumerate() {
        assert_eq!(contour.paths().len(), 1, "layer {}", k);
        assert_eq!(contour.paths()[0].points().len(), 4, "layer {}", k);
    }
}

#[test]
fn cube_slice_twice_equal() {
    // slicing is deterministic: the same mesh and config give equal results
    let config = SlicerConfig { layer_height: U };
    let first: SlicedMesh = slice_mesh(&cube_triangles(), &config).unwrap();
    let second: SlicedMesh = slice_mesh(&cube_triangles(), &config).unwrap();
    assert_eq!(first, second);
}

#[test]
fn cube_translated_xy() {
    // translating the mesh by whole units shifts every path vertex exactly
    let config = SlicerConfig { layer_height: U };
    let base = slice_mesh(&cube_triangles(), &config).unwrap();
    let moved: Vec<Triangle> = cube_triangles()
        .iter()
        .map(|t| Triangle {
            p0: Vector3 { x: t.p0.x + 3 * U, y: t.p0.y - 2 * U, z: t.p0.z },
            p1: Vector3 { x: t.p1.x + 3 * U, y: t.p1.y - 2 * U, z: t.p1.z },
            p2: Vector3 { x: t.p2.x + 3 * U, y: t.p2.y - 2 * U, z: t.p2.z },
        })
        .collect();
    let shifted = slice_mesh(&moved, &config).unwrap();
    assert_eq!(base.contours().len(), shifted.contours().len());
    for (cb, cs) in base.contours().iter().zip(shifted.contours().iter()) {
        assert_eq!(cb.paths().len(), cs.paths().len());
        for (pb, ps) in cb.paths().iter().zip(cs.paths().iter()) {
            let moved_points: Vec<Vector2> = pb
                .points()
                .iter()
                .map(|p| Vector2 { x: p.x + 3 * U, y: p.y - 2 * U })
                .collect();
            assert_eq!(*ps.points(), moved_points);
        }
    }
    assert_eq!(shifted.limits_x(), (3 * U, 23 * U));
    assert_eq!(shifted.limits_y(), (-2 * U, 18 * U));
}

#[test]
fn cube_translated_z() {
    // raising the mesh by two layer heights shifts the layer indices by two
    let config = SlicerConfig { layer_height: U };
    let base = slice_mesh(&cube_triangles(), &config).unwrap();
    let raised: Vec<Triangle> = cube_triangles()
        .iter()
        .map(|t| Triangle {
            p0: Vector3 { x: t.p0.x, y: t.p0.y, z: t.p0.z + 2 * U },
            p1: Vector3 { x: t.p1.x, y: t.p1.y, z: t.p1.z + 2 * U },
            p2: Vector3 { x: t.p2.x, y: t.p2.y, z: t.p2.z + 2 * U },
        })
        .collect();
    let shifted = slice_mesh(&raised, &config).unwrap();
    assert_eq!(shifted.contours().len(), 23);
    assert_eq!(shifted.contours()[0].paths().len(), 0);
    assert_eq!(shifted.contours()[1].paths().len(), 0);
    for k in 0..21 {
        assert_eq!(&base.contours()[k], &shifted.contours()[k + 2], "layer {}", k);
    }
}

#[test]
fn cube_with_hole() {
    // a 20-unit cube with a 10-unit square hole through it along z: every
    // layer holds an outer counter-clockwise square and an inner clockwise
    // one
    let mut ts: Vec<Triangle> = Vec::new();
    // outer walls, as in the plain cube
    let x0 = v3(0, 20, 20);
    let x1 = v3(20, 0, 20);
    let x2 = v3(20, 20, 20);
    let x3 = v3(0, 0, 20);
    let x4 = v3(0, 0, 0);
    let x5 = v3(20, 20, 0);
    let x6 = v3(20, 0, 0);
    let x7 = v3(0, 20, 0);
    ts.push(tri(x4, x1, x3));
    ts.push(tri(x1, x4, x6));
    ts.push(tri(x1, x5, x2));
    ts.push(tri(x5, x1, x6));
    ts.push(tri(x5, x0, x2));
    ts.push(tri(x0, x5, x7));
    ts.push(tri(x4, x0, x7));
    ts.push(tri(x0, x4, x3));
    // hole walls; their outward normals point into the hole
    let a = v3(5, 5, 20);
    let b = v3(5, 15, 0);
    let c = v3(5, 15, 20);
    let d = v3(5, 5, 0);
    ts.push(tri(a, b, c));
    ts.push(tri(b, a, d));
    let p = v3(15, 5, 0);
    let q = v3(15, 15, 20);
    let r = v3(15, 15, 0);
    let s = v3(15, 5, 20);
    ts.push(tri(p, q, r));
    ts.push(tri(q, p, s));
    ts.push(tri(v3(15, 5, 0), v3(5, 5, 20), v3(15, 5, 20)));
    ts.push(tri(v3(5, 5, 20), v3(15, 5, 0), v3(5, 5, 0)));
    ts.push(tri(v3(5, 15, 0), v3(15, 15, 20), v3(5, 15, 20)));
    ts.push(tri(v3(15, 15, 20), v3(5, 15, 0), v3(15, 15, 0)));
    // top and bottom rings: entirely on their planes, so they emit nothing
    for z in [0, 20] {
        ts.push(tri(v3(0, 0, z), v3(20, 0, z), v3(5, 5, z)));
        ts.push(tri(v3(20, 0, z), v3(15, 5, z), v3(5, 5, z)));
        ts.push(tri(v3(20, 0, z), v3(20, 20, z), v3(15, 5, z)));
        ts.push(tri(v3(20, 20, z), v3(15, 15, z), v3(15, 5, z)));
        ts.push(tri(v3(20, 20, z), v3(0, 20, z), v3(15, 15, z)));
        ts.push(tri(v3(0, 20, z), v3(5, 15, z), v3(15, 15, z)));
        ts.push(tri(v3(0, 20, z), v3(0, 0, z), v3(5, 15, z)));
        ts.push(tri(v3(0, 0, z), v3(5, 5, z), v3(5, 15, z)));
    }
    let config = SlicerConfig { layer_height: U };
    let sliced = slice_mesh(&ts, &config).unwrap();
    assert_eq!(sliced.contours().len(), 21);
    let outer2 = 2 * (20 * U as i128) * (20 * U as i128);
    let inner2 = 2 * (10 * U as i128) * (10 * U as i128);
    for (k, contour) in sliced.contours().iter().enumerate() {
        let paths = contour.paths();
        assert_eq!(paths.len(), 2, "layer {}", k);
        let a0 = shoelace(paths[0].points());
        let a1 = shoelace(paths[1].points());
        // the outer ring and the hole's ring run in opposite directions
        assert!(a0.signum() != a1.signum(), "layer {}", k);
        let mut mags = vec![a0.abs(), a1.abs()];
        mags.sort();
        assert_eq!(mags, vec![inner2, outer2], "layer {}", k);
    }
    // away from the boundary planes the outer ring is counter-clockwise
    for k in 1..20 {
        let paths = sliced.contours()[k].paths();
        assert_eq!(shoelace(paths[0].points()), outer2, "layer {}", k);
        assert_eq!(shoelace(paths[1].points()), -inner2, "layer {}", k);
    }
}

#[test]
fn flat_triangle_layer_is_empty() {
    // a triangle lying exactly on the plane z = 5 contributes nothing
    let t = tri(v3(0, 0, 5), v3(10, 0, 5), v3(0, 10, 5));
    let config = SlicerConfig { layer_height: U };
    let sliced = slice_mesh(&vec![t], &config).unwrap();
    assert_eq!(sliced.contours().len(), 6);
    for contour in sliced.contours() {
        assert_eq!(contour.paths().len(), 0);
    }
}

#[test]
fn tetrahedron_layers_shrink() {
    // a tetrahedron with its apex at z = 10: cut every 2 units, the
    // triangular section shrinks linearly and the apex plane is empty
    let base0 = v3(0, 0, 0);
    let base1 = v3(10, 0, 0);
    let base2 = v3(0, 10, 0);
    let apex = v3(0, 0, 10);
    let ts = vec![
        tri(base0, base2, base1),
        tri(base0, base1, apex),
        tri(base1, base2, apex),
        tri(base2, base0, apex),
    ];
    let config = SlicerConfig { layer_height: 2 * U };
    let sliced = slice_mesh(&ts, &config).unwrap();
    assert_eq!(sliced.contours().len(), 6);
    for k in 0..5 {
        let paths = sliced.contours()[k].paths();
        assert_eq!(paths.len(), 1, "layer {}", k);
        let side = (10 - 2 * k as i64) * U;
        assert_eq!(
            *paths[0].points(),
            vec![
                Vector2 { x: 0, y: 0 },
                Vector2 { x: side, y: 0 },
                Vector2 { x: 0, y: side },
            ],
            "layer {}",
            k
        );
    }
    // the plane through the apex only grazes it
    assert_eq!(sliced.contours()[5].paths().len(), 0);
}

#[test]
fn zero_layer_height_rejected() {
    let ts = cube_triangles();
    assert_eq!(
        slice_mesh(&ts, &SlicerConfig { layer_height: 0 }),
        Err(SlicerError::InvalidConfig)
    );
    assert_eq!(
        slice_mesh(&ts, &SlicerConfig { layer_height: -5 }),
        Err(SlicerError::InvalidConfig)
    );
    assert!(slice_mesh(&ts, &SlicerConfig { layer_height: 7 * U }).is_ok());
}

#[test]
fn coplanar_triangle_emits_nothing() {
    let t = tri(v3(0, 0, 5), v3(10, 0, 5), v3(0, 10, 5));
    let (zmin, zmax) = compute_min_max(&t);
    assert_eq!((zmin, zmax), (5 * U, 5 * U));
    assert_eq!(segment_for_layer(&t, 5 * U, zmin, zmax), None);
}

#[test]
fn grazing_vertex_emits_nothing() {
    // one vertex exactly on the plane, at the triangle's top
    let t = tri(v3(0, 0, 0), v3(10, 0, 0), v3(0, 0, 10));
    let (zmin, zmax) = compute_min_max(&t);
    assert_eq!((zmin, zmax), (0, 10 * U));
    assert_eq!(segment_for_layer(&t, 10 * U, zmin, zmax), None);
    // and at the triangle's bottom
    let t2 = tri(v3(0, 0, 0), v3(10, 0, 5), v3(0, 10, 5));
    let (zmin2, zmax2) = compute_min_max(&t2);
    assert_eq!(segment_for_layer(&t2, 0, zmin2, zmax2), None);
}

#[test]
fn layer_range_cases() {
    let config = SlicerConfig { layer_height: U };
    // the cube's side walls touch every plane from 0 through 20
    assert_eq!(compute_constant_layer_range(0, 20 * U, &config), Some((0, 20)));
    // a triangle strictly between two planes touches none
    assert_eq!(
        compute_constant_layer_range(3 * U + U / 2, 3 * U + 9 * U / 10, &config),
        None
    );
    // below z = 0 there are no planes
    assert_eq!(compute_constant_layer_range(-5 * U, -1 * U, &config), None);
    // a range straddling z = 0 clamps at plane 0
    assert_eq!(
        compute_constant_layer_range(-5 * U, 3 * U, &SlicerConfig { layer_height: 2 * U }),
        Some((0, 1))
    );
}

#[test]
fn mid_height_vertex_on_plane_is_skipped() {
    // a vertex exactly on the plane between the other two vertices puts a
    // crossing on all three edges; the policy skips such a triangle
    let t = tri(v3(0, 0, 0), v3(10, 0, 10), v3(0, 10, 5));
    let (zmin, zmax) = compute_min_max(&t);
    assert_eq!(segment_for_layer(&t, 5 * U, zmin, zmax), None);
}

#[test]
fn quantization_discards_degenerate_segments() {
    // a triangle so thin that both crossing points quantize to one grid
    // point contributes nothing
    let t = Triangle {
        p0: Vector3 { x: 0, y: 0, z: 0 },
        p1: Vector3 { x: 300, y: 0, z: 2 * U },
        p2: Vector3 { x: 200, y: 100, z: -2 * U },
    };
    let (zmin, zmax) = compute_min_max(&t);
    assert_eq!(segment_for_layer(&t, U, zmin, zmax), None);
}
