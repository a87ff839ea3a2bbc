//! Laws of the slicing pipeline, stated over the model that the executable
//! functions are proved to compute.

use vstd::prelude::*;

use crate::contour::WalkState;
use crate::contour::lemma_assemble_min_len;
use crate::contour::spec_assemble;
use crate::contour::spec_close_path;
use crate::contour::spec_contour;
use crate::geometry::Triangle;
use crate::geometry::Vector2;
use crate::geometry::spec_cross;
use crate::geometry::spec_near;
use crate::segment_map::has_key;
use crate::segment_map::key_index;
use crate::segment_map::lemma_key_index;
use crate::segment_map::no_self_loops;
use crate::segment_map::spec_remove;
use crate::segment_map::unique_keys;
use crate::segment_map::value_at;
use crate::geometry::GRID;
use crate::geometry::round_div;
use crate::geometry::lemma_round_div_shift;
use crate::geometry::spec_quantize;
use crate::slicer::INTERSECT_LIMIT;
use crate::slicer::SlicedMeshView;
use crate::slicer::coord_ok;
use crate::slicer::lemma_layer_segment_ok;
use crate::slicer::lemma_quantize_ok;
use crate::slicer::spec_interp;
use crate::slicer::spec_intersect;
use crate::slicer::spec_layer_segment;
use crate::slicer::spec_quantized_pair;
use crate::slicer::spec_slice;
use crate::slicer::tri_zmax;
use crate::slicer::tri_zmin;
use crate::slicer::triangle_ok;

verus! {

/// Three points are collinear: the cross product of the two edge vectors
/// out of the first point vanishes.  This is the exact test the assembler
/// uses to drop middle vertices.
pub open spec fn spec_collinear(a: Vector2, b: Vector2, c: Vector2) -> bool {
    spec_cross(b.x - a.x, b.y - a.y, c.x - a.x, c.y - a.y) == 0
}

/// No three cyclically consecutive vertices of the ring are collinear.
pub open spec fn non_collinear_ring(p: Seq<Vector2>) -> bool {
    forall|i: int|
        0 <= i < p.len() ==> !spec_collinear(
            #[trigger] p[i],
            p[(i + 1) % (p.len() as int)],
            p[(i + 2) % (p.len() as int)],
        )
}

/// The cross product is linear in each argument.
proof fn lemma_cross_linear(ux: int, uy: int, vx: int, vy: int, wx: int, wy: int)
    ensures
        spec_cross(ux, uy, vx - wx, vy - wy) == spec_cross(ux, uy, vx, vy) - spec_cross(
            ux,
            uy,
            wx,
            wy,
        ),
        spec_cross(ux, uy, vx + wx, vy + wy) == spec_cross(ux, uy, vx, vy) + spec_cross(
            ux,
            uy,
            wx,
            wy,
        ),
        spec_cross(vx - wx, vy - wy, ux, uy) == spec_cross(vx, vy, ux, uy) - spec_cross(
            wx,
            wy,
            ux,
            uy,
        ),
        spec_cross(vx + wx, vy + wy, ux, uy) == spec_cross(vx, vy, ux, uy) + spec_cross(
            wx,
            wy,
            ux,
            uy,
        ),
{
    assert(ux * (vy - wy) - uy * (vx - wx) == (ux * vy - uy * vx) - (ux * wy - uy * wx))
        by (nonlinear_arith);
    assert(ux * (vy + wy) - uy * (vx + wx) == (ux * vy - uy * vx) + (ux * wy - uy * wx))
        by (nonlinear_arith);
    assert((vx - wx) * uy - (vy - wy) * ux == (vx * uy - vy * ux) - (wx * uy - wy * ux))
        by (nonlinear_arith);
    assert((vx + wx) * uy - (vy + wy) * ux == (vx * uy - vy * ux) + (wx * uy - wy * ux))
        by (nonlinear_arith);
}

/// Swapping the arguments of the cross product flips its sign.
proof fn lemma_cross_antisym(ax: int, ay: int, bx: int, by: int)
    ensures
        spec_cross(ax, ay, bx, by) == -spec_cross(bx, by, ax, ay),
        spec_cross(ax, ay, ax, ay) == 0,
{
    assert(ax * by - ay * bx == -(bx * ay - by * ax)) by (nonlinear_arith);
    assert(ax * ay - ay * ax == 0) by (nonlinear_arith);
}

/// Parallelism through a nonzero middle vector is transitive.
proof fn lemma_cross_transitive(ax: int, ay: int, bx: int, by: int, cx: int, cy: int)
    requires
        spec_cross(ax, ay, bx, by) == 0,
        spec_cross(bx, by, cx, cy) == 0,
        !(bx == 0 && by == 0),
    ensures
        spec_cross(ax, ay, cx, cy) == 0,
{
    if bx != 0 {
        assert(bx * (ax * cy - ay * cx) == 0) by (nonlinear_arith)
            requires
                ax * by - ay * bx == 0,
                bx * cy - by * cx == 0,
        {
            assert(bx * (ax * cy) == ax * (bx * cy));
            assert(ax * (by * cx) == (ax * by) * cx);
            assert((ay * bx) * cx == bx * (ay * cx));
        }
        assert(ax * cy - ay * cx == 0) by (nonlinear_arith)
            requires
                bx * (ax * cy - ay * cx) == 0,
                bx != 0,
        {}
    } else {
        assert(ax * by == 0 && by * cx == 0);
        assert(ax == 0 && cx == 0) by (nonlinear_arith)
            requires
                ax * by == 0,
                by * cx == 0,
                by != 0,
        {}
        assert(ax * cy - ay * cx == 0) by (nonlinear_arith)
            requires
                ax == 0,
                cx == 0,
        {}
    }
}

/// A ring whose middle was built by the walk is free of collinear triples
/// once it closes.  `path1` is the retained path at closing time, `sstart1`
/// its last vertex, `send` the final walk candidate, and `(d1x, d1y)` the
/// established direction of the final straight run.
proof fn lemma_ring_of_closed(
    path1: Seq<Vector2>,
    pstart: Vector2,
    sstart1: Vector2,
    send: Vector2,
    d1x: int,
    d1y: int,
)
    requires
        path1.len() >= 1,
        path1[0] == pstart,
        path1.last() == sstart1,
        forall|i: int, j: int| 0 <= i < j < path1.len() ==> #[trigger] path1[i] != #[trigger] path1[j],
        forall|i: int|
            1 <= i < path1.len() - 1 ==> !spec_collinear(
                path1[i - 1],
                #[trigger] path1[i],
                path1[i + 1],
            ),
        path1.len() >= 2 ==> spec_cross(
            sstart1.x - path1[path1.len() - 2].x,
            sstart1.y - path1[path1.len() - 2].y,
            d1x,
            d1y,
        ) != 0,
        spec_cross(d1x, d1y, pstart.x - sstart1.x, pstart.y - sstart1.y) == 0,
        !(d1x == 0 && d1y == 0),
        pstart != send,
        spec_cross(d1x, d1y, pstart.x - send.x, pstart.y - send.y) == 0,
    ensures
        spec_close_path(path1, sstart1, send, pstart).len() >= 3 ==> non_collinear_ring(
            spec_close_path(path1, sstart1, send, pstart),
        ),
{
    let closed = spec_close_path(path1, sstart1, send, pstart);
    if closed.len() < 3 {
        return ;
    }
    let n = path1.len() as int;
    let fix = n >= 2 && spec_cross(
        path1[1].x - path1[0].x,
        path1[1].y - path1[0].y,
        pstart.x - send.x,
        pstart.y - send.y,
    ) == 0;
    if !fix {
        // the ring is the path itself
        assert(closed == path1);
        assert(n >= 3);
        let prev = path1[n - 2];
        // triple (prev, sstart1, pstart): the final run leaves `prev`
        // non-parallel to the closing edge
        assert(!spec_collinear(prev, sstart1, pstart)) by {
            assert(pstart != sstart1);
            if spec_cross(
                sstart1.x - prev.x,
                sstart1.y - prev.y,
                pstart.x - sstart1.x,
                pstart.y - sstart1.y,
            ) == 0 {
                lemma_cross_antisym(d1x, d1y, pstart.x - sstart1.x, pstart.y - sstart1.y);
                lemma_cross_transitive(
                    sstart1.x - prev.x,
                    sstart1.y - prev.y,
                    pstart.x - sstart1.x,
                    pstart.y - sstart1.y,
                    d1x,
                    d1y,
                );
                assert(false);
            }
            lemma_cross_linear(
                sstart1.x - prev.x,
                sstart1.y - prev.y,
                pstart.x - sstart1.x,
                pstart.y - sstart1.y,
                sstart1.x - prev.x,
                sstart1.y - prev.y,
            );
            lemma_cross_antisym(sstart1.x - prev.x, sstart1.y - prev.y, sstart1.x - prev.x, sstart1.y - prev.y);
            assert(spec_cross(
                sstart1.x - prev.x,
                sstart1.y - prev.y,
                pstart.x - prev.x,
                pstart.y - prev.y,
            ) != 0);
        }
        // triple (sstart1, pstart, path1[1]): the first edge does not
        // continue the closing straight run
        assert(!spec_collinear(sstart1, pstart, path1[1])) by {
            let p1 = path1[1];
            assert(spec_cross(p1.x - pstart.x, p1.y - pstart.y, pstart.x - send.x, pstart.y - send.y)
                != 0);
            if spec_cross(p1.x - pstart.x, p1.y - pstart.y, d1x, d1y) == 0 {
                lemma_cross_transitive(
                    p1.x - pstart.x,
                    p1.y - pstart.y,
                    d1x,
                    d1y,
                    pstart.x - send.x,
                    pstart.y - send.y,
                );
                assert(false);
            }
            assert(pstart != sstart1);
            if spec_cross(
                p1.x - pstart.x,
                p1.y - pstart.y,
                pstart.x - sstart1.x,
                pstart.y - sstart1.y,
            ) == 0 {
                lemma_cross_antisym(d1x, d1y, pstart.x - sstart1.x, pstart.y - sstart1.y);
                lemma_cross_transitive(
                    p1.x - pstart.x,
                    p1.y - pstart.y,
                    pstart.x - sstart1.x,
                    pstart.y - sstart1.y,
                    d1x,
                    d1y,
                );
                assert(false);
            }
            lemma_cross_antisym(
                p1.x - pstart.x,
                p1.y - pstart.y,
                pstart.x - sstart1.x,
                pstart.y - sstart1.y,
            );
            lemma_cross_linear(
                pstart.x - sstart1.x,
                pstart.y - sstart1.y,
                p1.x - pstart.x,
                p1.y - pstart.y,
                pstart.x - sstart1.x,
                pstart.y - sstart1.y,
            );
            lemma_cross_antisym(
                pstart.x - sstart1.x,
                pstart.y - sstart1.y,
                pstart.x - sstart1.x,
                pstart.y - sstart1.y,
            );
            assert(spec_cross(
                pstart.x - sstart1.x,
                pstart.y - sstart1.y,
                p1.x - sstart1.x,
                p1.y - sstart1.y,
            ) != 0);
        }
        assert forall|i: int| 0 <= i < closed.len() implies !spec_collinear(
            #[trigger] closed[i],
            closed[(i + 1) % (closed.len() as int)],
            closed[(i + 2) % (closed.len() as int)],
        ) by {
            lemma_ring_indices(n, i);
            if i < n - 2 {
                assert(!spec_collinear(path1[i], path1[i + 1], path1[i + 2]));
            } else if i == n - 2 {
                assert(closed[i] == prev && closed[i + 1] == sstart1 && closed[(i + 2) % n]
                    == pstart);
            } else {
                assert(closed[i] == sstart1 && closed[(i + 1) % n] == pstart && closed[(i + 2) % n]
                    == path1[1]);
            }
        }
    } else {
        // the first vertex sat inside the final straight run; the ring is
        // the path with its last vertex moved to the front
        let m = n - 1;
        assert(closed == path1.drop_last().update(0, sstart1));
        assert(closed.len() == m);
        assert(n >= 4);
        let p1 = path1[1];
        let p2 = path1[2];
        let prev = path1[n - 2];
        // p1 - pstart is parallel to the run direction
        assert(spec_cross(p1.x - pstart.x, p1.y - pstart.y, d1x, d1y) == 0) by {
            lemma_cross_antisym(d1x, d1y, pstart.x - send.x, pstart.y - send.y);
            lemma_cross_transitive(
                p1.x - pstart.x,
                p1.y - pstart.y,
                pstart.x - send.x,
                pstart.y - send.y,
                d1x,
                d1y,
            );
        }
        // and hence parallel to the closing edge and to p1 - sstart1
        assert(spec_cross(
            p1.x - pstart.x,
            p1.y - pstart.y,
            pstart.x - sstart1.x,
            pstart.y - sstart1.y,
        ) == 0) by {
            lemma_cross_transitive(
                p1.x - pstart.x,
                p1.y - pstart.y,
                d1x,
                d1y,
                pstart.x - sstart1.x,
                pstart.y - sstart1.y,
            );
        }
        assert(spec_cross(p1.x - pstart.x, p1.y - pstart.y, p1.x - sstart1.x, p1.y - sstart1.y)
            == 0) by {
            lemma_cross_linear(
                p1.x - pstart.x,
                p1.y - pstart.y,
                p1.x - pstart.x,
                p1.y - pstart.y,
                pstart.x - sstart1.x,
                pstart.y - sstart1.y,
            );
            lemma_cross_antisym(p1.x - pstart.x, p1.y - pstart.y, p1.x - pstart.x, p1.y - pstart.y);
        }
        assert(spec_cross(d1x, d1y, p1.x - sstart1.x, p1.y - sstart1.y) == 0) by {
            lemma_cross_antisym(p1.x - pstart.x, p1.y - pstart.y, d1x, d1y);
            lemma_cross_linear(
                d1x,
                d1y,
                p1.x - pstart.x,
                p1.y - pstart.y,
                pstart.x - sstart1.x,
                pstart.y - sstart1.y,
            );
        }
        assert(p1 != sstart1);
        assert(p1 != pstart);
        // triple (sstart1, p1, p2)
        assert(!spec_collinear(sstart1, p1, p2)) by {
            assert(spec_cross(
                p1.x - sstart1.x,
                p1.y - sstart1.y,
                pstart.x - sstart1.x,
                pstart.y - sstart1.y,
            ) == 0) by {
                lemma_cross_antisym(
                    p1.x - pstart.x,
                    p1.y - pstart.y,
                    p1.x - sstart1.x,
                    p1.y - sstart1.y,
                );
                lemma_cross_transitive(
                    p1.x - sstart1.x,
                    p1.y - sstart1.y,
                    p1.x - pstart.x,
                    p1.y - pstart.y,
                    pstart.x - sstart1.x,
                    pstart.y - sstart1.y,
                );
            }
            if spec_cross(p1.x - sstart1.x, p1.y - sstart1.y, p2.x - sstart1.x, p2.y - sstart1.y)
                == 0 {
                // then p2 - pstart would be parallel to p1 - pstart
                lemma_cross_linear(
                    p1.x - sstart1.x,
                    p1.y - sstart1.y,
                    p2.x - sstart1.x,
                    p2.y - sstart1.y,
                    pstart.x - sstart1.x,
                    pstart.y - sstart1.y,
                );
                assert(spec_cross(
                    p1.x - sstart1.x,
                    p1.y - sstart1.y,
                    p2.x - pstart.x,
                    p2.y - pstart.y,
                ) == 0);
                lemma_cross_antisym(
                    p1.x - pstart.x,
                    p1.y - pstart.y,
                    p1.x - sstart1.x,
                    p1.y - sstart1.y,
                );
                lemma_cross_transitive(
                    p1.x - pstart.x,
                    p1.y - pstart.y,
                    p1.x - sstart1.x,
                    p1.y - sstart1.y,
                    p2.x - pstart.x,
                    p2.y - pstart.y,
                );
                assert(!spec_collinear(path1[0], path1[1], path1[2]));
                assert(false);
            }
        }
        // triple (prev, sstart1, p1)
        assert(!spec_collinear(prev, sstart1, p1)) by {
            if spec_cross(sstart1.x - prev.x, sstart1.y - prev.y, p1.x - sstart1.x, p1.y - sstart1.y)
                == 0 {
                lemma_cross_transitive(
                    sstart1.x - prev.x,
                    sstart1.y - prev.y,
                    p1.x - sstart1.x,
                    p1.y - sstart1.y,
                    d1x,
                    d1y,
                );
                assert(false);
            }
            lemma_cross_linear(
                sstart1.x - prev.x,
                sstart1.y - prev.y,
                p1.x - sstart1.x,
                p1.y - sstart1.y,
                sstart1.x - prev.x,
                sstart1.y - prev.y,
            );
            lemma_cross_antisym(sstart1.x - prev.x, sstart1.y - prev.y, sstart1.x - prev.x, sstart1.y - prev.y);
            assert(spec_cross(sstart1.x - prev.x, sstart1.y - prev.y, p1.x - prev.x, p1.y - prev.y)
                != 0);
        }
        assert forall|i: int| 0 <= i < closed.len() implies !spec_collinear(
            #[trigger] closed[i],
            closed[(i + 1) % (closed.len() as int)],
            closed[(i + 2) % (closed.len() as int)],
        ) by {
            lemma_ring_indices(m, i);
            if i == 0 {
                assert(closed[0] == sstart1 && closed[1] == p1 && closed[2] == p2);
            } else if i < m - 2 {
                assert(closed[i] == path1[i] && closed[i + 1] == path1[i + 1] && closed[i + 2]
                    == path1[i + 2]);
                assert(!spec_collinear(path1[i], path1[i + 1], path1[i + 2]));
            } else if i == m - 2 {
                assert(closed[i] == path1[n - 3] && closed[i + 1] == path1[n - 2] && closed[(i + 2)
                    % m] == sstart1);
                assert(!spec_collinear(path1[n - 3], path1[n - 2], path1[n - 1]));
            } else {
                assert(closed[i] == prev && closed[(i + 1) % m] == sstart1 && closed[(i + 2) % m]
                    == p1);
            }
        }
    }
}

/// A key that no entry carries is absent.
proof fn lemma_not_has_key(es: Seq<(Vector2, Vector2)>, k: Vector2)
    requires
        forall|i: int| 0 <= i < es.len() ==> (#[trigger] es[i]).0 != k,
    ensures
        !has_key(es, k),
{
    lemma_key_index(es, k);
}

/// Dropping the first entry keeps the map well formed, and its key is gone
/// when keys are unique.
proof fn lemma_drop_first_wf(es: Seq<(Vector2, Vector2)>)
    requires
        unique_keys(es),
        no_self_loops(es),
        es.len() > 0,
    ensures
        unique_keys(es.drop_first()),
        no_self_loops(es.drop_first()),
        !has_key(es.drop_first(), es[0].0),
{
    let es1 = es.drop_first();
    assert forall|i: int, j: int| 0 <= i < j < es1.len() implies (#[trigger] es1[i]).0 != (
    #[trigger] es1[j]).0 by {
        assert(es1[i] == es[i + 1] && es1[j] == es[j + 1]);
    }
    assert forall|i: int| 0 <= i < es1.len() implies (#[trigger] es1[i]).0 != es1[i].1 by {
        assert(es1[i] == es[i + 1]);
    }
    assert forall|i: int| 0 <= i < es1.len() implies (#[trigger] es1[i]).0 != es[0].0 by {
        assert(es1[i] == es[i + 1]);
    }
    lemma_not_has_key(es1, es[0].0);
}

/// Removing the looked-up key keeps the map well formed, removes that key
/// for good, and introduces no key that was absent before.
proof fn lemma_remove_step(es: Seq<(Vector2, Vector2)>, k: Vector2)
    requires
        unique_keys(es),
        no_self_loops(es),
        has_key(es, k),
    ensures
        unique_keys(spec_remove(es, k)),
        no_self_loops(spec_remove(es, k)),
        !has_key(spec_remove(es, k), k),
        value_at(es, k) != k,
        spec_remove(es, k).len() == es.len() - 1,
        forall|x: Vector2|
            !has_key(es, x) ==> !(#[trigger] has_key(spec_remove(es, k), x)),
{
    lemma_key_index(es, k);
    let ki = key_index(es, k);
    let es1 = spec_remove(es, k);
    assert(es1 == es.remove(ki));
    assert forall|j: int| 0 <= j < es1.len() implies es1[j] == (if j < ki {
        es[j]
    } else {
        es[j + 1]
    }) by {
        es.remove_ensures(ki);
    }
    assert forall|i: int, j: int| 0 <= i < j < es1.len() implies (#[trigger] es1[i]).0 != (
    #[trigger] es1[j]).0 by {}
    assert forall|i: int| 0 <= i < es1.len() implies (#[trigger] es1[i]).0 != es1[i].1 by {}
    assert forall|i: int| 0 <= i < es1.len() implies (#[trigger] es1[i]).0 != k by {}
    lemma_not_has_key(es1, k);
    assert forall|x: Vector2| !has_key(es, x) implies !(#[trigger] has_key(es1, x)) by {
        lemma_key_index(es, x);
        assert forall|i: int| 0 <= i < es1.len() implies (#[trigger] es1[i]).0 != x by {}
        lemma_not_has_key(es1, x);
    }
}

/// The state the assembly walk keeps while a path is open: the entries
/// still unvisited, the retained path, and the pending segment with its
/// established direction.
spec fn walk_inv(
    es: Seq<(Vector2, Vector2)>,
    path: Seq<Vector2>,
    pstart: Vector2,
    sstart: Vector2,
    send: Vector2,
    dx: int,
    dy: int,
) -> bool {
    &&& unique_keys(es)
    &&& no_self_loops(es)
    &&& path.len() >= 1
    &&& path[0] == pstart
    &&& path.last() == sstart
    &&& !(dx == 0 && dy == 0)
    &&& spec_cross(dx, dy, send.x - sstart.x, send.y - sstart.y) == 0
    &&& (forall|i: int| 0 <= i < path.len() ==> !has_key(es, #[trigger] path[i]))
    &&& (forall|i: int, j: int|
        0 <= i < j < path.len() ==> #[trigger] path[i] != #[trigger] path[j])
    &&& (path.len() >= 2 ==> spec_cross(
        sstart.x - path[path.len() - 2].x,
        sstart.y - path[path.len() - 2].y,
        dx,
        dy,
    ) != 0)
    &&& (forall|i: int|
        1 <= i < path.len() - 1 ==> !spec_collinear(path[i - 1], #[trigger] path[i], path[i + 1]))
}

/// Every ring the walk closes is free of collinear triples, provided the
/// entries have unique keys and no self-loops.
proof fn lemma_walk_rings(es: Seq<(Vector2, Vector2)>, st: WalkState)
    requires
        match st {
            WalkState::Pick => unique_keys(es) && no_self_loops(es),
            WalkState::Walk { path, path_start, seg_start, seg_end, dir_x, dir_y } => walk_inv(
                es,
                path,
                path_start,
                seg_start,
                seg_end,
                dir_x,
                dir_y,
            ),
        },
    ensures
        forall|i: int|
            0 <= i < spec_assemble(es, st).len() ==> non_collinear_ring(
                #[trigger] spec_assemble(es, st)[i],
            ),
    decreases es.len(), crate::contour::walk_rank(st),
{
    match st {
        WalkState::Pick => {
            if es.len() > 0 {
                let e0 = es[0];
                let st1 = WalkState::Walk {
                    path: seq![e0.0],
                    path_start: e0.0,
                    seg_start: e0.0,
                    seg_end: e0.1,
                    dir_x: e0.1.x - e0.0.x,
                    dir_y: e0.1.y - e0.0.y,
                };
                lemma_drop_first_wf(es);
                assert(e0.0 != e0.1);
                lemma_cross_antisym(e0.1.x - e0.0.x, e0.1.y - e0.0.y, e0.1.x - e0.0.x, e0.1.y
                    - e0.0.y);
                assert(walk_inv(
                    es.drop_first(),
                    seq![e0.0],
                    e0.0,
                    e0.0,
                    e0.1,
                    e0.1.x - e0.0.x,
                    e0.1.y - e0.0.y,
                ));
                lemma_walk_rings(es.drop_first(), st1);
                assert(spec_assemble(es, st) == spec_assemble(es.drop_first(), st1));
                assert forall|i: int| 0 <= i < spec_assemble(es, st).len() implies
                    non_collinear_ring(#[trigger] spec_assemble(es, st)[i]) by {
                    assert(spec_assemble(es, st)[i] == spec_assemble(es.drop_first(), st1)[i]);
                }
            }
        },
        WalkState::Walk { path, path_start, seg_start, seg_end, dir_x, dir_y } => {
            if !has_key(es, seg_end) {
                lemma_walk_rings(es, WalkState::Pick);
                assert(spec_assemble(es, st) == spec_assemble(es, WalkState::Pick));
                assert forall|i: int| 0 <= i < spec_assemble(es, st).len() implies
                    non_collinear_ring(#[trigger] spec_assemble(es, st)[i]) by {
                    assert(spec_assemble(es, st)[i] == spec_assemble(es, WalkState::Pick)[i]);
                }
            } else {
                lemma_key_index(es, seg_end);
                lemma_remove_step(es, seg_end);
                let nxt = value_at(es, seg_end);
                let es1 = spec_remove(es, seg_end);
                let keep = spec_cross(dir_x, dir_y, nxt.x - seg_start.x, nxt.y - seg_start.y)
                    != 0;
                let path1 = if keep {
                    path.push(seg_end)
                } else {
                    path
                };
                let seg_start1 = if keep {
                    seg_end
                } else {
                    seg_start
                };
                let dir_x1 = if keep {
                    nxt.x - seg_end.x
                } else {
                    dir_x
                };
                let dir_y1 = if keep {
                    nxt.y - seg_end.y
                } else {
                    dir_y
                };
                // the looked-up point is fresh: no retained vertex is a key
                assert forall|i: int| 0 <= i < path.len() implies #[trigger] path[i] != seg_end
                    by {
                    assert(!has_key(es, path[i]));
                }
                if keep {
                    lemma_keep_state(es, es1, path, path_start, seg_start, seg_end, nxt, dir_x,
                        dir_y);
                }
                // in either case the new state satisfies the invariant
                assert(walk_inv(es1, path1, path_start, seg_start1, nxt, dir_x1, dir_y1));
                if nxt == path_start {
                    // the D direction facts needed by the ring lemma
                    if keep {
                        lemma_cross_antisym(dir_x1, dir_y1, path_start.x - seg_end.x,
                            path_start.y - seg_end.y);
                        assert(dir_x1 == path_start.x - seg_end.x && dir_y1 == path_start.y
                            - seg_end.y);
                    } else {
                        lemma_cross_linear(
                            dir_x,
                            dir_y,
                            path_start.x - seg_start.x,
                            path_start.y - seg_start.y,
                            seg_end.x - seg_start.x,
                            seg_end.y - seg_start.y,
                        );
                    }
                    assert(spec_cross(dir_x1, dir_y1, path_start.x - seg_start1.x, path_start.y
                        - seg_start1.y) == 0);
                    assert(spec_cross(dir_x1, dir_y1, path_start.x - seg_end.x, path_start.y
                        - seg_end.y) == 0);
                    lemma_ring_of_closed(path1, path_start, seg_start1, seg_end, dir_x1, dir_y1);
                    let closed = spec_close_path(path1, seg_start1, seg_end, path_start);
                    lemma_walk_rings(es1, WalkState::Pick);
                    let rest = spec_assemble(es1, WalkState::Pick);
                    if closed.len() >= 3 {
                        assert(spec_assemble(es, st) == seq![closed] + rest);
                        assert forall|i: int| 0 <= i < spec_assemble(es, st).len() implies
                            non_collinear_ring(#[trigger] spec_assemble(es, st)[i]) by {
                            if i == 0 {
                                assert((seq![closed] + rest)[0] == closed);
                            } else {
                                assert((seq![closed] + rest)[i] == rest[i - 1]);
                            }
                        }
                    } else {
                        assert(spec_assemble(es, st) == rest);
                        assert forall|i: int| 0 <= i < spec_assemble(es, st).len() implies
                            non_collinear_ring(#[trigger] spec_assemble(es, st)[i]) by {
                            assert(spec_assemble(es, st)[i] == rest[i]);
                        }
                    }
                } else {
                    let st1 = WalkState::Walk {
                        path: path1,
                        path_start,
                        seg_start: seg_start1,
                        seg_end: nxt,
                        dir_x: dir_x1,
                        dir_y: dir_y1,
                    };
                    lemma_walk_rings(es1, st1);
                    assert(spec_assemble(es, st) == spec_assemble(es1, st1));
                    assert forall|i: int| 0 <= i < spec_assemble(es, st).len() implies
                        non_collinear_ring(#[trigger] spec_assemble(es, st)[i]) by {
                        assert(spec_assemble(es, st)[i] == spec_assemble(es1, st1)[i]);
                    }
                }
            }
        },
    }
}

/// Retaining the pending vertex preserves the walk invariant: the new
/// vertex leaves the straight run, so the new triple is not collinear and
/// the new direction crosses the retained edge.
proof fn lemma_keep_state(
    es: Seq<(Vector2, Vector2)>,
    es1: Seq<(Vector2, Vector2)>,
    path: Seq<Vector2>,
    pstart: Vector2,
    sstart: Vector2,
    send: Vector2,
    nxt: Vector2,
    dx: int,
    dy: int,
)
    requires
        walk_inv(es, path, pstart, sstart, send, dx, dy),
        has_key(es, send),
        es1 == spec_remove(es, send),
        nxt == value_at(es, send),
        spec_cross(dx, dy, nxt.x - sstart.x, nxt.y - sstart.y) != 0,
        forall|i: int| 0 <= i < path.len() ==> #[trigger] path[i] != send,
    ensures
        path.push(send).len() >= 2 ==> spec_cross(
            send.x - path.push(send)[path.push(send).len() - 2].x,
            send.y - path.push(send)[path.push(send).len() - 2].y,
            nxt.x - send.x,
            nxt.y - send.y,
        ) != 0,
        forall|i: int|
            1 <= i < path.push(send).len() - 1 ==> !spec_collinear(
                path.push(send)[i - 1],
                #[trigger] path.push(send)[i],
                path.push(send)[i + 1],
            ),
{
    let ux = send.x - sstart.x;
    let uy = send.y - sstart.y;
    assert(send != sstart);
    assert(!(ux == 0 && uy == 0));
    // the run vector crosses the next edge, since the direction does
    assert(spec_cross(ux, uy, nxt.x - sstart.x, nxt.y - sstart.y) != 0) by {
        if spec_cross(ux, uy, nxt.x - sstart.x, nxt.y - sstart.y) == 0 {
            lemma_cross_transitive(dx, dy, ux, uy, nxt.x - sstart.x, nxt.y - sstart.y);
            assert(false);
        }
    }
    // new pending direction crosses the new retained edge
    assert(spec_cross(ux, uy, nxt.x - send.x, nxt.y - send.y) != 0) by {
        lemma_cross_linear(ux, uy, nxt.x - sstart.x, nxt.y - sstart.y, ux, uy);
        lemma_cross_antisym(ux, uy, ux, uy);
    }
    if path.len() >= 2 {
        let prev2 = path[path.len() - 2];
        let wx = sstart.x - prev2.x;
        let wy = sstart.y - prev2.y;
        // the retained edge into `sstart` crosses the run vector
        assert(spec_cross(wx, wy, ux, uy) != 0) by {
            if spec_cross(wx, wy, ux, uy) == 0 {
                lemma_cross_antisym(dx, dy, ux, uy);
                lemma_cross_transitive(wx, wy, ux, uy, dx, dy);
                assert(false);
            }
        }
        // so the new triple is not collinear
        assert(!spec_collinear(prev2, sstart, send)) by {
            lemma_cross_linear(wx, wy, ux, uy, wx, wy);
            lemma_cross_antisym(wx, wy, wx, wy);
            assert(spec_cross(wx, wy, send.x - prev2.x, send.y - prev2.y) != 0);
        }
    }
    let pp = path.push(send);
    assert forall|i: int| 1 <= i < pp.len() - 1 implies !spec_collinear(
        pp[i - 1],
        #[trigger] pp[i],
        pp[i + 1],
    ) by {
        if i < path.len() - 1 {
            assert(pp[i - 1] == path[i - 1] && pp[i] == path[i] && pp[i + 1] == path[i + 1]);
            assert(!spec_collinear(path[i - 1], path[i], path[i + 1]));
        } else {
            assert(pp[i - 1] == path[path.len() - 2] && pp[i] == path[path.len() - 1] && pp[i
                + 1] == send);
        }
    }
    // the new direction crosses the newly retained edge
    assert(pp[pp.len() - 2] == sstart);
    lemma_cross_antisym(ux, uy, nxt.x - send.x, nxt.y - send.y);
    assert(spec_cross(send.x - sstart.x, send.y - sstart.y, nxt.x - send.x, nxt.y - send.y)
        != 0);
}

/// The cyclic successor indices of a ring position.
proof fn lemma_ring_indices(n: int, i: int)
    requires
        n >= 3,
        0 <= i < n,
    ensures
        i < n - 2 ==> (i + 1) % n == i + 1 && (i + 2) % n == i + 2,
        i == n - 2 ==> (i + 1) % n == n - 1 && (i + 2) % n == 0,
        i == n - 1 ==> (i + 1) % n == 0 && (i + 2) % n == 1,
{
    if i < n - 2 {
        vstd::arithmetic::div_mod::lemma_small_mod((i + 1) as nat, n as nat);
        vstd::arithmetic::div_mod::lemma_small_mod((i + 2) as nat, n as nat);
    } else if i == n - 2 {
        vstd::arithmetic::div_mod::lemma_small_mod((n - 1) as nat, n as nat);
        vstd::arithmetic::div_mod::lemma_mod_self_0(n);
    } else {
        vstd::arithmetic::div_mod::lemma_mod_self_0(n);
        vstd::arithmetic::div_mod::lemma_small_mod(1nat, n as nat);
        vstd::arithmetic::div_mod::lemma_mod_add_multiples_vanish(1, n);
    }
}

/// Quantization commutes with translation by a whole number of grid steps.
pub proof fn lemma_quantize_translate(x: int, d: int)
    requires
        d % (GRID as int) == 0,
    ensures
        spec_quantize(x + d) == spec_quantize(x) + d,
{
    let g = GRID as int;
    let k = d / g;
    vstd::arithmetic::div_mod::lemma_fundamental_div_mod(d, g);
    assert(d == k * g);
    lemma_round_div_shift(x, g, k);
    assert(round_div(x + d, g) == round_div(x, g) + k);
    assert(g * (round_div(x, g) + k) == g * round_div(x, g) + g * k) by (nonlinear_arith);
    assert(g * k == k * g) by (nonlinear_arith);
}

/// Linear interpolation along an edge commutes with a horizontal shift.
proof fn lemma_interp_translate(a0: int, a1: int, z0: int, z1: int, zc: int, d: int)
    requires
        z0 != z1,
    ensures
        spec_interp(a0 + d, a1 + d, z0, z1, zc) == spec_interp(a0, a1, z0, z1, zc) + d,
{
    let den = z1 - z0;
    let n = a0 * (z1 - zc) + a1 * (zc - z0);
    assert((a0 + d) * (z1 - zc) + (a1 + d) * (zc - z0) == n + d * den) by (nonlinear_arith)
        requires
            n == a0 * (z1 - zc) + a1 * (zc - z0),
            den == z1 - z0,
    {}
    if den >= 1 {
        lemma_round_div_shift(n, den, d);
        assert(n + d * den == n + d * den);
    } else {
        assert(-(n + d * den) == -n + d * (-den)) by (nonlinear_arith);
        lemma_round_div_shift(-n, -den, d);
    }
}

/// A quantized segment translates with its endpoints when the shift is a
/// whole number of grid steps; in particular it is discarded for one
/// position exactly when it is discarded for the other.
proof fn lemma_quantized_pair_translate(ax: int, ay: int, bx: int, by: int, dx: int, dy: int)
    requires
        dx % (GRID as int) == 0,
        dy % (GRID as int) == 0,
        -INTERSECT_LIMIT <= ax <= INTERSECT_LIMIT,
        -INTERSECT_LIMIT <= ay <= INTERSECT_LIMIT,
        -INTERSECT_LIMIT <= bx <= INTERSECT_LIMIT,
        -INTERSECT_LIMIT <= by <= INTERSECT_LIMIT,
        -INTERSECT_LIMIT <= ax + dx <= INTERSECT_LIMIT,
        -INTERSECT_LIMIT <= ay + dy <= INTERSECT_LIMIT,
        -INTERSECT_LIMIT <= bx + dx <= INTERSECT_LIMIT,
        -INTERSECT_LIMIT <= by + dy <= INTERSECT_LIMIT,
    ensures
        match (spec_quantized_pair(ax, ay, bx, by), spec_quantized_pair(
            ax + dx,
            ay + dy,
            bx + dx,
            by + dy,
        )) {
            (None, None) => true,
            (Some(s1), Some(s2)) => s2.0.x == s1.0.x + dx && s2.0.y == s1.0.y + dy && s2.1.x
                == s1.1.x + dx && s2.1.y == s1.1.y + dy,
            _ => false,
        },
{
    lemma_quantize_translate(ax, dx);
    lemma_quantize_translate(ay, dy);
    lemma_quantize_translate(bx, dx);
    lemma_quantize_translate(by, dy);
    lemma_quantize_ok(ax);
    lemma_quantize_ok(ay);
    lemma_quantize_ok(bx);
    lemma_quantize_ok(by);
    lemma_quantize_ok(ax + dx);
    lemma_quantize_ok(ay + dy);
    lemma_quantize_ok(bx + dx);
    lemma_quantize_ok(by + dy);
}

/// The segment a triangle contributes at one plane translates with the
/// triangle, for horizontal shifts by whole grid steps: `t2` is `t1` moved
/// by `(dx, dy)`, and its segment is `t1`'s moved by `(dx, dy)`.
pub proof fn lemma_layer_segment_translate(
    t1: Triangle,
    t2: Triangle,
    zc: int,
    dx: int,
    dy: int,
)
    requires
        dx % (GRID as int) == 0,
        dy % (GRID as int) == 0,
        triangle_ok(t1),
        triangle_ok(t2),
        coord_ok(zc),
        t2.p0.x == t1.p0.x + dx && t2.p0.y == t1.p0.y + dy && t2.p0.z == t1.p0.z,
        t2.p1.x == t1.p1.x + dx && t2.p1.y == t1.p1.y + dy && t2.p1.z == t1.p1.z,
        t2.p2.x == t1.p2.x + dx && t2.p2.y == t1.p2.y + dy && t2.p2.z == t1.p2.z,
    ensures
        match (spec_layer_segment(t1, zc), spec_layer_segment(t2, zc)) {
            (None, None) => true,
            (Some(s1), Some(s2)) => s2.0.x == s1.0.x + dx && s2.0.y == s1.0.y + dy && s2.1.x
                == s1.1.x + dx && s2.1.y == s1.1.y + dy,
            _ => false,
        },
{
    let a = spec_near(t1.p0.z as int, zc);
    let b = spec_near(t1.p1.z as int, zc);
    let c = spec_near(t1.p2.z as int, zc);
    assert(tri_zmin(t2) == tri_zmin(t1) && tri_zmax(t2) == tri_zmax(t1));
    if a && b && !c {
        lemma_quantized_pair_translate(
            t1.p0.x as int,
            t1.p0.y as int,
            t1.p1.x as int,
            t1.p1.y as int,
            dx,
            dy,
        );
    } else if !a && b && c {
        lemma_quantized_pair_translate(
            t1.p1.x as int,
            t1.p1.y as int,
            t1.p2.x as int,
            t1.p2.y as int,
            dx,
            dy,
        );
    } else if a && !b && c {
        lemma_quantized_pair_translate(
            t1.p2.x as int,
            t1.p2.y as int,
            t1.p0.x as int,
            t1.p0.y as int,
            dx,
            dy,
        );
    } else if !(a && b && c) && !(a && !b && !c && (spec_near(t1.p0.z as int, tri_zmin(t1))
        || spec_near(t1.p0.z as int, tri_zmax(t1)))) && !(!a && b && !c && (spec_near(
        t1.p1.z as int,
        tri_zmin(t1),
    ) || spec_near(t1.p1.z as int, tri_zmax(t1)))) && !(!a && !b && c && (spec_near(
        t1.p2.z as int,
        tri_zmin(t1),
    ) || spec_near(t1.p2.z as int, tri_zmax(t1)))) {
        // the generic case: each edge's crossing shifts with the triangle
        lemma_edge_translate(t1.p0, t1.p1, t2.p0, t2.p1, a, b, zc, dx, dy);
        lemma_edge_translate(t1.p1, t1.p2, t2.p1, t2.p2, b, c, zc, dx, dy);
        lemma_edge_translate(t1.p2, t1.p0, t2.p2, t2.p0, c, a, zc, dx, dy);
        let ab1 = spec_intersect(t1.p0, t1.p1, zc);
        let bc1 = spec_intersect(t1.p1, t1.p2, zc);
        let ca1 = spec_intersect(t1.p2, t1.p0, zc);
        if crate::slicer::spec_intersection_count(t1, zc) == 2 {
            let first1 = if ab1 is Some {
                ab1->0
            } else {
                bc1->0
            };
            let second1 = if ab1 is Some {
                if bc1 is Some {
                    bc1->0
                } else {
                    ca1->0
                }
            } else {
                ca1->0
            };
            crate::slicer::lemma_edge_interp_ok(t1.p0, t1.p1, a, b, zc);
            crate::slicer::lemma_edge_interp_ok(t1.p1, t1.p2, b, c, zc);
            crate::slicer::lemma_edge_interp_ok(t1.p2, t1.p0, c, a, zc);
            crate::slicer::lemma_edge_interp_ok(t2.p0, t2.p1, a, b, zc);
            crate::slicer::lemma_edge_interp_ok(t2.p1, t2.p2, b, c, zc);
            crate::slicer::lemma_edge_interp_ok(t2.p2, t2.p0, c, a, zc);
            lemma_quantized_pair_translate(first1.0, first1.1, second1.0, second1.1, dx, dy);
            lemma_quantized_pair_translate(second1.0, second1.1, first1.0, first1.1, dx, dy);
        }
    }
}

/// An edge's crossing with a plane shifts with the edge; existence of the
/// crossing is unaffected.
proof fn lemma_edge_translate(
    p0: crate::geometry::Vector3,
    p1: crate::geometry::Vector3,
    q0: crate::geometry::Vector3,
    q1: crate::geometry::Vector3,
    e0: bool,
    e1: bool,
    zc: int,
    dx: int,
    dy: int,
)
    requires
        q0.x == p0.x + dx && q0.y == p0.y + dy && q0.z == p0.z,
        q1.x == p1.x + dx && q1.y == p1.y + dy && q1.z == p1.z,
        e0 == spec_near(p0.z as int, zc),
        e1 == spec_near(p1.z as int, zc),
    ensures
        spec_intersect(p0, p1, zc) is Some <==> spec_intersect(q0, q1, zc) is Some,
        !(e0 && e1) && spec_intersect(p0, p1, zc) is Some ==> {
            let s1 = spec_intersect(p0, p1, zc)->0;
            let s2 = spec_intersect(q0, q1, zc)->0;
            s2.0 == s1.0 + dx && s2.1 == s1.1 + dy
        },
{
    if !(e0 && e1) && spec_intersect(p0, p1, zc) is Some {
        if p0.z == p1.z {
            assert(!e0 && !e1);
            assert(crate::geometry::spec_same_side(p0.z as int - zc, p1.z as int - zc));
            assert(false);
        }
        lemma_interp_translate(p0.x as int, p1.x as int, p0.z as int, p1.z as int, zc, dx);
        lemma_interp_translate(p0.y as int, p1.y as int, p0.z as int, p1.z as int, zc, dy);
    }
}

/// The segment a triangle contributes is unchanged when triangle and plane
/// move up together: `t2` is `t1` raised by `dz`, and at the raised plane
/// it emits exactly `t1`'s segment.
pub proof fn lemma_layer_segment_translate_z(t1: Triangle, t2: Triangle, zc: int, dz: int)
    requires
        t2.p0.x == t1.p0.x && t2.p0.y == t1.p0.y && t2.p0.z == t1.p0.z + dz,
        t2.p1.x == t1.p1.x && t2.p1.y == t1.p1.y && t2.p1.z == t1.p1.z + dz,
        t2.p2.x == t1.p2.x && t2.p2.y == t1.p2.y && t2.p2.z == t1.p2.z + dz,
    ensures
        spec_layer_segment(t2, zc + dz) == spec_layer_segment(t1, zc),
{
    assert(tri_zmin(t2) == tri_zmin(t1) + dz && tri_zmax(t2) == tri_zmax(t1) + dz);
    lemma_edge_translate_z(t1.p0, t1.p1, t2.p0, t2.p1, zc, dz);
    lemma_edge_translate_z(t1.p1, t1.p2, t2.p1, t2.p2, zc, dz);
    lemma_edge_translate_z(t1.p2, t1.p0, t2.p2, t2.p0, zc, dz);
}

/// An edge raised together with the plane has the same crossing.
proof fn lemma_edge_translate_z(
    p0: crate::geometry::Vector3,
    p1: crate::geometry::Vector3,
    q0: crate::geometry::Vector3,
    q1: crate::geometry::Vector3,
    zc: int,
    dz: int,
)
    requires
        q0.x == p0.x && q0.y == p0.y && q0.z == p0.z + dz,
        q1.x == p1.x && q1.y == p1.y && q1.z == p1.z + dz,
    ensures
        spec_intersect(q0, q1, zc + dz) == spec_intersect(p0, p1, zc),
{
    let n1x = (p0.x as int) * (p1.z as int - zc) + (p1.x as int) * (zc - p0.z as int);
    let n2x = (q0.x as int) * (q1.z as int - (zc + dz)) + (q1.x as int) * ((zc + dz)
        - q0.z as int);
    assert(n1x == n2x) by (nonlinear_arith)
        requires
            n1x == (p0.x as int) * (p1.z as int - zc) + (p1.x as int) * (zc - p0.z as int),
            n2x == (q0.x as int) * (q1.z as int - (zc + dz)) + (q1.x as int) * ((zc + dz)
                - q0.z as int),
            q0.x == p0.x && q0.z == p0.z + dz,
            q1.x == p1.x && q1.z == p1.z + dz,
    {}
    let n1y = (p0.y as int) * (p1.z as int - zc) + (p1.y as int) * (zc - p0.z as int);
    let n2y = (q0.y as int) * (q1.z as int - (zc + dz)) + (q1.y as int) * ((zc + dz)
        - q0.z as int);
    assert(n1y == n2y) by (nonlinear_arith)
        requires
            n1y == (p0.y as int) * (p1.z as int - zc) + (p1.y as int) * (zc - p0.z as int),
            n2y == (q0.y as int) * (q1.z as int - (zc + dz)) + (q1.y as int) * ((zc + dz)
                - q0.z as int),
            q0.y == p0.y && q0.z == p0.z + dz,
            q1.y == p1.y && q1.z == p1.z + dz,
    {}
}

/// `q` is `p` moved by `(dx, dy)`.
pub open spec fn rel_p(p: Vector2, q: Vector2, dx: int, dy: int) -> bool {
    q.x == p.x + dx && q.y == p.y + dy
}

/// The second entry list is the first moved by `(dx, dy)`, entry for entry.
pub open spec fn rel_es(
    a: Seq<(Vector2, Vector2)>,
    b: Seq<(Vector2, Vector2)>,
    dx: int,
    dy: int,
) -> bool {
    b.len() == a.len() && forall|i: int|
        0 <= i < a.len() ==> rel_p((#[trigger] a[i]).0, (#[trigger] b[i]).0, dx, dy) && rel_p(
            a[i].1,
            b[i].1,
            dx,
            dy,
        )
}

/// The second stack of layer maps is the first moved by `(dx, dy)`.
pub open spec fn rel_maps(
    a: Seq<Seq<(Vector2, Vector2)>>,
    b: Seq<Seq<(Vector2, Vector2)>>,
    dx: int,
    dy: int,
) -> bool {
    b.len() == a.len() && forall|k: int|
        0 <= k < a.len() ==> rel_es(#[trigger] a[k], #[trigger] b[k], dx, dy)
}

/// The second triangle is the first moved horizontally by `(dx, dy)`.
pub open spec fn rel_tri(t1: Triangle, t2: Triangle, dx: int, dy: int) -> bool {
    &&& t2.p0.x == t1.p0.x + dx && t2.p0.y == t1.p0.y + dy && t2.p0.z == t1.p0.z
    &&& t2.p1.x == t1.p1.x + dx && t2.p1.y == t1.p1.y + dy && t2.p1.z == t1.p1.z
    &&& t2.p2.x == t1.p2.x + dx && t2.p2.y == t1.p2.y + dy && t2.p2.z == t1.p2.z
}

/// The second mesh is the first moved horizontally by `(dx, dy)`.
pub open spec fn rel_ts(ts1: Seq<Triangle>, ts2: Seq<Triangle>, dx: int, dy: int) -> bool {
    ts2.len() == ts1.len() && forall|i: int|
        0 <= i < ts1.len() ==> rel_tri(#[trigger] ts1[i], #[trigger] ts2[i], dx, dy)
}

/// Translated maps look up translated keys at the same position.
proof fn lemma_key_index_rel(
    a: Seq<(Vector2, Vector2)>,
    b: Seq<(Vector2, Vector2)>,
    k1: Vector2,
    k2: Vector2,
    dx: int,
    dy: int,
)
    requires
        rel_es(a, b, dx, dy),
        rel_p(k1, k2, dx, dy),
    ensures
        key_index(b, k2) == key_index(a, k1),
    decreases a.len(),
{
    if a.len() > 0 {
        assert(rel_p(a[0].0, b[0].0, dx, dy));
        assert((b[0].0 == k2) == (a[0].0 == k1));
        assert forall|i: int| 0 <= i < a.drop_first().len() implies rel_p(
            (#[trigger] a.drop_first()[i]).0,
            (#[trigger] b.drop_first()[i]).0,
            dx,
            dy,
        ) && rel_p(a.drop_first()[i].1, b.drop_first()[i].1, dx, dy) by {
            assert(a.drop_first()[i] == a[i + 1] && b.drop_first()[i] == b[i + 1]);
        }
        lemma_key_index_rel(a.drop_first(), b.drop_first(), k1, k2, dx, dy);
    }
}

/// Insertion into translated maps yields translated maps.
proof fn lemma_upsert_rel(
    a: Seq<(Vector2, Vector2)>,
    b: Seq<(Vector2, Vector2)>,
    k1: Vector2,
    k2: Vector2,
    v1: Vector2,
    v2: Vector2,
    dx: int,
    dy: int,
)
    requires
        rel_es(a, b, dx, dy),
        rel_p(k1, k2, dx, dy),
        rel_p(v1, v2, dx, dy),
    ensures
        rel_es(
            crate::segment_map::spec_upsert(a, k1, v1),
            crate::segment_map::spec_upsert(b, k2, v2),
            dx,
            dy,
        ),
{
    lemma_key_index_rel(a, b, k1, k2, dx, dy);
    lemma_key_index(a, k1);
}

/// Storing translated segments at the same layer keeps stacks translated.
proof fn lemma_insert_at_rel(
    a: Seq<Seq<(Vector2, Vector2)>>,
    b: Seq<Seq<(Vector2, Vector2)>>,
    layer: int,
    s1: Vector2,
    s2: Vector2,
    e1: Vector2,
    e2: Vector2,
    dx: int,
    dy: int,
)
    requires
        rel_maps(a, b, dx, dy),
        0 <= layer,
        rel_p(s1, s2, dx, dy),
        rel_p(e1, e2, dx, dy),
    ensures
        rel_maps(
            crate::slicer::spec_insert_at(a, layer, s1, e1),
            crate::slicer::spec_insert_at(b, layer, s2, e2),
            dx,
            dy,
        ),
{
    let pa = crate::slicer::spec_pad(a, layer + 1);
    let pb = crate::slicer::spec_pad(b, layer + 1);
    assert forall|k: int| 0 <= k < pa.len() implies rel_es(#[trigger] pa[k], #[trigger] pb[k], dx, dy)
        by {
        if k < a.len() {
            assert(pa[k] == a[k] && pb[k] == b[k]);
        } else {
            assert(pa[k] =~= Seq::<(Vector2, Vector2)>::empty());
            assert(pb[k] =~= Seq::<(Vector2, Vector2)>::empty());
        }
    }
    lemma_upsert_rel(pa[layer], pb[layer], s1, s2, e1, e2, dx, dy);
    let ra = crate::slicer::spec_insert_at(a, layer, s1, e1);
    let rb = crate::slicer::spec_insert_at(b, layer, s2, e2);
    assert forall|k: int| 0 <= k < ra.len() implies rel_es(#[trigger] ra[k], #[trigger] rb[k], dx, dy)
        by {
        if k != layer {
            assert(ra[k] == pa[k] && rb[k] == pb[k]);
        }
    }
}

/// Emitting a translated triangle into a range of in-bound planes keeps
/// the stacks translated.
proof fn lemma_apply_layers_rel(
    a: Seq<Seq<(Vector2, Vector2)>>,
    b: Seq<Seq<(Vector2, Vector2)>>,
    t1: Triangle,
    t2: Triangle,
    h: int,
    k: int,
    hi: int,
    dx: int,
    dy: int,
)
    requires
        rel_maps(a, b, dx, dy),
        rel_tri(t1, t2, dx, dy),
        dx % (GRID as int) == 0,
        dy % (GRID as int) == 0,
        triangle_ok(t1),
        triangle_ok(t2),
        forall|j: int| k <= j <= hi ==> -crate::geometry::COORD_LIMIT <= #[trigger] (j * h)
            <= crate::geometry::COORD_LIMIT,
    ensures
        rel_maps(
            crate::slicer::spec_apply_layers(a, t1, h, k, hi),
            crate::slicer::spec_apply_layers(b, t2, h, k, hi),
            dx,
            dy,
        ),
    decreases hi + 1 - k,
{
    if k > hi || k < 0 {
    } else {
        let zc = k * h;
        lemma_layer_segment_translate(t1, t2, zc, dx, dy);
        let m1 = match spec_layer_segment(t1, zc) {
            Some(s) => crate::slicer::spec_insert_at(a, k, s.0, s.1),
            None => a,
        };
        let m2 = match spec_layer_segment(t2, zc) {
            Some(s) => crate::slicer::spec_insert_at(b, k, s.0, s.1),
            None => b,
        };
        match (spec_layer_segment(t1, zc), spec_layer_segment(t2, zc)) {
            (Some(s1), Some(s2)) => {
                crate::slicer::lemma_layer_segment_ok(t1, zc);
                crate::slicer::lemma_layer_segment_ok(t2, zc);
                lemma_insert_at_rel(a, b, k, s1.0, s2.0, s1.1, s2.1, dx, dy);
            },
            (None, None) => {},
            _ => {
                assert(false);
            },
        }
        lemma_apply_layers_rel(m1, m2, t1, t2, h, k + 1, hi, dx, dy);
    }
}

/// The layer maps of a horizontally translated mesh are the translated
/// layer maps of the mesh.
pub proof fn lemma_slice_maps_rel(
    ts1: Seq<Triangle>,
    ts2: Seq<Triangle>,
    h: int,
    dx: int,
    dy: int,
)
    requires
        rel_ts(ts1, ts2, dx, dy),
        dx % (GRID as int) == 0,
        dy % (GRID as int) == 0,
        h >= 1,
        forall|i: int| 0 <= i < ts1.len() ==> triangle_ok(#[trigger] ts1[i]),
        forall|i: int| 0 <= i < ts2.len() ==> triangle_ok(#[trigger] ts2[i]),
    ensures
        rel_maps(
            crate::slicer::spec_pad(
                crate::slicer::spec_slice_maps(ts1, h),
                crate::slicer::spec_total_layers(ts1, h),
            ),
            crate::slicer::spec_pad(
                crate::slicer::spec_slice_maps(ts2, h),
                crate::slicer::spec_total_layers(ts2, h),
            ),
            dx,
            dy,
        ),
    decreases ts1.len(),
{
    lemma_slice_maps_rel_core(ts1, ts2, h, dx, dy);
    if ts1.len() > 0 {
        lemma_mesh_zmax_rel(ts1, ts2, dx, dy);
    }
    let a = crate::slicer::spec_slice_maps(ts1, h);
    let b = crate::slicer::spec_slice_maps(ts2, h);
    assert(crate::slicer::spec_total_layers(ts2, h) == crate::slicer::spec_total_layers(ts1, h));
    let n = crate::slicer::spec_total_layers(ts1, h);
    let pa = crate::slicer::spec_pad(a, n);
    let pb = crate::slicer::spec_pad(b, n);
    assert forall|k: int| 0 <= k < pa.len() implies rel_es(#[trigger] pa[k], #[trigger] pb[k], dx, dy)
        by {
        if k < a.len() {
            assert(pa[k] == a[k] && pb[k] == b[k]);
        } else {
            assert(pa[k] =~= Seq::<(Vector2, Vector2)>::empty());
            assert(pb[k] =~= Seq::<(Vector2, Vector2)>::empty());
        }
    }
}

/// A translated mesh has the same top height.
proof fn lemma_mesh_zmax_rel(ts1: Seq<Triangle>, ts2: Seq<Triangle>, dx: int, dy: int)
    requires
        rel_ts(ts1, ts2, dx, dy),
        ts1.len() > 0,
    ensures
        crate::slicer::spec_mesh_zmax(ts2) == crate::slicer::spec_mesh_zmax(ts1),
    decreases ts1.len(),
{
    assert(rel_tri(ts1.last(), ts2.last(), dx, dy));
    assert(tri_zmax(ts2.last()) == tri_zmax(ts1.last()));
    if ts1.len() > 1 {
        assert forall|i: int| 0 <= i < ts1.drop_last().len() implies rel_tri(
            #[trigger] ts1.drop_last()[i],
            #[trigger] ts2.drop_last()[i],
            dx,
            dy,
        ) by {
            assert(ts1.drop_last()[i] == ts1[i] && ts2.drop_last()[i] == ts2[i]);
        }
        lemma_mesh_zmax_rel(ts1.drop_last(), ts2.drop_last(), dx, dy);
    }
}

/// The unpadded layer maps of a translated mesh are translated.
proof fn lemma_slice_maps_rel_core(
    ts1: Seq<Triangle>,
    ts2: Seq<Triangle>,
    h: int,
    dx: int,
    dy: int,
)
    requires
        rel_ts(ts1, ts2, dx, dy),
        dx % (GRID as int) == 0,
        dy % (GRID as int) == 0,
        h >= 1,
        forall|i: int| 0 <= i < ts1.len() ==> triangle_ok(#[trigger] ts1[i]),
        forall|i: int| 0 <= i < ts2.len() ==> triangle_ok(#[trigger] ts2[i]),
    ensures
        rel_maps(
            crate::slicer::spec_slice_maps(ts1, h),
            crate::slicer::spec_slice_maps(ts2, h),
            dx,
            dy,
        ),
    decreases ts1.len(),
{
    if ts1.len() == 0 {
    } else {
        assert forall|i: int| 0 <= i < ts1.drop_last().len() implies rel_tri(
            #[trigger] ts1.drop_last()[i],
            #[trigger] ts2.drop_last()[i],
            dx,
            dy,
        ) by {
            assert(ts1.drop_last()[i] == ts1[i] && ts2.drop_last()[i] == ts2[i]);
        }
        assert forall|i: int| 0 <= i < ts1.drop_last().len() implies triangle_ok(
            #[trigger] ts1.drop_last()[i],
        ) by {
            assert(ts1.drop_last()[i] == ts1[i]);
        }
        assert forall|i: int| 0 <= i < ts2.drop_last().len() implies triangle_ok(
            #[trigger] ts2.drop_last()[i],
        ) by {
            assert(ts2.drop_last()[i] == ts2[i]);
        }
        lemma_slice_maps_rel_core(ts1.drop_last(), ts2.drop_last(), h, dx, dy);
        let t1 = ts1.last();
        let t2 = ts2.last();
        assert(rel_tri(t1, t2, dx, dy));
        assert(tri_zmin(t2) == tri_zmin(t1) && tri_zmax(t2) == tri_zmax(t1));
        crate::slicer::lemma_layer_range_char(tri_zmin(t1), tri_zmax(t1), h);
        match crate::slicer::spec_layer_range(tri_zmin(t1), tri_zmax(t1), h) {
            None => {},
            Some(lohi) => {
                assert forall|j: int| lohi.0 <= j <= lohi.1 implies -crate::geometry::COORD_LIMIT
                    <= #[trigger] (j * h) <= crate::geometry::COORD_LIMIT by {
                    assert(crate::slicer::plane_in_range(j, tri_zmin(t1), tri_zmax(t1), h));
                }
                lemma_apply_layers_rel(
                    crate::slicer::spec_slice_maps(ts1.drop_last(), h),
                    crate::slicer::spec_slice_maps(ts2.drop_last(), h),
                    t1,
                    t2,
                    h,
                    lohi.0,
                    lohi.1,
                    dx,
                    dy,
                );
            },
        }
    }
}

/// The second path is the first moved by `(dx, dy)`, vertex for vertex.
pub open spec fn rel_path(a: Seq<Vector2>, b: Seq<Vector2>, dx: int, dy: int) -> bool {
    b.len() == a.len() && forall|i: int|
        0 <= i < a.len() ==> rel_p(#[trigger] a[i], #[trigger] b[i], dx, dy)
}

/// The second list of paths is the first moved by `(dx, dy)`.
pub open spec fn rel_paths(a: Seq<Seq<Vector2>>, b: Seq<Seq<Vector2>>, dx: int, dy: int) -> bool {
    b.len() == a.len() && forall|i: int|
        0 <= i < a.len() ==> rel_path(#[trigger] a[i], #[trigger] b[i], dx, dy)
}

/// Assembling translated entries yields translated paths: every branch of
/// the walk decides by point equalities and difference vectors, which a
/// translation preserves.
proof fn lemma_assemble_rel(
    es1: Seq<(Vector2, Vector2)>,
    es2: Seq<(Vector2, Vector2)>,
    st1: WalkState,
    st2: WalkState,
    dx: int,
    dy: int,
)
    requires
        rel_es(es1, es2, dx, dy),
        match (st1, st2) {
            (WalkState::Pick, WalkState::Pick) => true,
            (
                WalkState::Walk {
                    path: path_a,
                    path_start: ps_a,
                    seg_start: ss_a,
                    seg_end: se_a,
                    dir_x: dx_a,
                    dir_y: dy_a,
                },
                WalkState::Walk {
                    path: path_b,
                    path_start: ps_b,
                    seg_start: ss_b,
                    seg_end: se_b,
                    dir_x: dx_b,
                    dir_y: dy_b,
                },
            ) => rel_path(path_a, path_b, dx, dy) && rel_p(ps_a, ps_b, dx, dy) && rel_p(
                ss_a,
                ss_b,
                dx,
                dy,
            ) && rel_p(se_a, se_b, dx, dy) && dx_b == dx_a && dy_b == dy_a,
            _ => false,
        },
    ensures
        rel_paths(spec_assemble(es1, st1), spec_assemble(es2, st2), dx, dy),
    decreases es1.len(), crate::contour::walk_rank(st1),
{
    match (st1, st2) {
        (WalkState::Pick, WalkState::Pick) => {
            if es1.len() > 0 {
                let e1 = es1[0];
                let e2 = es2[0];
                let n1 = WalkState::Walk {
                    path: seq![e1.0],
                    path_start: e1.0,
                    seg_start: e1.0,
                    seg_end: e1.1,
                    dir_x: e1.1.x - e1.0.x,
                    dir_y: e1.1.y - e1.0.y,
                };
                let n2 = WalkState::Walk {
                    path: seq![e2.0],
                    path_start: e2.0,
                    seg_start: e2.0,
                    seg_end: e2.1,
                    dir_x: e2.1.x - e2.0.x,
                    dir_y: e2.1.y - e2.0.y,
                };
                lemma_drop_first_rel(es1, es2, dx, dy);
                assert(rel_path(seq![e1.0], seq![e2.0], dx, dy));
                lemma_assemble_rel(es1.drop_first(), es2.drop_first(), n1, n2, dx, dy);
                assert(spec_assemble(es1, st1) == spec_assemble(es1.drop_first(), n1));
                assert(spec_assemble(es2, st2) == spec_assemble(es2.drop_first(), n2));
            }
        },
        (
            WalkState::Walk {
                path: path_a,
                path_start: ps_a,
                seg_start: ss_a,
                seg_end: se_a,
                dir_x: dx_a,
                dir_y: dy_a,
            },
            WalkState::Walk {
                path: path_b,
                path_start: ps_b,
                seg_start: ss_b,
                seg_end: se_b,
                dir_x: dx_b,
                dir_y: dy_b,
            },
        ) => {
            lemma_key_index_rel(es1, es2, se_a, se_b, dx, dy);
            if !has_key(es1, se_a) {
                lemma_assemble_rel(es1, es2, WalkState::Pick, WalkState::Pick, dx, dy);
                assert(spec_assemble(es1, st1) == spec_assemble(es1, WalkState::Pick));
                assert(spec_assemble(es2, st2) == spec_assemble(es2, WalkState::Pick));
            } else {
                lemma_key_index(es1, se_a);
                lemma_key_index(es2, se_b);
                let ki = key_index(es1, se_a);
                let nxt1 = value_at(es1, se_a);
                let nxt2 = value_at(es2, se_b);
                assert(rel_p(nxt1, nxt2, dx, dy));
                let f1 = spec_remove(es1, se_a);
                let f2 = spec_remove(es2, se_b);
                lemma_remove_rel(es1, es2, ki, dx, dy);
                let keep = spec_cross(dx_a, dy_a, nxt1.x - ss_a.x, nxt1.y - ss_a.y) != 0;
                assert(nxt2.x - ss_b.x == nxt1.x - ss_a.x && nxt2.y - ss_b.y == nxt1.y - ss_a.y);
                let p1 = if keep {
                    path_a.push(se_a)
                } else {
                    path_a
                };
                let p2 = if keep {
                    path_b.push(se_b)
                } else {
                    path_b
                };
                assert(rel_path(p1, p2, dx, dy));
                let nss1 = if keep {
                    se_a
                } else {
                    ss_a
                };
                let nss2 = if keep {
                    se_b
                } else {
                    ss_b
                };
                let ndx = if keep {
                    nxt1.x - se_a.x
                } else {
                    dx_a
                };
                let ndy = if keep {
                    nxt1.y - se_a.y
                } else {
                    dy_a
                };
                assert((nxt2 == ps_b) == (nxt1 == ps_a));
                if nxt1 == ps_a {
                    let c1 = spec_close_path(p1, nss1, se_a, ps_a);
                    let c2 = spec_close_path(p2, nss2, se_b, ps_b);
                    assert(rel_path(c1, c2, dx, dy)) by {
                        if p1.len() >= 2 {
                            assert(p2[1].x - p2[0].x == p1[1].x - p1[0].x && p2[1].y - p2[0].y
                                == p1[1].y - p1[0].y);
                            assert(ps_b.x - se_b.x == ps_a.x - se_a.x && ps_b.y - se_b.y == ps_a.y
                                - se_a.y);
                        }
                        if c1 == p1.drop_last().update(0, nss1) {
                            assert forall|i: int| 0 <= i < c1.len() implies rel_p(
                                #[trigger] c1[i],
                                #[trigger] c2[i],
                                dx,
                                dy,
                            ) by {
                                if i > 0 {
                                    assert(c1[i] == p1[i] && c2[i] == p2[i]);
                                }
                            }
                        }
                    }
                    lemma_assemble_rel(f1, f2, WalkState::Pick, WalkState::Pick, dx, dy);
                    let rest1 = spec_assemble(f1, WalkState::Pick);
                    let rest2 = spec_assemble(f2, WalkState::Pick);
                    if c1.len() >= 3 {
                        assert(spec_assemble(es1, st1) == seq![c1] + rest1);
                        assert(spec_assemble(es2, st2) == seq![c2] + rest2);
                        assert forall|i: int| 0 <= i < (seq![c1] + rest1).len() implies rel_path(
                            #[trigger] (seq![c1] + rest1)[i],
                            #[trigger] (seq![c2] + rest2)[i],
                            dx,
                            dy,
                        ) by {
                            if i == 0 {
                                assert((seq![c1] + rest1)[0] == c1 && (seq![c2] + rest2)[0] == c2);
                            } else {
                                assert((seq![c1] + rest1)[i] == rest1[i - 1] && (seq![c2]
                                    + rest2)[i] == rest2[i - 1]);
                            }
                        }
                    } else {
                        assert(spec_assemble(es1, st1) == rest1);
                        assert(spec_assemble(es2, st2) == rest2);
                    }
                } else {
                    let n1 = WalkState::Walk {
                        path: p1,
                        path_start: ps_a,
                        seg_start: nss1,
                        seg_end: nxt1,
                        dir_x: ndx,
                        dir_y: ndy,
                    };
                    let n2 = WalkState::Walk {
                        path: p2,
                        path_start: ps_b,
                        seg_start: nss2,
                        seg_end: nxt2,
                        dir_x: ndx,
                        dir_y: ndy,
                    };
                    lemma_assemble_rel(f1, f2, n1, n2, dx, dy);
                    assert(spec_assemble(es1, st1) == spec_assemble(f1, n1));
                    assert(spec_assemble(es2, st2) == spec_assemble(f2, n2));
                }
            }
        },
        _ => {},
    }
}

/// Dropping the first entries keeps translated lists translated.
proof fn lemma_drop_first_rel(
    es1: Seq<(Vector2, Vector2)>,
    es2: Seq<(Vector2, Vector2)>,
    dx: int,
    dy: int,
)
    requires
        rel_es(es1, es2, dx, dy),
        es1.len() > 0,
    ensures
        rel_es(es1.drop_first(), es2.drop_first(), dx, dy),
{
    assert forall|i: int| 0 <= i < es1.drop_first().len() implies rel_p(
        (#[trigger] es1.drop_first()[i]).0,
        (#[trigger] es2.drop_first()[i]).0,
        dx,
        dy,
    ) && rel_p(es1.drop_first()[i].1, es2.drop_first()[i].1, dx, dy) by {
        assert(es1.drop_first()[i] == es1[i + 1] && es2.drop_first()[i] == es2[i + 1]);
    }
}

/// Removing the same position keeps translated lists translated.
proof fn lemma_remove_rel(
    es1: Seq<(Vector2, Vector2)>,
    es2: Seq<(Vector2, Vector2)>,
    ki: int,
    dx: int,
    dy: int,
)
    requires
        rel_es(es1, es2, dx, dy),
        0 <= ki < es1.len(),
    ensures
        rel_es(es1.remove(ki), es2.remove(ki), dx, dy),
{
    es1.remove_ensures(ki);
    es2.remove_ensures(ki);
    assert forall|i: int| 0 <= i < es1.remove(ki).len() implies rel_p(
        (#[trigger] es1.remove(ki)[i]).0,
        (#[trigger] es2.remove(ki)[i]).0,
        dx,
        dy,
    ) && rel_p(es1.remove(ki)[i].1, es2.remove(ki)[i].1, dx, dy) by {
        if i < ki {
            assert(es1.remove(ki)[i] == es1[i] && es2.remove(ki)[i] == es2[i]);
        } else {
            assert(es1.remove(ki)[i] == es1[i + 1] && es2.remove(ki)[i] == es2[i + 1]);
        }
    }
}

/// Slicing a horizontally translated mesh translates every vertex of every
/// path of every layer by the same amount, exactly, for translations by
/// whole grid steps.
pub proof fn lemma_slice_translate_xy(
    ts1: Seq<Triangle>,
    ts2: Seq<Triangle>,
    h: int,
    dx: int,
    dy: int,
)
    requires
        rel_ts(ts1, ts2, dx, dy),
        dx % (GRID as int) == 0,
        dy % (GRID as int) == 0,
        h >= 1,
        forall|i: int| 0 <= i < ts1.len() ==> triangle_ok(#[trigger] ts1[i]),
        forall|i: int| 0 <= i < ts2.len() ==> triangle_ok(#[trigger] ts2[i]),
    ensures
        spec_slice(ts2, h).contours.len() == spec_slice(ts1, h).contours.len(),
        forall|k: int|
            0 <= k < spec_slice(ts1, h).contours.len() ==> rel_paths(
                (#[trigger] spec_slice(ts1, h).contours[k]).paths,
                spec_slice(ts2, h).contours[k].paths,
                dx,
                dy,
            ),
{
    lemma_slice_maps_rel(ts1, ts2, h, dx, dy);
    let m1 = crate::slicer::spec_pad(
        crate::slicer::spec_slice_maps(ts1, h),
        crate::slicer::spec_total_layers(ts1, h),
    );
    let m2 = crate::slicer::spec_pad(
        crate::slicer::spec_slice_maps(ts2, h),
        crate::slicer::spec_total_layers(ts2, h),
    );
    assert forall|k: int| 0 <= k < spec_slice(ts1, h).contours.len() implies rel_paths(
        (#[trigger] spec_slice(ts1, h).contours[k]).paths,
        spec_slice(ts2, h).contours[k].paths,
        dx,
        dy,
    ) by {
        assert(spec_slice(ts1, h).contours[k] == spec_contour(m1[k]));
        assert(spec_slice(ts2, h).contours[k] == spec_contour(m2[k]));
        lemma_assemble_rel(m1[k], m2[k], WalkState::Pick, WalkState::Pick, dx, dy);
    }
}

/// The second stack holds the first's layers `j` planes higher, with empty
/// layers below.
pub open spec fn shifted_maps(
    a: Seq<Seq<(Vector2, Vector2)>>,
    b: Seq<Seq<(Vector2, Vector2)>>,
    j: int,
) -> bool {
    &&& (a.len() == 0 ==> b.len() == 0)
    &&& (a.len() > 0 ==> b.len() == a.len() + j)
    &&& (forall|k: int| 0 <= k < a.len() ==> b[k + j] == #[trigger] a[k])
    &&& (forall|k: int| 0 <= k < b.len() && k < j ==> (#[trigger] b[k]).len() == 0)
}

/// The second triangle is the first raised by `dz`.
pub open spec fn rel_tri_z(t1: Triangle, t2: Triangle, dz: int) -> bool {
    &&& t2.p0.x == t1.p0.x && t2.p0.y == t1.p0.y && t2.p0.z == t1.p0.z + dz
    &&& t2.p1.x == t1.p1.x && t2.p1.y == t1.p1.y && t2.p1.z == t1.p1.z + dz
    &&& t2.p2.x == t1.p2.x && t2.p2.y == t1.p2.y && t2.p2.z == t1.p2.z + dz
}

/// The second mesh is the first raised by `dz`.
pub open spec fn rel_ts_z(ts1: Seq<Triangle>, ts2: Seq<Triangle>, dz: int) -> bool {
    ts2.len() == ts1.len() && forall|i: int|
        0 <= i < ts1.len() ==> rel_tri_z(#[trigger] ts1[i], #[trigger] ts2[i], dz)
}

/// Raising a height interval in `z >= 0` by `j` whole layer heights raises
/// its plane range by `j` indices.
proof fn lemma_layer_range_shift(zmin: int, zmax: int, h: int, j: int)
    requires
        h >= 1,
        j >= 0,
        0 <= zmin <= zmax,
    ensures
        match crate::slicer::spec_layer_range(zmin, zmax, h) {
            Some(lohi) => crate::slicer::spec_layer_range(zmin + j * h, zmax + j * h, h) == Some(
                (lohi.0 + j, lohi.1 + j),
            ),
            None => crate::slicer::spec_layer_range(zmin + j * h, zmax + j * h, h) is None,
        },
{
    vstd::arithmetic::mul::lemma_mul_nonnegative(j, h);
    vstd::arithmetic::div_mod::lemma_hoist_over_denominator(zmax, j, h as nat);
    assert((zmax + j * h) / h == zmax / h + j);
    if zmin == 0 {
        // the raised bottom sits exactly on plane j
        vstd::arithmetic::div_mod::lemma_hoist_over_denominator(h - 1, j, h as nat);
        assert((h - 1 + j * h) / h == (h - 1) / h + j);
        vstd::arithmetic::div_mod::lemma_basic_div(h - 1, h);
        if j > 0 {
            assert(zmin + j * h >= 1) by (nonlinear_arith)
                requires
                    j >= 1,
                    h >= 1,
                    zmin == 0,
            {}
        }
    } else {
        vstd::arithmetic::div_mod::lemma_hoist_over_denominator(zmin + h - 1, j, h as nat);
        assert((zmin + h - 1 + j * h) / h == (zmin + h - 1) / h + j);
        assert(zmin + j * h >= 1) by (nonlinear_arith)
            requires
                j >= 0,
                h >= 1,
                zmin >= 1,
        {}
    }
}

/// Storing the same segment `j` layers higher keeps the stacks shifted.
proof fn lemma_insert_at_shift(
    a: Seq<Seq<(Vector2, Vector2)>>,
    b: Seq<Seq<(Vector2, Vector2)>>,
    layer: int,
    s: Vector2,
    e: Vector2,
    j: int,
)
    requires
        shifted_maps(a, b, j),
        0 <= layer,
        j >= 0,
    ensures
        shifted_maps(
            crate::slicer::spec_insert_at(a, layer, s, e),
            crate::slicer::spec_insert_at(b, layer + j, s, e),
            j,
        ),
{
    let pa = crate::slicer::spec_pad(a, layer + 1);
    let pb = crate::slicer::spec_pad(b, layer + j + 1);
    assert(pb.len() == pa.len() + j);
    assert forall|k: int| 0 <= k < pa.len() implies pb[k + j] == #[trigger] pa[k] by {
        if k < a.len() {
            assert(pa[k] == a[k]);
            assert(k + j < b.len() || a.len() == 0);
            assert(pb[k + j] == b[k + j]);
        } else {
            assert(pa[k] =~= Seq::<(Vector2, Vector2)>::empty());
            if k + j < b.len() {
                assert(b[k + j].len() == 0 || a.len() > 0);
                if a.len() > 0 {
                    assert(k + j >= a.len() + j);
                    assert(false);
                }
                assert(pb[k + j] == b[k + j]);
                assert(pb[k + j] =~= Seq::<(Vector2, Vector2)>::empty());
            } else {
                assert(pb[k + j] =~= Seq::<(Vector2, Vector2)>::empty());
            }
            assert(pb[k + j] =~= pa[k]);
        }
    }
    assert forall|k: int| 0 <= k < pb.len() && k < j implies (#[trigger] pb[k]).len() == 0 by {
        if k < b.len() {
            assert(pb[k] == b[k]);
        } else {
            assert(pb[k] =~= Seq::<(Vector2, Vector2)>::empty());
        }
    }
    assert(pb[layer + j] == pa[layer]);
    let ra = crate::slicer::spec_insert_at(a, layer, s, e);
    let rb = crate::slicer::spec_insert_at(b, layer + j, s, e);
    assert forall|k: int| 0 <= k < ra.len() implies rb[k + j] == #[trigger] ra[k] by {
        if k != layer {
            assert(ra[k] == pa[k] && rb[k + j] == pb[k + j]);
        }
    }
    assert forall|k: int| 0 <= k < rb.len() && k < j implies (#[trigger] rb[k]).len() == 0 by {
        assert(rb[k] == pb[k]);
    }
}

/// Emitting a raised triangle into the raised plane range keeps the stacks
/// shifted.
proof fn lemma_apply_layers_shift(
    a: Seq<Seq<(Vector2, Vector2)>>,
    b: Seq<Seq<(Vector2, Vector2)>>,
    t1: Triangle,
    t2: Triangle,
    h: int,
    k: int,
    hi: int,
    j: int,
)
    requires
        shifted_maps(a, b, j),
        rel_tri_z(t1, t2, j * h),
        h >= 1,
        j >= 0,
        0 <= k,
    ensures
        shifted_maps(
            crate::slicer::spec_apply_layers(a, t1, h, k, hi),
            crate::slicer::spec_apply_layers(b, t2, h, k + j, hi + j),
            j,
        ),
    decreases hi + 1 - k,
{
    if k > hi {
    } else {
        let zc = k * h;
        assert((k + j) * h == zc + j * h) by (nonlinear_arith)
            requires
                zc == k * h,
        {}
        lemma_layer_segment_translate_z(t1, t2, zc, j * h);
        let m1 = match spec_layer_segment(t1, zc) {
            Some(s) => crate::slicer::spec_insert_at(a, k, s.0, s.1),
            None => a,
        };
        let m2 = match spec_layer_segment(t2, zc + j * h) {
            Some(s) => crate::slicer::spec_insert_at(b, k + j, s.0, s.1),
            None => b,
        };
        match spec_layer_segment(t1, zc) {
            Some(s) => {
                lemma_insert_at_shift(a, b, k, s.0, s.1, j);
            },
            None => {},
        }
        lemma_apply_layers_shift(m1, m2, t1, t2, h, k + 1, hi, j);
    }
}

/// The layer maps of a mesh raised by `j` layer heights are the mesh's
/// layer maps, `j` planes higher.
proof fn lemma_slice_maps_shift(ts1: Seq<Triangle>, ts2: Seq<Triangle>, h: int, j: int)
    requires
        rel_ts_z(ts1, ts2, j * h),
        h >= 1,
        j >= 0,
        forall|i: int| 0 <= i < ts1.len() ==> tri_zmin(#[trigger] ts1[i]) >= 0,
    ensures
        shifted_maps(
            crate::slicer::spec_slice_maps(ts1, h),
            crate::slicer::spec_slice_maps(ts2, h),
            j,
        ),
    decreases ts1.len(),
{
    if ts1.len() == 0 {
    } else {
        assert forall|i: int| 0 <= i < ts1.drop_last().len() implies rel_tri_z(
            #[trigger] ts1.drop_last()[i],
            #[trigger] ts2.drop_last()[i],
            j * h,
        ) by {
            assert(ts1.drop_last()[i] == ts1[i] && ts2.drop_last()[i] == ts2[i]);
        }
        assert forall|i: int| 0 <= i < ts1.drop_last().len() implies tri_zmin(
            #[trigger] ts1.drop_last()[i],
        ) >= 0 by {
            assert(ts1.drop_last()[i] == ts1[i]);
        }
        lemma_slice_maps_shift(ts1.drop_last(), ts2.drop_last(), h, j);
        let t1 = ts1.last();
        let t2 = ts2.last();
        assert(rel_tri_z(t1, t2, j * h));
        assert(tri_zmin(t2) == tri_zmin(t1) + j * h && tri_zmax(t2) == tri_zmax(t1) + j * h);
        assert(tri_zmin(t1) >= 0);
        lemma_layer_range_shift(tri_zmin(t1), tri_zmax(t1), h, j);
        match crate::slicer::spec_layer_range(tri_zmin(t1), tri_zmax(t1), h) {
            None => {},
            Some(lohi) => {
                crate::slicer::lemma_layer_range_char(tri_zmin(t1), tri_zmax(t1), h);
                lemma_apply_layers_shift(
                    crate::slicer::spec_slice_maps(ts1.drop_last(), h),
                    crate::slicer::spec_slice_maps(ts2.drop_last(), h),
                    t1,
                    t2,
                    h,
                    lohi.0,
                    lohi.1,
                    j,
                );
            },
        }
    }
}

/// Raising a mesh that sits in `z >= 0` by `j` whole layer heights shifts
/// every layer up by `j` indices: the raised mesh's contour at plane
/// `k + j` is the original's at plane `k`, and the `j` planes below are
/// empty.
pub proof fn lemma_slice_translate_z(ts1: Seq<Triangle>, ts2: Seq<Triangle>, h: int, j: int)
    requires
        rel_ts_z(ts1, ts2, j * h),
        h >= 1,
        j >= 0,
        ts1.len() > 0,
        forall|i: int| 0 <= i < ts1.len() ==> tri_zmin(#[trigger] ts1[i]) >= 0,
    ensures
        spec_slice(ts2, h).contours.len() == spec_slice(ts1, h).contours.len() + j,
        forall|k: int|
            0 <= k < spec_slice(ts1, h).contours.len() ==> spec_slice(ts2, h).contours[k + j]
                == #[trigger] spec_slice(ts1, h).contours[k],
        forall|k: int|
            0 <= k < j ==> (#[trigger] spec_slice(ts2, h).contours[k]).paths.len() == 0,
{
    lemma_slice_maps_shift(ts1, ts2, h, j);
    lemma_mesh_zmax_shift(ts1, ts2, j * h);
    let zm = crate::slicer::spec_mesh_zmax(ts1);
    assert(zm >= tri_zmin(ts1.last())) by {
        assert(tri_zmax(ts1.last()) >= tri_zmin(ts1.last()));
        lemma_tri_zmax_le_pub(ts1, ts1.len() - 1);
    }
    assert(zm >= 0);
    vstd::arithmetic::mul::lemma_mul_nonnegative(j, h);
    vstd::arithmetic::div_mod::lemma_hoist_over_denominator(zm, j, h as nat);
    assert(crate::slicer::spec_total_layers(ts2, h) == crate::slicer::spec_total_layers(ts1, h)
        + j);
    let a = crate::slicer::spec_slice_maps(ts1, h);
    let b = crate::slicer::spec_slice_maps(ts2, h);
    let n1 = crate::slicer::spec_total_layers(ts1, h);
    let pa = crate::slicer::spec_pad(a, n1);
    let pb = crate::slicer::spec_pad(b, n1 + j);
    crate::slicer::lemma_slice_maps_len(ts1, h);
    crate::slicer::lemma_slice_maps_len(ts2, h);
    assert(shifted_maps(pa, pb, j)) by {
        assert(pa.len() == n1 && pb.len() == n1 + j);
        assert forall|k: int| 0 <= k < pa.len() implies pb[k + j] == #[trigger] pa[k] by {
            if k < a.len() {
                assert(pa[k] == a[k]);
                assert(pb[k + j] == b[k + j]);
                assert(b[k + j] == a[k]);
            } else {
                assert(pa[k] =~= Seq::<(Vector2, Vector2)>::empty());
                if k + j < b.len() {
                    assert(pb[k + j] == b[k + j]);
                    if a.len() > 0 {
                        assert(b.len() == a.len() + j);
                        assert(false);
                    }
                    assert(b[k + j].len() == 0);
                    assert(pb[k + j] =~= Seq::<(Vector2, Vector2)>::empty());
                } else {
                    assert(pb[k + j] =~= Seq::<(Vector2, Vector2)>::empty());
                }
                assert(pb[k + j] =~= pa[k]);
            }
        }
        assert forall|k: int| 0 <= k < pb.len() && k < j implies (#[trigger] pb[k]).len() == 0 by {
            if k < b.len() {
                assert(pb[k] == b[k]);
            } else {
                assert(pb[k] =~= Seq::<(Vector2, Vector2)>::empty());
            }
        }
    }
    assert forall|k: int| 0 <= k < spec_slice(ts1, h).contours.len() implies spec_slice(
        ts2,
        h,
    ).contours[k + j] == #[trigger] spec_slice(ts1, h).contours[k] by {
        assert(spec_slice(ts1, h).contours[k] == spec_contour(pa[k]));
        assert(spec_slice(ts2, h).contours[k + j] == spec_contour(pb[k + j]));
        assert(pb[k + j] == pa[k]);
    }
    assert forall|k: int| 0 <= k < j implies (#[trigger] spec_slice(ts2, h).contours[k]).paths.len()
        == 0 by {
        assert(spec_slice(ts2, h).contours[k] == spec_contour(pb[k]));
        assert(pb[k] =~= Seq::<(Vector2, Vector2)>::empty());
        assert(pb[k].len() == 0);
    }
}

/// A raised mesh's top is the top, raised.
proof fn lemma_mesh_zmax_shift(ts1: Seq<Triangle>, ts2: Seq<Triangle>, dz: int)
    requires
        rel_ts_z(ts1, ts2, dz),
        ts1.len() > 0,
    ensures
        crate::slicer::spec_mesh_zmax(ts2) == crate::slicer::spec_mesh_zmax(ts1) + dz,
    decreases ts1.len(),
{
    assert(rel_tri_z(ts1.last(), ts2.last(), dz));
    if ts1.len() > 1 {
        assert forall|i: int| 0 <= i < ts1.drop_last().len() implies rel_tri_z(
            #[trigger] ts1.drop_last()[i],
            #[trigger] ts2.drop_last()[i],
            dz,
        ) by {
            assert(ts1.drop_last()[i] == ts1[i] && ts2.drop_last()[i] == ts2[i]);
        }
        lemma_mesh_zmax_shift(ts1.drop_last(), ts2.drop_last(), dz);
    }
}

/// No triangle reaches above the mesh's top.
proof fn lemma_tri_zmax_le_pub(ts: Seq<Triangle>, i: int)
    requires
        0 <= i < ts.len(),
    ensures
        tri_zmax(ts[i]) <= crate::slicer::spec_mesh_zmax(ts),
    decreases ts.len(),
{
    if ts.len() > 1 && i < ts.len() - 1 {
        lemma_tri_zmax_le_pub(ts.drop_last(), i);
    }
}

/// A triangle whose three vertices all lie on a cutting plane contributes
/// no segment at that plane: its boundary is left to the adjacent facets.
pub proof fn lemma_coplanar_triangle_emits_nothing(t: Triangle, zc: int)
    requires
        spec_near(t.p0.z as int, zc),
        spec_near(t.p1.z as int, zc),
        spec_near(t.p2.z as int, zc),
    ensures
        spec_layer_segment(t, zc) is None,
{
}

/// A cutting plane that only grazes a triangle at one vertex, that vertex
/// sitting at the triangle's lowest or highest point, contributes nothing.
pub proof fn lemma_grazing_vertex_emits_nothing(t: Triangle, zc: int)
    requires
        ({
            let a = spec_near(t.p0.z as int, zc);
            let b = spec_near(t.p1.z as int, zc);
            let c = spec_near(t.p2.z as int, zc);
            let zmin = tri_zmin(t);
            let zmax = tri_zmax(t);
            ||| a && !b && !c && (spec_near(t.p0.z as int, zmin) || spec_near(
                t.p0.z as int,
                zmax,
            ))
            ||| !a && b && !c && (spec_near(t.p1.z as int, zmin) || spec_near(
                t.p1.z as int,
                zmax,
            ))
            ||| !a && !b && c && (spec_near(t.p2.z as int, zmin) || spec_near(
                t.p2.z as int,
                zmax,
            ))
        }),
    ensures
        spec_layer_segment(t, zc) is None,
{
}

/// Every segment the intersector emits has distinct endpoints after
/// quantization; a degenerate one is discarded instead.
pub proof fn lemma_segment_endpoints_distinct(t: Triangle, zc: int)
    requires
        triangle_ok(t),
        coord_ok(zc),
    ensures
        spec_layer_segment(t, zc) matches Some(s) ==> s.0 != s.1,
{
    lemma_layer_segment_ok(t, zc);
}

/// Slicing is deterministic: any two sliced meshes obtained from the same
/// triangles and the same layer height are equal, vertex for vertex -- not
/// merely equal up to a rotation of each closed path.
pub proof fn lemma_slice_deterministic(
    sm1: SlicedMeshView,
    sm2: SlicedMeshView,
    ts: Seq<Triangle>,
    h: int,
)
    requires
        sm1 == spec_slice(ts, h),
        sm2 == spec_slice(ts, h),
    ensures
        sm1 == sm2,
{
}

/// No three cyclically consecutive vertices of any assembled path are
/// collinear, the wrap-around triples too, for any segment map with
/// unique keys and no degenerate segments.
pub proof fn lemma_assemble_non_collinear(es: Seq<(Vector2, Vector2)>)
    requires
        unique_keys(es),
        no_self_loops(es),
    ensures
        forall|i: int|
            0 <= i < spec_assemble(es, WalkState::Pick).len() ==> non_collinear_ring(
                #[trigger] spec_assemble(es, WalkState::Pick)[i],
            ),
{
    lemma_walk_rings(es, WalkState::Pick);
}

/// No three cyclically consecutive vertices of any path of any layer of a
/// sliced mesh are collinear.
pub proof fn lemma_slice_paths_non_collinear(ts: Seq<Triangle>, h: int)
    requires
        forall|i: int| 0 <= i < ts.len() ==> triangle_ok(#[trigger] ts[i]),
        h >= 1,
    ensures
        forall|k: int, i: int|
            0 <= k < spec_slice(ts, h).contours.len() && 0 <= i < spec_slice(
                ts,
                h,
            ).contours[k].paths.len() ==> non_collinear_ring(
                #[trigger] spec_slice(ts, h).contours[k].paths[i],
            ),
{
    let sm = spec_slice(ts, h);
    crate::slicer::lemma_slice_maps_ok(ts, h);
    assert forall|k: int, i: int|
        0 <= k < sm.contours.len() && 0 <= i < sm.contours[k].paths.len() implies
        non_collinear_ring(#[trigger] sm.contours[k].paths[i]) by {
        let maps = crate::slicer::spec_pad(
            crate::slicer::spec_slice_maps(ts, h),
            crate::slicer::spec_total_layers(ts, h),
        );
        assert(sm.contours[k] == spec_contour(maps[k]));
        assert(unique_keys(maps[k]) && no_self_loops(maps[k]));
        lemma_assemble_non_collinear(maps[k]);
        assert(sm.contours[k].paths[i] == spec_assemble(maps[k], WalkState::Pick)[i]);
    }
}

/// A mesh reaching up to `zmax >= 0` slices into exactly
/// `floor(zmax / h) + 1` layers, one per cutting plane from `z = 0` up.
pub proof fn lemma_layer_count(ts: Seq<Triangle>, h: int)
    requires
        h >= 1,
        ts.len() > 0,
        crate::slicer::spec_mesh_zmax(ts) >= 0,
    ensures
        spec_slice(ts, h).contours.len() == crate::slicer::spec_mesh_zmax(ts) / h + 1,
{
    crate::slicer::lemma_slice_layer_count(ts, h);
}

/// Every closed path of every layer keeps at least three vertices.
pub proof fn lemma_slice_paths_min_len(ts: Seq<Triangle>, h: int)
    ensures
        forall|k: int, i: int|
            0 <= k < spec_slice(ts, h).contours.len() && 0 <= i < spec_slice(
                ts,
                h,
            ).contours[k].paths.len() ==> (#[trigger] spec_slice(ts, h).contours[k].paths[i]).len()
                >= 3,
{
    let sm = spec_slice(ts, h);
    assert forall|k: int, i: int|
        0 <= k < sm.contours.len() && 0 <= i < sm.contours[k].paths.len() implies (
    #[trigger] sm.contours[k].paths[i]).len() >= 3 by {
        let maps = crate::slicer::spec_pad(
            crate::slicer::spec_slice_maps(ts, h),
            crate::slicer::spec_total_layers(ts, h),
        );
        assert(sm.contours[k] == spec_contour(maps[k]));
        lemma_assemble_min_len(maps[k], WalkState::Pick);
        assert(sm.contours[k].paths[i] == spec_assemble(maps[k], WalkState::Pick)[i]);
    }
}

} // verus!
