//! Closed paths and the contour assembler.
//!
//! The assembler walks a segment map from point to successor, dropping
//! vertices that continue an exactly straight run, until the walk returns to
//! its starting point; then the path is closed and the next one starts.  A
//! missing successor abandons the current path and keeps the finished ones.
//! Paths that collapse to fewer than three vertices are discarded, so every
//! path of a contour is a real polygon.

use vstd::prelude::*;

use crate::geometry::POINT_LIMIT;
use crate::geometry::Vector2;
use crate::geometry::cross_z;
use crate::geometry::spec_cross;
use crate::segment_map::SegmentMap;
use crate::segment_map::has_key;
use crate::segment_map::key_index;
use crate::segment_map::lemma_key_index;
use crate::segment_map::spec_remove;
use crate::segment_map::value_at;

verus! {

/// An ordered ring of 2-D vertices; the edge from the last vertex back to
/// the first is implicit.
#[derive(Debug, PartialEq)]
pub struct ClosedPath {
    path: Vec<Vector2>,
}

impl View for ClosedPath {
    type V = Seq<Vector2>;

    closed spec fn view(&self) -> Seq<Vector2> {
        self.path@
    }
}

/// The edges of a vertex ring: each vertex paired with its cyclic successor.
pub open spec fn spec_segments(ps: Seq<Vector2>) -> Seq<(Vector2, Vector2)> {
    Seq::new(
        ps.len(),
        |i: int|
            (
                ps[i],
                if i + 1 < ps.len() {
                    ps[i + 1]
                } else {
                    ps[0]
                },
            ),
    )
}

impl ClosedPath {
    /// An empty path.
    pub fn new() -> (p: ClosedPath)
        ensures
            p@ == Seq::<Vector2>::empty(),
    {
        let p = ClosedPath { path: Vec::new() };
        proof {
            assert(p@ =~= Seq::<Vector2>::empty());
        }
        p
    }

    /// Appends one vertex.
    pub fn add_point(&mut self, x: i64, y: i64)
        ensures
            final(self)@ == old(self)@.push(Vector2 { x, y }),
    {
        self.path.push(Vector2 { x, y });
    }

    /// The vertices in ring order.
    pub fn points(&self) -> (r: &Vec<Vector2>)
        ensures
            r@ == self@,
    {
        &self.path
    }

    /// The ring's edges, `(p[0], p[1]) ... (p[n-1], p[0])`.
    pub fn segments(&self) -> (r: Vec<(Vector2, Vector2)>)
        ensures
            r@ == spec_segments(self@),
    {
        let mut r: Vec<(Vector2, Vector2)> = Vec::new();
        let n = self.path.len();
        let mut i: usize = 0;
        while i < n
            invariant
                n == self@.len(),
                0 <= i <= n,
                r@ =~= spec_segments(self@).take(i as int),
            decreases n - i,
        {
            let nxt = if i + 1 < n {
                self.path[i + 1]
            } else {
                self.path[0]
            };
            r.push((self.path[i], nxt));
            i = i + 1;
        }
        proof {
            assert(r@ =~= spec_segments(self@));
        }
        r
    }
}

impl Default for ClosedPath {
    fn default() -> (p: ClosedPath)
        ensures
            p@ == Seq::<Vector2>::empty(),
    {
        ClosedPath::new()
    }
}

/// The state of the assembly walk: picking a fresh start, or extending a
/// path whose pending segment runs from `seg_start` toward `seg_end` with
/// established direction `(dir_x, dir_y)`.
pub enum WalkState {
    Pick,
    Walk {
        path: Seq<Vector2>,
        path_start: Vector2,
        seg_start: Vector2,
        seg_end: Vector2,
        dir_x: int,
        dir_y: int,
    },
}

/// Ordering of walk phases for termination: picking comes after walking.
pub open spec fn walk_rank(st: WalkState) -> int {
    match st {
        WalkState::Pick => 0,
        WalkState::Walk { .. } => 1,
    }
}

/// The closing fix-up: when the path's first vertex lies inside the straight
/// run that the final edge continues, the last retained vertex replaces it.
pub open spec fn spec_close_path(
    path: Seq<Vector2>,
    seg_start: Vector2,
    last_cand: Vector2,
    path_start: Vector2,
) -> Seq<Vector2> {
    if path.len() >= 2 && spec_cross(
        path[1].x - path[0].x,
        path[1].y - path[0].y,
        path_start.x - last_cand.x,
        path_start.y - last_cand.y,
    ) == 0 {
        path.drop_last().update(0, seg_start)
    } else {
        path
    }
}

/// The paths the assembler still produces from entries `es` in state `st`:
/// pop the first entry to start a path, follow successors while removing
/// them, drop collinear middle vertices, close when the walk returns to its
/// start, abandon when a successor is missing, and discard paths of fewer
/// than three vertices.
pub open spec fn spec_assemble(es: Seq<(Vector2, Vector2)>, st: WalkState) -> Seq<Seq<Vector2>>
    decreases es.len(), walk_rank(st),
{
    match st {
        WalkState::Pick => {
            if es.len() == 0 {
                Seq::empty()
            } else {
                let e0 = es[0];
                spec_assemble(
                    es.drop_first(),
                    WalkState::Walk {
                        path: seq![e0.0],
                        path_start: e0.0,
                        seg_start: e0.0,
                        seg_end: e0.1,
                        dir_x: e0.1.x - e0.0.x,
                        dir_y: e0.1.y - e0.0.y,
                    },
                )
            }
        },
        WalkState::Walk { path, path_start, seg_start, seg_end, dir_x, dir_y } => {
            if !has_key(es, seg_end) {
                // broken chain: the current path is abandoned
                spec_assemble(es, WalkState::Pick)
            } else {
                proof {
                    lemma_key_index(es, seg_end);
                }
                let nxt = value_at(es, seg_end);
                let es1 = spec_remove(es, seg_end);
                let keep = spec_cross(
                    dir_x,
                    dir_y,
                    nxt.x - seg_start.x,
                    nxt.y - seg_start.y,
                ) != 0;
                let path1 = if keep {
                    path.push(seg_end)
                } else {
                    path
                };
                let seg_start1 = if keep {
                    seg_end
                } else {
                    seg_start
                };
                let dir_x1 = if keep {
                    nxt.x - seg_end.x
                } else {
                    dir_x
                };
                let dir_y1 = if keep {
                    nxt.y - seg_end.y
                } else {
                    dir_y
                };
                if nxt == path_start {
                    let closed = spec_close_path(path1, seg_start1, seg_end, path_start);
                    let rest = spec_assemble(es1, WalkState::Pick);
                    if closed.len() >= 3 {
                        seq![closed] + rest
                    } else {
                        rest
                    }
                } else {
                    spec_assemble(
                        es1,
                        WalkState::Walk {
                            path: path1,
                            path_start,
                            seg_start: seg_start1,
                            seg_end: nxt,
                            dir_x: dir_x1,
                            dir_y: dir_y1,
                        },
                    )
                }
            }
        },
    }
}

/// All retained vertices of a contour, in path order.
pub open spec fn paths_points(paths: Seq<Seq<Vector2>>) -> Seq<Vector2>
    decreases paths.len(),
{
    if paths.len() == 0 {
        Seq::empty()
    } else {
        paths_points(paths.drop_last()) + paths.last()
    }
}

/// The bounding box of a vertex sequence as `((min_x, max_x), (min_y,
/// max_y))`, or all zero when there is no vertex.
pub open spec fn pts_bounds(ps: Seq<Vector2>) -> ((int, int), (int, int))
    decreases ps.len(),
{
    if ps.len() == 0 {
        ((0int, 0int), (0int, 0int))
    } else if ps.len() == 1 {
        (
            (ps[0].x as int, ps[0].x as int),
            (ps[0].y as int, ps[0].y as int),
        )
    } else {
        let rest = pts_bounds(ps.drop_first());
        (
            (
                vstd::math::min(ps[0].x as int, rest.0.0),
                vstd::math::max(ps[0].x as int, rest.0.1),
            ),
            (
                vstd::math::min(ps[0].y as int, rest.1.0),
                vstd::math::max(ps[0].y as int, rest.1.1),
            ),
        )
    }
}

/// Folding one more vertex into a bounding box from the right.
pub proof fn lemma_pts_bounds_push(ps: Seq<Vector2>, p: Vector2)
    ensures
        ps.len() == 0 ==> pts_bounds(ps.push(p)) == (
            (p.x as int, p.x as int),
            (p.y as int, p.y as int),
        ),
        ps.len() > 0 ==> pts_bounds(ps.push(p)) == (
            (
                vstd::math::min(pts_bounds(ps).0.0, p.x as int),
                vstd::math::max(pts_bounds(ps).0.1, p.x as int),
            ),
            (
                vstd::math::min(pts_bounds(ps).1.0, p.y as int),
                vstd::math::max(pts_bounds(ps).1.1, p.y as int),
            ),
        ),
    decreases ps.len(),
{
    if ps.len() == 0 {
        assert(ps.push(p) =~= seq![p]);
    } else {
        assert(ps.push(p).drop_first() =~= ps.drop_first().push(p));
        lemma_pts_bounds_push(ps.drop_first(), p);
    }
}

/// Every path the assembler yields keeps at least three vertices: shorter
/// rings are discarded at closing time.
pub proof fn lemma_assemble_min_len(es: Seq<(Vector2, Vector2)>, st: WalkState)
    ensures
        forall|i: int|
            0 <= i < spec_assemble(es, st).len() ==> (#[trigger] spec_assemble(es, st)[i]).len()
                >= 3,
    decreases es.len(), walk_rank(st),
{
    match st {
        WalkState::Pick => {
            if es.len() > 0 {
                let e0 = es[0];
                let st1 = WalkState::Walk {
                    path: seq![e0.0],
                    path_start: e0.0,
                    seg_start: e0.0,
                    seg_end: e0.1,
                    dir_x: e0.1.x - e0.0.x,
                    dir_y: e0.1.y - e0.0.y,
                };
                lemma_assemble_min_len(es.drop_first(), st1);
                assert(spec_assemble(es, st) == spec_assemble(es.drop_first(), st1));
                assert forall|i: int| 0 <= i < spec_assemble(es, st).len() implies (
                #[trigger] spec_assemble(es, st)[i]).len() >= 3 by {
                    assert(spec_assemble(es, st)[i] == spec_assemble(es.drop_first(), st1)[i]);
                }
            }
        },
        WalkState::Walk { path, path_start, seg_start, seg_end, dir_x, dir_y } => {
            if !has_key(es, seg_end) {
                lemma_assemble_min_len(es, WalkState::Pick);
                assert(spec_assemble(es, st) == spec_assemble(es, WalkState::Pick));
                assert forall|i: int| 0 <= i < spec_assemble(es, st).len() implies (
                #[trigger] spec_assemble(es, st)[i]).len() >= 3 by {
                    assert(spec_assemble(es, st)[i] == spec_assemble(es, WalkState::Pick)[i]);
                }
            } else {
                lemma_key_index(es, seg_end);
                let nxt = value_at(es, seg_end);
                let es1 = spec_remove(es, seg_end);
                let keep = spec_cross(dir_x, dir_y, nxt.x - seg_start.x, nxt.y - seg_start.y)
                    != 0;
                let path1 = if keep {
                    path.push(seg_end)
                } else {
                    path
                };
                let seg_start1 = if keep {
                    seg_end
                } else {
                    seg_start
                };
                let dir_x1 = if keep {
                    nxt.x - seg_end.x
                } else {
                    dir_x
                };
                let dir_y1 = if keep {
                    nxt.y - seg_end.y
                } else {
                    dir_y
                };
                if nxt == path_start {
                    lemma_assemble_min_len(es1, WalkState::Pick);
                    let closed = spec_close_path(path1, seg_start1, seg_end, path_start);
                    let rest = spec_assemble(es1, WalkState::Pick);
                    if closed.len() >= 3 {
                        assert(spec_assemble(es, st) == seq![closed] + rest);
                        assert forall|i: int| 0 <= i < spec_assemble(es, st).len() implies (
                        #[trigger] spec_assemble(es, st)[i]).len() >= 3 by {
                            if i == 0 {
                                assert((seq![closed] + rest)[0] == closed);
                            } else {
                                assert((seq![closed] + rest)[i] == rest[i - 1]);
                            }
                        }
                    } else {
                        assert(spec_assemble(es, st) == rest);
                        assert forall|i: int| 0 <= i < spec_assemble(es, st).len() implies (
                        #[trigger] spec_assemble(es, st)[i]).len() >= 3 by {
                            assert(spec_assemble(es, st)[i] == rest[i]);
                        }
                    }
                } else {
                    let st1 = WalkState::Walk {
                        path: path1,
                        path_start,
                        seg_start: seg_start1,
                        seg_end: nxt,
                        dir_x: dir_x1,
                        dir_y: dir_y1,
                    };
                    lemma_assemble_min_len(es1, st1);
                    assert(spec_assemble(es, st) == spec_assemble(es1, st1));
                    assert forall|i: int| 0 <= i < spec_assemble(es, st).len() implies (
                    #[trigger] spec_assemble(es, st)[i]).len() >= 3 by {
                        assert(spec_assemble(es, st)[i] == spec_assemble(es1, st1)[i]);
                    }
                }
            }
        },
    }
}

/// When every path is a real ring, a contour has vertices exactly when it
/// has paths.
pub proof fn lemma_paths_points_nonempty(paths: Seq<Seq<Vector2>>)
    requires
        forall|i: int| 0 <= i < paths.len() ==> (#[trigger] paths[i]).len() >= 3,
    ensures
        (paths_points(paths).len() > 0) == (paths.len() > 0),
{
    if paths.len() > 0 {
        assert(paths.last().len() >= 3);
    }
}

/// Concatenation folds two bounding boxes together.
pub proof fn lemma_pts_bounds_concat(a: Seq<Vector2>, b: Seq<Vector2>)
    ensures
        a.len() == 0 ==> pts_bounds(a + b) == pts_bounds(b),
        b.len() == 0 ==> pts_bounds(a + b) == pts_bounds(a),
        a.len() > 0 && b.len() > 0 ==> pts_bounds(a + b) == (
            (
                vstd::math::min(pts_bounds(a).0.0, pts_bounds(b).0.0),
                vstd::math::max(pts_bounds(a).0.1, pts_bounds(b).0.1),
            ),
            (
                vstd::math::min(pts_bounds(a).1.0, pts_bounds(b).1.0),
                vstd::math::max(pts_bounds(a).1.1, pts_bounds(b).1.1),
            ),
        ),
    decreases b.len(),
{
    if b.len() == 0 {
        assert(a + b =~= a);
    } else if a.len() == 0 {
        assert(a + b =~= b);
    } else {
        let b1 = b.drop_last();
        lemma_pts_bounds_concat(a, b1);
        lemma_pts_bounds_push(a + b1, b.last());
        lemma_pts_bounds_push(b1, b.last());
        assert((a + b1).push(b.last()) =~= a + b);
        assert(b1.push(b.last()) =~= b);
    }
}

/// All retained vertices of a stack of contours, in layer order.
pub open spec fn contours_points(cs: Seq<ContourView>) -> Seq<Vector2>
    decreases cs.len(),
{
    if cs.len() == 0 {
        Seq::empty()
    } else {
        contours_points(cs.drop_last()) + paths_points(cs.last().paths)
    }
}

/// The view of a sequence of paths: each path as its vertex sequence.
pub open spec fn paths_view(paths: Seq<ClosedPath>) -> Seq<Seq<Vector2>> {
    paths.map_values(|p: ClosedPath| p@)
}

/// The mathematical value of a contour.
pub struct ContourView {
    pub paths: Seq<Seq<Vector2>>,
    pub limits_x: (int, int),
    pub limits_y: (int, int),
}

/// What assembling a segment map yields: its paths and their bounding box.
pub open spec fn spec_contour(es: Seq<(Vector2, Vector2)>) -> ContourView {
    let paths = spec_assemble(es, WalkState::Pick);
    ContourView {
        paths,
        limits_x: pts_bounds(paths_points(paths)).0,
        limits_y: pts_bounds(paths_points(paths)).1,
    }
}

/// The closed paths of one layer, with the bounding box of their vertices.
#[derive(Debug, PartialEq)]
pub struct Contour {
    paths: Vec<ClosedPath>,
    limits_x: (i64, i64),
    limits_y: (i64, i64),
}

impl View for Contour {
    type V = ContourView;

    closed spec fn view(&self) -> ContourView {
        ContourView {
            paths: paths_view(self.paths@),
            limits_x: (self.limits_x.0 as int, self.limits_x.1 as int),
            limits_y: (self.limits_y.0 as int, self.limits_y.1 as int),
        }
    }
}

impl Contour {
    /// An empty contour with a zero bounding box.
    pub fn new() -> (c: Contour)
        ensures
            c@.paths == Seq::<Seq<Vector2>>::empty(),
            c@.limits_x == (0int, 0int),
            c@.limits_y == (0int, 0int),
    {
        let c = Contour { paths: Vec::new(), limits_x: (0, 0), limits_y: (0, 0) };
        proof {
            assert(c@.paths =~= Seq::<Seq<Vector2>>::empty());
        }
        c
    }

    /// Appends a finished path; the bounding box is left as it is.
    pub fn add_path(&mut self, path: ClosedPath)
        ensures
            final(self)@.paths == old(self)@.paths.push(path@),
            final(self)@.limits_x == old(self)@.limits_x,
            final(self)@.limits_y == old(self)@.limits_y,
    {
        self.paths.push(path);
        proof {
            assert(final(self)@.paths =~= old(self)@.paths.push(path@));
        }
    }

    /// The closed paths of this layer.
    pub fn paths(&self) -> (r: &Vec<ClosedPath>)
        ensures
            paths_view(r@) == self@.paths,
    {
        &self.paths
    }

    /// Lowest and highest x over the retained vertices.
    pub fn limits_x(&self) -> (r: (i64, i64))
        ensures
            (r.0 as int, r.1 as int) == self@.limits_x,
    {
        self.limits_x
    }

    /// Lowest and highest y over the retained vertices.
    pub fn limits_y(&self) -> (r: (i64, i64))
        ensures
            (r.0 as int, r.1 as int) == self@.limits_y,
    {
        self.limits_y
    }
}

impl Default for Contour {
    fn default() -> (c: Contour)
        ensures
            c@.paths == Seq::<Seq<Vector2>>::empty(),
            c@.limits_x == (0int, 0int),
            c@.limits_y == (0int, 0int),
    {
        Contour::new()
    }
}

/// All points of a segment map are within `POINT_LIMIT`.
pub open spec fn entries_ok(es: Seq<(Vector2, Vector2)>) -> bool {
    forall|i: int|
        0 <= i < es.len() ==> crate::slicer::point_ok((#[trigger] es[i]).0) && crate::slicer::point_ok(
            es[i].1,
        )
}

impl Contour {
    /// Stitches the segments of one layer into closed paths, as
    /// `spec_contour` states: successive segments chain head to tail,
    /// exactly collinear runs keep only their endpoints, and each walk
    /// closes when it returns to its starting point.
    pub fn from_segment_map(map: SegmentMap) -> (c: Contour)
        requires
            entries_ok(map@),
        ensures
            c@.paths == spec_contour(map@).paths,
            c@.limits_x == spec_contour(map@).limits_x,
            c@.limits_y == spec_contour(map@).limits_y,
    {
        let ghost orig = map@;
        let mut map = map;
        let mut paths: Vec<ClosedPath> = Vec::new();
        while map.len() > 0
            invariant
                entries_ok(map@),
                paths_view(paths@) + spec_assemble(map@, WalkState::Pick) == spec_assemble(
                    orig,
                    WalkState::Pick,
                ),
            decreases map@.len(),
        {
            let ghost es_outer = map@;
            let e0 = map.pop_first().unwrap();
            let s0 = e0.0;
            let mut cp = ClosedPath::new();
            cp.add_point(s0.x, s0.y);
            proof {
                assert(cp@ =~= seq![s0]);
            }
            let path_start = s0;
            let mut seg_start = s0;
            let mut seg_end = e0.1;
            let mut dir_x: i64 = e0.1.x - s0.x;
            let mut dir_y: i64 = e0.1.y - s0.y;
            let mut walking = true;
            let mut closed = false;
            while walking
                invariant
                    entries_ok(map@),
                    map@.len() < es_outer.len(),
                    crate::slicer::point_ok(path_start),
                    crate::slicer::point_ok(seg_start),
                    crate::slicer::point_ok(seg_end),
                    forall|j: int| 0 <= j < cp@.len() ==> crate::slicer::point_ok(#[trigger] cp@[j]),
                    -2 * POINT_LIMIT <= dir_x <= 2 * POINT_LIMIT,
                    -2 * POINT_LIMIT <= dir_y <= 2 * POINT_LIMIT,
                    walking ==> paths_view(paths@) + spec_assemble(
                        map@,
                        WalkState::Walk {
                            path: cp@,
                            path_start,
                            seg_start,
                            seg_end,
                            dir_x: dir_x as int,
                            dir_y: dir_y as int,
                        },
                    ) == spec_assemble(orig, WalkState::Pick),
                    walking ==> cp@.len() >= 1,
                    walking ==> !closed,
                    !walking && closed ==> paths_view(paths@) + (if cp@.len() >= 3 {
                        seq![cp@]
                    } else {
                        Seq::<Seq<Vector2>>::empty()
                    }) + spec_assemble(map@, WalkState::Pick) == spec_assemble(
                        orig,
                        WalkState::Pick,
                    ),
                    !walking && !closed ==> paths_view(paths@) + spec_assemble(
                        map@,
                        WalkState::Pick,
                    ) == spec_assemble(orig, WalkState::Pick),
                decreases map@.len() + (if walking {
                    1int
                } else {
                    0int
                }),
            {
                let ghost es = map@;
                let ghost st = WalkState::Walk {
                    path: cp@,
                    path_start,
                    seg_start,
                    seg_end,
                    dir_x: dir_x as int,
                    dir_y: dir_y as int,
                };
                let nxt_opt = map.remove(seg_end);
                match nxt_opt {
                    None => {
                        walking = false;
                    },
                    Some(nxt) => {
                        proof {
                            lemma_key_index(es, seg_end);
                        }
                        let ghost path0 = cp@;
                        let keep = cross_z(
                            dir_x,
                            dir_y,
                            nxt.x - seg_start.x,
                            nxt.y - seg_start.y,
                        ) != 0;
                        let last_cand = seg_end;
                        if keep {
                            cp.add_point(seg_end.x, seg_end.y);
                            seg_start = seg_end;
                            dir_x = nxt.x - seg_end.x;
                            dir_y = nxt.y - seg_end.y;
                        }
                        let ghost path1 = if keep {
                            path0.push(last_cand)
                        } else {
                            path0
                        };
                        seg_end = nxt;
                        if nxt == path_start {
                            // the walk is back at its start: close this path
                            if cp.path.len() >= 2 {
                                let v0x = cp.path[1].x - cp.path[0].x;
                                let v0y = cp.path[1].y - cp.path[0].y;
                                let v1x = path_start.x - last_cand.x;
                                let v1y = path_start.y - last_cand.y;
                                if cross_z(v0x, v0y, v1x, v1y) == 0 {
                                    cp.path.pop();
                                    cp.path.remove(0);
                                    cp.path.insert(0, seg_start);
                                    proof {
                                        assert(cp@ =~= spec_close_path(
                                            path1,
                                            seg_start,
                                            last_cand,
                                            path_start,
                                        ));
                                    }
                                }
                            }
                            walking = false;
                            closed = true;
                            proof {
                                let closed_p = spec_close_path(
                                    path1,
                                    seg_start,
                                    last_cand,
                                    path_start,
                                );
                                assert(cp@ == closed_p);
                                assert(spec_assemble(es, st) == (if closed_p.len() >= 3 {
                                    seq![closed_p] + spec_assemble(map@, WalkState::Pick)
                                } else {
                                    spec_assemble(map@, WalkState::Pick)
                                }));
                                if closed_p.len() >= 3 {
                                    assert((paths_view(paths@) + seq![cp@]) + spec_assemble(
                                        map@,
                                        WalkState::Pick,
                                    ) =~= paths_view(paths@) + (seq![closed_p] + spec_assemble(
                                        map@,
                                        WalkState::Pick,
                                    )));
                                } else {
                                    assert(paths_view(paths@) + Seq::<Seq<Vector2>>::empty()
                                        =~= paths_view(paths@));
                                }
                            }
                        }
                    },
                }
            }
            if closed {
                let keep_path = cp.path.len() >= 3;
                if keep_path {
                    paths.push(cp);
                    proof {
                        assert(paths_view(paths@) =~= paths_view(paths@.drop_last()).push(
                            paths@.last()@,
                        ));
                    }
                }
            }
            proof {
                assert(map@.len() < es_outer.len());
            }
        }
        // the maps is empty: all paths are assembled; now their bounding box
        proof {
            assert(spec_assemble(map@, WalkState::Pick) =~= Seq::<Seq<Vector2>>::empty());
            assert(paths_view(paths@) =~= spec_assemble(orig, WalkState::Pick));
        }
        let mut min_x: i64 = 0;
        let mut max_x: i64 = 0;
        let mut min_y: i64 = 0;
        let mut max_y: i64 = 0;
        let mut any = false;
        let mut i: usize = 0;
        while i < paths.len()
            invariant
                0 <= i <= paths@.len(),
                any == (paths_points(paths_view(paths@).take(i as int)).len() > 0),
                any ==> ((min_x as int, max_x as int), (min_y as int, max_y as int)) == pts_bounds(
                    paths_points(paths_view(paths@).take(i as int)),
                ),
                !any ==> (min_x, max_x, min_y, max_y) == (0i64, 0i64, 0i64, 0i64),
            decreases paths@.len() - i,
        {
            let n = paths[i].path.len();
            let mut j: usize = 0;
            while j < n
                invariant
                    0 <= i < paths@.len(),
                    n == paths@[i as int]@.len(),
                    0 <= j <= n,
                    any == (paths_points(paths_view(paths@).take(i as int)).len() + j > 0),
                    any ==> ((min_x as int, max_x as int), (min_y as int, max_y as int))
                        == pts_bounds(
                        paths_points(paths_view(paths@).take(i as int)) + paths@[i as int]@.take(
                            j as int,
                        ),
                    ),
                    !any ==> (min_x, max_x, min_y, max_y) == (0i64, 0i64, 0i64, 0i64),
                decreases n - j,
            {
                let p = paths[i].path[j];
                let ghost done = paths_points(paths_view(paths@).take(i as int)) + paths@[
                    i as int
                ]@.take(j as int);
                proof {
                    lemma_pts_bounds_push(done, p);
                    assert(done.push(p) =~= paths_points(paths_view(paths@).take(i as int))
                        + paths@[i as int]@.take(j as int + 1));
                }
                if !any {
                    min_x = p.x;
                    max_x = p.x;
                    min_y = p.y;
                    max_y = p.y;
                    any = true;
                } else {
                    if p.x < min_x {
                        min_x = p.x;
                    }
                    if p.x > max_x {
                        max_x = p.x;
                    }
                    if p.y < min_y {
                        min_y = p.y;
                    }
                    if p.y > max_y {
                        max_y = p.y;
                    }
                }
                j = j + 1;
            }
            proof {
                assert(paths_view(paths@).take(i as int + 1) =~= paths_view(paths@).take(
                    i as int,
                ).push(paths@[i as int]@));
                assert(paths_view(paths@).take(i as int + 1).drop_last() =~= paths_view(
                    paths@,
                ).take(i as int));
                assert(paths_view(paths@).take(i as int + 1).last() == paths@[i as int]@);
                assert(paths_points(paths_view(paths@).take(i as int + 1)) == paths_points(
                    paths_view(paths@).take(i as int),
                ) + paths@[i as int]@);
                assert(paths@[i as int]@.take(n as int) =~= paths@[i as int]@);
            }
            i = i + 1;
        }
        proof {
            assert(paths_view(paths@).take(paths@.len() as int) =~= paths_view(paths@));
        }
        Contour { paths, limits_x: (min_x, max_x), limits_y: (min_y, max_y) }
    }
}

} // verus!
