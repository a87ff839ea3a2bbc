//! Tests of closed paths, the segment map and the contour assembler.

use mandoline::ClosedPath;
use mandoline::Contour;
use mandoline::SegmentMap;
use mandoline::Vector2;

const U: i64 = 1_000_000;

fn pt(x: i64, y: i64) -> Vector2 {
    Vector2 { x: x * U, y: y * U }
}

#[test]
fn build_contour() {
    let p0 = pt(0, 0);
    let p1 = pt(1, 0);
    let p2 = pt(1, 1);
    let p3 = pt(0, 1);
    let mut map = SegmentMap::new();
    map.insert(p0, p1);
    map.insert(p1, p2);
    map.insert(p2, p3);
    map.insert(p3, p0);

    let contour = Contour::from_segment_map(map);

    assert_eq!(contour.paths().len(), 1);

    let segments = contour.paths()[0].segments();
    assert_eq!(segments.len(), 4);
}

#[test]
fn segment_iterator() {
    let mut path = ClosedPath::new();
    let p0 = pt(0, 0);
    let p1 = pt(1, 0);
    let p2 = pt(1, 1);
    let p3 = pt(0, 1);
    path.add_point(p0.x, p0.y);
    path.add_point(p1.x, p1.y);
    path.add_point(p2.x, p2.y);
    path.add_point(p3.x, p3.y);

    let segments = path.segments();
    assert_eq!(segments.len(), 4);
    assert_eq!((p0, p1), segments[0]);
    assert_eq!((p1, p2), segments[1]);
    assert_eq!((p2, p3), segments[2]);
    assert_eq!((p3, p0), segments[3]);
}

#[test]
fn insert_overwrites_existing_key() {
    let mut map = SegmentMap::new();
    map.insert(pt(0, 0), pt(1, 0));
    map.insert(pt(0, 0), pt(2, 0));
    assert_eq!(map.len(), 1);
    assert_eq!(map.remove(pt(0, 0)), Some(pt(2, 0)));
    assert_eq!(map.len(), 0);
    assert!(map.is_empty());
}

#[test]
fn collinear_vertices_are_dropped() {
    // a square whose bottom edge arrives in two collinear pieces keeps
    // only the corners
    let mut map = SegmentMap::new();
    map.insert(pt(0, 0), pt(1, 0));
    map.insert(pt(1, 0), pt(2, 0));
    map.insert(pt(2, 0), pt(2, 2));
    map.insert(pt(2, 2), pt(0, 2));
    map.insert(pt(0, 2), pt(0, 0));
    let contour = Contour::from_segment_map(map);
    assert_eq!(contour.paths().len(), 1);
    assert_eq!(
        *contour.paths()[0].points(),
        vec![pt(0, 0), pt(2, 0), pt(2, 2), pt(0, 2)]
    );
    assert_eq!(contour.limits_x(), (0, 2 * U));
    assert_eq!(contour.limits_y(), (0, 2 * U));
}

#[test]
fn start_inside_straight_run_is_removed() {
    // the walk starts in the middle of the bottom edge; closing moves the
    // first vertex to the straight run's true start
    let mut map = SegmentMap::new();
    map.insert(pt(1, 0), pt(2, 0));
    map.insert(pt(2, 0), pt(2, 2));
    map.insert(pt(2, 2), pt(0, 2));
    map.insert(pt(0, 2), pt(0, 0));
    map.insert(pt(0, 0), pt(1, 0));
    let contour = Contour::from_segment_map(map);
    assert_eq!(contour.paths().len(), 1);
    let points = contour.paths()[0].points();
    assert_eq!(points.len(), 4);
    assert!(!points.contains(&pt(1, 0)));
}

#[test]
fn broken_chain_keeps_finished_paths() {
    // one closed square plus one dangling segment: the square survives,
    // the dangling walk is abandoned
    let mut map = SegmentMap::new();
    map.insert(pt(0, 0), pt(1, 0));
    map.insert(pt(1, 0), pt(1, 1));
    map.insert(pt(1, 1), pt(0, 1));
    map.insert(pt(0, 1), pt(0, 0));
    map.insert(pt(5, 5), pt(6, 5));
    let contour = Contour::from_segment_map(map);
    assert_eq!(contour.paths().len(), 1);
    assert_eq!(contour.paths()[0].points().len(), 4);
}

#[test]
fn two_cycles_make_two_paths() {
    let mut map = SegmentMap::new();
    map.insert(pt(0, 0), pt(1, 0));
    map.insert(pt(1, 0), pt(1, 1));
    map.insert(pt(1, 1), pt(0, 0));
    map.insert(pt(5, 5), pt(6, 5));
    map.insert(pt(6, 5), pt(6, 6));
    map.insert(pt(6, 6), pt(5, 5));
    let contour = Contour::from_segment_map(map);
    assert_eq!(contour.paths().len(), 2);
    assert_eq!(contour.limits_x(), (0, 6 * U));
    assert_eq!(contour.limits_y(), (0, 6 * U));
}

#[test]
fn degenerate_ring_is_discarded() {
    // two points chasing each other never form three vertices
    let mut map = SegmentMap::new();
    map.insert(pt(0, 0), pt(1, 0));
    map.insert(pt(1, 0), pt(0, 0));
    let contour = Contour::from_segment_map(map);
    assert_eq!(contour.paths().len(), 0);
    assert_eq!(contour.limits_x(), (0, 0));
    assert_eq!(contour.limits_y(), (0, 0));
}

#[test]
fn empty_map_empty_contour() {
    let contour = Contour::from_segment_map(SegmentMap::new());
    assert_eq!(contour.paths().len(), 0);
    assert_eq!(contour.limits_x(), (0, 0));
    assert_eq!(contour.limits_y(), (0, 0));
}
