use hulls::concave::concave_hull;
use hulls::convex::convex_hull;
use hulls::geom::{GeometryError, Point};
use hulls::knearest::k_nearest_concave_hull;
use hulls::pointset::PointSet;

fn p(x: i32, y: i32) -> Point {
    Point::new(x, y)
}

fn ps(v: &[(i32, i32)]) -> PointSet {
    let mut points = Vec::new();
    for &(x, y) in v {
        points.push(p(x, y));
    }
    PointSet { points }
}

fn cross(a: Point, b: Point, c: Point) -> i64 {
    let (ax, ay) = (a.x as i64, a.y as i64);
    let (bx, by) = (b.x as i64, b.y as i64);
    let (cx, cy) = (c.x as i64, c.y as i64);
    (bx - ax) * (cy - ay) - (by - ay) * (cx - ax)
}

fn on_segment(a: Point, b: Point, q: Point) -> bool {
    cross(a, b, q) == 0
        && q.x >= a.x.min(b.x)
        && q.x <= a.x.max(b.x)
        && q.y >= a.y.min(b.y)
        && q.y <= a.y.max(b.y)
}

fn segments_touch(p1: Point, p2: Point, q1: Point, q2: Point) -> bool {
    let d1 = cross(q1, q2, p1);
    let d2 = cross(q1, q2, p2);
    let d3 = cross(p1, p2, q1);
    let d4 = cross(p1, p2, q2);
    if ((d1 > 0 && d2 < 0) || (d1 < 0 && d2 > 0)) && ((d3 > 0 && d4 < 0) || (d3 < 0 && d4 > 0)) {
        return true;
    }
    on_segment(q1, q2, p1) || on_segment(q1, q2, p2) || on_segment(p1, p2, q1) || on_segment(p1, p2, q2)
}

/// No two non-adjacent edges of the closed ring share any point, and no
/// vertex repeats.
fn ring_is_simple(ring: &[Point]) -> bool {
    let n = ring.len();
    if n < 3 {
        return false;
    }
    for i in 0..n {
        for j in (i + 1)..n {
            if ring[i] == ring[j] {
                return false;
            }
        }
    }
    for i in 0..n {
        for j in (i + 1)..n {
            let adjacent = j == i + 1 || (i == 0 && j == n - 1);
            if adjacent {
                continue;
            }
            if segments_touch(ring[i], ring[(i + 1) % n], ring[j], ring[(j + 1) % n]) {
                return false;
            }
        }
    }
    true
}

/// Even-odd ray cast; exact for query points that are not on the boundary.
fn inside(ring: &[Point], q: Point) -> bool {
    let n = ring.len();
    let mut c = false;
    for i in 0..n {
        let a = ring[i];
        let b = ring[(i + 1) % n];
        let (ax, ay) = (a.x as i64, a.y as i64);
        let (bx, by) = (b.x as i64, b.y as i64);
        let (qx, qy) = (q.x as i64, q.y as i64);
        if (ay > qy) != (by > qy) {
            let lhs = (bx - ax) * (qy - ay);
            let rhs = (qx - ax) * (by - ay);
            let crossing = if by > ay { lhs > rhs } else { lhs < rhs };
            if crossing {
                c = !c;
            }
        }
    }
    c
}

/// `q` lies on the ring's boundary or strictly inside it.
fn contained(ring: &[Point], q: Point) -> bool {
    let n = ring.len();
    for i in 0..n {
        if on_segment(ring[i], ring[(i + 1) % n], q) {
            return true;
        }
    }
    inside(ring, q)
}

#[test]
fn too_few_points_fail_all_three() {
    for pts in [vec![], vec![(1, 2)], vec![(1, 2), (30, 40)]] {
        let s = ps(&pts);
        assert_eq!(convex_hull(&s).unwrap_err(), GeometryError::InsufficientPoints);
        assert_eq!(concave_hull(&s, 500).unwrap_err(), GeometryError::InsufficientPoints);
        assert_eq!(k_nearest_concave_hull(&s, 3).unwrap_err(), GeometryError::InsufficientPoints);
    }
}

#[test]
fn coincident_points_are_insufficient() {
    let s = ps(&[(5, 5), (5, 5), (5, 5), (7, 7)]);
    assert_eq!(convex_hull(&s).unwrap_err(), GeometryError::InsufficientPoints);
    assert_eq!(concave_hull(&s, 0).unwrap_err(), GeometryError::InsufficientPoints);
    assert_eq!(k_nearest_concave_hull(&s, 3).unwrap_err(), GeometryError::InsufficientPoints);
}

#[test]
fn convex_square_returns_corners_counter_clockwise() {
    let s = ps(&[(0, 0), (10, 0), (10, 10), (0, 10)]);
    let h = convex_hull(&s).unwrap();
    assert_eq!(h.vertices, vec![p(0, 0), p(10, 0), p(10, 10), p(0, 10)]);
}

#[test]
fn convex_hull_is_ccw_simple_and_contains_all_points() {
    let pts = [(0, 0), (37, 5), (50, 41), (12, 44), (25, 20), (7, 30), (41, 18), (3, 3)];
    let s = ps(&pts);
    let h = convex_hull(&s).unwrap();
    let ring = &h.vertices;
    let n = ring.len();
    assert!(n >= 3);
    for i in 0..n {
        assert!(cross(ring[i], ring[(i + 1) % n], ring[(i + 2) % n]) > 0);
    }
    assert!(ring_is_simple(ring));
    for v in ring {
        assert!(pts.iter().any(|&(x, y)| p(x, y) == *v));
    }
    for &(x, y) in &pts {
        let q = p(x, y);
        for i in 0..n {
            assert!(cross(ring[i], ring[(i + 1) % n], q) >= 0);
        }
    }
}

#[test]
fn convex_hull_drops_collinear_edge_points() {
    let s = ps(&[(0, 0), (10, 0), (20, 0), (20, 20), (0, 20)]);
    let h = convex_hull(&s).unwrap();
    assert_eq!(h.vertices, vec![p(0, 0), p(20, 0), p(20, 20), p(0, 20)]);
}

#[test]
fn concave_at_zero_concavity_equals_convex_hull() {
    let s = ps(&[(0, 0), (40, 0), (40, 20), (0, 20), (20, 5)]);
    let convex = convex_hull(&s).unwrap();
    let concave = concave_hull(&s, 0).unwrap();
    assert_eq!(concave.vertices, convex.vertices);
}

#[test]
fn concave_full_concavity_digs_to_interior_point() {
    let s = ps(&[(0, 0), (40, 0), (40, 20), (0, 20), (20, 5)]);
    let h = concave_hull(&s, 1000).unwrap();
    assert_eq!(h.vertices.len(), 5);
    assert!(h.vertices.contains(&p(20, 5)));
    assert!(ring_is_simple(&h.vertices));
    let convex = convex_hull(&s).unwrap();
    assert!(convex.vertices.len() < h.vertices.len());
}

#[test]
fn concave_collinear_points_are_degenerate() {
    let s = ps(&[(0, 0), (5, 0), (10, 0)]);
    assert_eq!(concave_hull(&s, 500).unwrap_err(), GeometryError::DegenerateGeometry);
}

#[test]
fn convex_and_k_nearest_collinear_points_are_degenerate() {
    let s = ps(&[(0, 0), (5, 0), (10, 0), (7, 0)]);
    assert_eq!(convex_hull(&s).unwrap_err(), GeometryError::DegenerateGeometry);
    assert_eq!(k_nearest_concave_hull(&s, 3).unwrap_err(), GeometryError::DegenerateGeometry);
}

#[test]
fn concave_clamps_out_of_range_concavity() {
    let s = ps(&[(0, 0), (40, 0), (40, 20), (0, 20), (20, 5)]);
    let clamped = concave_hull(&s, 5000).unwrap();
    let full = concave_hull(&s, 1000).unwrap();
    assert_eq!(clamped.vertices, full.vertices);
}

#[test]
fn k_nearest_square_ring_has_all_corners() {
    let s = ps(&[(0, 0), (10, 0), (10, 10), (0, 10)]);
    let h = k_nearest_concave_hull(&s, 4).unwrap();
    assert_eq!(h.vertices.len(), 4);
    assert_eq!(h.vertices[0], p(0, 0));
    for c in [(0, 0), (10, 0), (10, 10), (0, 10)] {
        assert!(h.vertices.contains(&p(c.0, c.1)));
    }
    assert!(ring_is_simple(&h.vertices));
}

#[test]
fn k_nearest_l_shape_keeps_interior_point_inside() {
    let s = ps(&[(0, 0), (20, 0), (20, 10), (10, 10), (10, 30), (0, 30), (12, 4)]);
    let h = k_nearest_concave_hull(&s, 3).unwrap();
    let ring = &h.vertices;
    assert!(ring.len() >= 3);
    assert!(ring_is_simple(ring));
    assert_eq!(ring[0], p(0, 0));
    assert!(!ring.contains(&p(12, 4)));
    assert!(inside(ring, p(12, 4)));
}

#[test]
fn hull_functions_are_deterministic() {
    let s = ps(&[(0, 0), (37, 5), (50, 41), (12, 44), (25, 20), (7, 30)]);
    assert_eq!(convex_hull(&s), convex_hull(&s));
    assert_eq!(concave_hull(&s, 300), concave_hull(&s, 300));
    assert_eq!(k_nearest_concave_hull(&s, 3), k_nearest_concave_hull(&s, 3));
}

#[test]
fn add_or_toggle_removes_point_within_radius() {
    let mut s = PointSet::new();
    s.add_or_toggle(10, 10);
    assert_eq!(s.points, vec![p(10, 10)]);
    s.add_or_toggle(12, 12);
    assert_eq!(s.points, vec![]);
}

#[test]
fn add_or_toggle_adds_point_at_exact_radius() {
    let mut s = PointSet::new();
    s.add_or_toggle(10, 10);
    s.add_or_toggle(20, 10);
    assert_eq!(s.points, vec![p(10, 10), p(20, 10)]);
}

#[test]
fn add_or_toggle_removes_first_match_in_insertion_order() {
    let mut s = ps(&[(0, 0), (100, 0), (104, 0)]);
    s.add_or_toggle(102, 0);
    assert_eq!(s.points, vec![p(0, 0), p(104, 0)]);
}

#[test]
fn clear_empties_the_set() {
    let mut s = ps(&[(0, 0), (10, 0), (10, 10)]);
    s.clear();
    assert_eq!(s.points, vec![]);
    assert_eq!(s.len(), 0);
}

#[test]
fn concave_and_k_nearest_vertices_come_from_input() {
    let pts = [(0, 0), (40, 0), (40, 30), (0, 30), (18, 7), (25, 22)];
    let s = ps(&pts);
    let c = concave_hull(&s, 800).unwrap();
    let k = k_nearest_concave_hull(&s, 3).unwrap();
    for v in c.vertices.iter().chain(k.vertices.iter()) {
        assert!(pts.iter().any(|&(x, y)| p(x, y) == *v));
    }
    assert!(ring_is_simple(&c.vertices));
    assert!(ring_is_simple(&k.vertices));
}

#[test]
fn concave_never_orphans_a_point() {
    // With full concavity the bottom edge would first dig to (50, 5), but that
    // ring leaves (30, 2) outside; the refinement must reject it and keep
    // every input point on or inside the boundary.
    let pts = [(0, 0), (100, 0), (100, 60), (0, 60), (50, 5), (30, 2)];
    let s = ps(&pts);
    let h = concave_hull(&s, 1000).unwrap();
    assert!(ring_is_simple(&h.vertices));
    for &(x, y) in &pts {
        assert!(contained(&h.vertices, p(x, y)));
    }
    assert!(h.vertices.contains(&p(30, 2)));
}

#[test]
fn k_nearest_ring_contains_every_input_point() {
    let pts = [(0, 0), (20, 0), (20, 10), (10, 10), (10, 30), (0, 30), (12, 4)];
    let s = ps(&pts);
    let h = k_nearest_concave_hull(&s, 3).unwrap();
    for &(x, y) in &pts {
        assert!(contained(&h.vertices, p(x, y)));
    }
}
