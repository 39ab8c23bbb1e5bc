use triangulation::geometry::{circumCircle, Point};
use triangulation::triangulation::{triBowyerWatson, Triangulation};
use triangulation::voronoi::Voronoi;

fn square_plus_center() -> Vec<Point> {
    // A 2x2 square's corners plus its center: 5 points, hull size 4.
    vec![
        Point::new(0, 0),
        Point::new(2, 0),
        Point::new(2, 2),
        Point::new(0, 2),
        Point::new(1, 1),
    ]
}

fn build(points: Vec<Point>) -> Triangulation {
    triBowyerWatson(points).expect("the input is non-degenerate")
}

#[test]
fn too_few_points_fail_fast() {
    assert!(triBowyerWatson(vec![]).is_err());
    assert!(triBowyerWatson(vec![Point::new(0, 0)]).is_err());
    assert!(triBowyerWatson(vec![Point::new(0, 0), Point::new(5, 5)]).is_err());
}

#[test]
fn degenerate_bounding_box_fails_fast() {
    // Three points on a horizontal line: the bounding box has no height.
    let r = triBowyerWatson(vec![Point::new(0, 0), Point::new(1, 0), Point::new(2, 0)]);
    assert!(r.is_err());
    // On a vertical line: no width.
    let r = triBowyerWatson(vec![Point::new(3, 0), Point::new(3, 5), Point::new(3, 9)]);
    assert!(r.is_err());
}

#[test]
fn collinear_points_fail_explicitly() {
    // Exactly collinear points with a non-degenerate bounding box must
    // produce an explicit error, never a malformed triangulation.
    let r = triBowyerWatson(vec![Point::new(0, 0), Point::new(1, 1), Point::new(2, 2)]);
    assert!(r.is_err());
    let r = triBowyerWatson(vec![
        Point::new(0, 0),
        Point::new(1, 1),
        Point::new(2, 2),
        Point::new(3, 3),
    ]);
    assert!(r.is_err());
}

#[test]
fn triangle_count_matches_hull_formula() {
    // For n points with convex-hull size h, the retained triangle count is
    // 2n - h - 2; the square plus its center gives 2*5 - 4 - 2 = 4, all
    // sharing the center point (index 4).
    let t = build(square_plus_center());
    assert_eq!(t.points.len(), 5);
    assert_eq!(t.triangles.len(), 4);
    for tri in &t.triangles {
        assert!(tri.0 == 4 || tri.1 == 4 || tri.2 == 4);
    }
    // A plain triangle: n = 3, h = 3 gives a single triangle.
    let t = build(vec![Point::new(0, 0), Point::new(4, 0), Point::new(0, 4)]);
    assert_eq!(t.triangles.len(), 1);
    assert_eq!(t.triangles[0], (0, 1, 2));
}

#[test]
fn adjacency_index_maps_each_edge_to_one_or_two_triangles() {
    let t = build(square_plus_center());
    // 4 hull edges with one owner, 4 spokes with two owners.
    assert_eq!(t.edgeCount(), 8);
    let mut singles = 0;
    let mut doubles = 0;
    for k in 0..t.edgeCount() {
        let c = t.edgeOwnerCount(k);
        assert!(c == 1 || c == 2);
        if c == 1 {
            singles += 1;
        } else {
            doubles += 1;
        }
    }
    assert_eq!(singles, 4);
    assert_eq!(doubles, 4);
    // The same holds on a larger, irregular input.
    let t = build(vec![
        Point::new(0, 0),
        Point::new(10, 1),
        Point::new(7, 9),
        Point::new(2, 6),
        Point::new(5, 3),
        Point::new(9, 5),
        Point::new(1, 9),
    ]);
    for k in 0..t.edgeCount() {
        let c = t.edgeOwnerCount(k);
        assert!(c == 1 || c == 2);
    }
}

fn common_vertices(a: (usize, usize, usize), b: (usize, usize, usize)) -> Vec<usize> {
    let av = [a.0, a.1, a.2];
    let bv = [b.0, b.1, b.2];
    let mut out = Vec::new();
    for x in av.iter() {
        if bv.contains(x) {
            out.push(*x);
        }
    }
    out
}

#[test]
fn ordered_fan_at_center_is_cyclic() {
    let t = build(square_plus_center());
    let fan = t.trisWithPointOrdered(4).expect("the fan walk succeeds");
    assert_eq!(fan.len(), 4);
    // Each consecutive pair, wrapping around, shares an edge through the
    // center point: two common vertices, one of which is the center.
    for c in 0..4 {
        let t1 = t.triangles[fan[c]];
        let t2 = t.triangles[fan[(c + 1) % 4]];
        let shared = common_vertices(t1, t2);
        assert_eq!(shared.len(), 2);
        assert!(shared.contains(&4));
    }
    // No triangle appears twice.
    for a in 0..4 {
        for b in (a + 1)..4 {
            assert_ne!(fan[a], fan[b]);
        }
    }
}

#[test]
fn ordered_fan_at_hull_point_is_linear() {
    let t = build(square_plus_center());
    // A corner of the square touches two triangles; consecutive fan
    // entries share an edge through it, without wraparound.
    let fan = t.trisWithPointOrdered(0).expect("the fan walk succeeds");
    assert_eq!(fan.len(), 2);
    let shared = common_vertices(t.triangles[fan[0]], t.triangles[fan[1]]);
    assert_eq!(shared.len(), 2);
    assert!(shared.contains(&0));
}

#[test]
fn voronoi_cell_of_interior_point_is_closed_quadrilateral() {
    let t = build(square_plus_center());
    let mut counts = Vec::new();
    for p in 0..5 {
        counts.push(t.incidentCount(p));
    }
    let v = Voronoi::fromTriangulation(t).expect("the dual exists");
    assert_eq!(v.count(), 5);
    // Every cell has one vertex per incident triangle.
    for p in 0..5 {
        assert_eq!(v.polygons[p].len(), counts[p]);
    }
    // The center's cell is a closed quadrilateral of the 4 circumcenters
    // (1,0), (2,1), (1,2), (0,1), in fan order.
    let cell = &v.polygons[4];
    assert_eq!(cell.len(), 4);
    let mut expected = vec![(1, 0), (2, 1), (1, 2), (0, 1)];
    for q in cell.iter() {
        assert!(q.den > 0);
        let xy = (q.num_x / q.den, q.num_y / q.den);
        assert_eq!(q.num_x % q.den, 0);
        assert_eq!(q.num_y % q.den, 0);
        let pos = expected
            .iter()
            .position(|e| *e == (xy.0 as i64, xy.1 as i64))
            .expect("an expected circumcenter");
        expected.remove(pos);
    }
    assert!(expected.is_empty());
}

#[test]
fn voronoi_rebuild_is_idempotent() {
    // Building the diagram twice from the same triangulation (rebuilt from
    // identical input) yields identical polygons.
    let v1 = Voronoi::fromTriangulation(build(square_plus_center())).unwrap();
    let v2 = Voronoi::fromTriangulation(build(square_plus_center())).unwrap();
    assert_eq!(v1.count(), v2.count());
    for p in 0..v1.count() {
        let c1 = &v1.polygons[p];
        let c2 = &v2.polygons[p];
        assert_eq!(c1.len(), c2.len());
        for (a, b) in c1.iter().zip(c2.iter()) {
            assert_eq!(a.num_x, b.num_x);
            assert_eq!(a.num_y, b.num_y);
            assert_eq!(a.den, b.den);
        }
    }
}

#[test]
fn larger_input_builds_a_consistent_triangulation() {
    let pts = vec![
        Point::new(-50, -40),
        Point::new(60, -30),
        Point::new(45, 70),
        Point::new(-35, 55),
        Point::new(5, 10),
        Point::new(20, -15),
        Point::new(-10, 30),
        Point::new(33, 28),
    ];
    let n = pts.len();
    let t = build(pts);
    assert_eq!(t.points.len(), n);
    assert!(t.triangles.len() >= 1);
    for tri in &t.triangles {
        assert!(tri.0 < tri.1 && tri.1 < tri.2 && tri.2 < n);
    }
    for k in 0..t.edgeCount() {
        let c = t.edgeOwnerCount(k);
        assert!(c == 1 || c == 2);
    }
    let mut counts = Vec::new();
    for p in 0..n {
        counts.push(t.incidentCount(p));
    }
    let v = Voronoi::fromTriangulation(t).expect("the dual exists");
    for p in 0..n {
        assert_eq!(v.polygons[p].len(), counts[p]);
    }
}

#[test]
fn retained_triangles_satisfy_delaunay_property() {
    // No input point lies strictly inside the circumcircle of any retained
    // triangle: the defining property of the triangulation.
    let pts = vec![
        Point::new(-50, -40),
        Point::new(60, -30),
        Point::new(45, 70),
        Point::new(-35, 55),
        Point::new(5, 10),
        Point::new(20, -15),
        Point::new(-10, 30),
        Point::new(33, 28),
    ];
    let t = build(pts);
    for tri in &t.triangles {
        let c = circumCircle(&t.points[tri.0], &t.points[tri.1], &t.points[tri.2])
            .expect("retained triangles are non-degenerate");
        for (pi, p) in t.points.iter().enumerate() {
            if pi != tri.0 && pi != tri.1 && pi != tri.2 {
                assert!(!c.enclose(p));
            }
        }
    }
}
