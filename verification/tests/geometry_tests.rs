use triangulation::geometry::{circumCircle, edgeInTriangle, makeTriangle, Point};
use triangulation::triangulation::makeEdge;

#[test]
fn testCircumCircle() {
    // The right triangle (6,0), (0,0), (0,8): its hypotenuse is a diameter,
    // so the center is (3,4) and the radius 5.
    let c = circumCircle(&Point::new(6, 0), &Point::origin(), &Point::new(0, 8))
        .expect("three non-collinear points have a circumcircle");
    let den = c.center.den;
    assert!(den > 0);
    assert_eq!(c.center.num_x, 3 * den);
    assert_eq!(c.center.num_y, 4 * den);
    // radius^2 == 25, exactly: radius_sq_num / den^2 == 25.
    assert_eq!(c.radius_sq_num, 25 * den * den);
}

#[test]
fn circumcircle_equidistant_from_all_three() {
    // An asymmetric non-collinear triple: all three corners lie exactly on
    // the computed circle.
    let pts = [Point::new(1, 1), Point::new(4, 2), Point::new(2, 5)];
    let c = circumCircle(&pts[0], &pts[1], &pts[2]).expect("non-collinear");
    for p in pts.iter() {
        let dx = (p.x as i128) * c.center.den - c.center.num_x;
        let dy = (p.y as i128) * c.center.den - c.center.num_y;
        assert_eq!(dx * dx + dy * dy, c.radius_sq_num);
    }
}

#[test]
fn circumcircle_of_collinear_points_is_none() {
    assert!(circumCircle(&Point::new(0, 0), &Point::new(1, 1), &Point::new(2, 2)).is_none());
    assert!(circumCircle(&Point::new(0, 0), &Point::new(1, 0), &Point::new(2, 0)).is_none());
    assert!(circumCircle(&Point::new(3, 3), &Point::new(3, 3), &Point::new(1, 2)).is_none());
}

#[test]
fn enclose_is_an_open_disk() {
    let c = circumCircle(&Point::new(6, 0), &Point::origin(), &Point::new(0, 8)).unwrap();
    // Strictly inside.
    assert!(c.enclose(&Point::new(3, 4)));
    assert!(c.enclose(&Point::new(1, 1)));
    // Exactly on the boundary: excluded by design.
    assert!(!c.enclose(&Point::new(6, 0)));
    assert!(!c.enclose(&Point::new(0, 0)));
    assert!(!c.enclose(&Point::new(0, 8)));
    // Outside.
    assert!(!c.enclose(&Point::new(10, 10)));
    assert!(!c.enclose(&Point::new(-3, 4)));
}

#[test]
fn make_triangle_sorts_ascending() {
    assert_eq!(makeTriangle(1, 2, 3), (1, 2, 3));
    assert_eq!(makeTriangle(3, 2, 1), (1, 2, 3));
    assert_eq!(makeTriangle(2, 3, 1), (1, 2, 3));
    assert_eq!(makeTriangle(2, 1, 3), (1, 2, 3));
    assert_eq!(makeTriangle(1, 3, 2), (1, 2, 3));
    assert_eq!(makeTriangle(3, 1, 2), (1, 2, 3));
    assert_eq!(makeTriangle(7, 0, 9), (0, 7, 9));
}

#[test]
fn make_edge_puts_smaller_first() {
    assert_eq!(makeEdge(5, 2), (2, 5));
    assert_eq!(makeEdge(2, 5), (2, 5));
    assert_eq!(makeEdge(4, 4), (4, 4));
}

#[test]
fn edge_in_triangle_checks_both_endpoints() {
    let t = (1, 4, 9);
    assert!(edgeInTriangle((1, 4), t));
    assert!(edgeInTriangle((9, 1), t));
    assert!(edgeInTriangle((4, 9), t));
    assert!(!edgeInTriangle((1, 2), t));
    assert!(!edgeInTriangle((2, 3), t));
}
