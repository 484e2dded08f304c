use swrender::math::{BndBox2i, BndBox3i, Point2, Point2i, Point3, Point3i, Vec3};

#[test]
fn bbox2_grows_to_hold_points() {
    let mut b = BndBox2i::new_empty();
    assert!(b.empty);
    b.add_point(Point2i { x: 3, y: -2 });
    assert!(!b.empty);
    assert_eq!((b.min.x, b.min.y, b.max.x, b.max.y), (3, -2, 3, -2));
    b.add_point(Point2i { x: -1, y: 5 });
    b.add_point(Point2i { x: 2, y: 0 });
    assert_eq!((b.min.x, b.min.y, b.max.x, b.max.y), (-1, -2, 3, 5));
}

#[test]
fn bbox2_clamp_and_center() {
    let mut b = BndBox2i::new_empty();
    b.add_point(Point2i { x: -4, y: -4 });
    b.add_point(Point2i { x: 10, y: 7 });
    let mut screen = BndBox2i::new_empty();
    screen.add_point(Point2i { x: 0, y: 0 });
    screen.add_point(Point2i { x: 5, y: 5 });
    b.clamp_by(&screen);
    assert_eq!((b.min.x, b.min.y, b.max.x, b.max.y), (0, 0, 5, 5));
    let p = screen.clamp(Point2i { x: -3, y: 9 });
    assert_eq!((p.x, p.y), (0, 5));
    let p = screen.clamp(Point2i { x: 2, y: 3 });
    assert_eq!((p.x, p.y), (2, 3));
    let c = screen.center();
    assert_eq!((c.x, c.y), (2, 2));
    let mut neg = BndBox2i::new_empty();
    neg.add_point(Point2i { x: -5, y: -1 });
    neg.add_point(Point2i { x: 0, y: 0 });
    let c = neg.center();
    assert_eq!((c.x, c.y), (-2, 0));
}

#[test]
fn bbox3_grows_and_centers() {
    let mut b = BndBox3i::new_empty();
    b.add_point(Point3i { x: 1, y: 2, z: 3 });
    b.add_point(Point3i { x: -3, y: 8, z: 3 });
    assert_eq!((b.min.x, b.min.y, b.min.z), (-3, 2, 3));
    assert_eq!((b.max.x, b.max.y, b.max.z), (1, 8, 3));
    let c = b.center();
    assert_eq!((c.x, c.y, c.z), (-1, 5, 3));
}

#[test]
fn vector_products() {
    let a = Vec3 { x: 1i64, y: 2, z: 3 };
    let b = Vec3 { x: 4i64, y: 5, z: 6 };
    assert_eq!(a.dot(b), 32);
    let c = a.cross(b);
    assert_eq!((c.x, c.y, c.z), (-3, 6, -3));
}

#[test]
fn points() {
    let o = Point2i::origin();
    assert_eq!((o.x, o.y), (0, 0));
    let p = Point2::from_slice(&[4, 9]);
    assert_eq!((p.x, p.y), (4, 9));
    let q = Point3 { x: 1, y: 2, z: 3 }.drop_z();
    assert_eq!((q.x, q.y), (1, 2));
    let o3 = Point3i::origin();
    assert_eq!((o3.x, o3.y, o3.z), (0, 0, 0));
}
