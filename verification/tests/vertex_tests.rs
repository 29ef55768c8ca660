use astar::vertex::Vertex;

#[test]
fn vertex_constructor_works() {
    assert_eq!(Vertex::new(1, 1), Vertex { x: 1, y: 1 });
    assert_eq!(Vertex::new(-1, 2), Vertex { x: -1, y: 2 });
    assert_eq!(Vertex::new(-1, -2), Vertex { x: -1, y: -2 });
}

#[test]
fn distance_works() {
    let (p1, p2) = (Vertex::new(1, 2), Vertex::new(4, 3));
    assert_eq!(p1.distance(&p2), 31);
    let (p3, p4) = (Vertex::new(0, 0), Vertex::new(-1, -1));
    assert_eq!(p3.distance(&p4), 14);
}

#[test]
fn hdistance_works() {
    let (p1, p2) = (Vertex::new(1, 2), Vertex::new(4, 3));
    assert_eq!(p1.hdistance(&p2), 30);
    let (p3, p4) = (Vertex::new(0, 0), Vertex::new(-1, -1));
    assert_eq!(p3.hdistance(&p4), 10);
}

#[test]
fn distance_is_zero_only_on_equal_points() {
    let p = Vertex::new(7, -3);
    assert_eq!(p.distance(&p), 0);
    assert_eq!(p.hdistance(&p), 0);
    let q = Vertex::new(7, -2);
    assert_eq!(p.distance(&q), 10);
    assert_eq!(p.hdistance(&q), 10);
}

#[test]
fn distance_truncates_scaled_euclidean() {
    // sqrt(3*3 + 4*4) = 5 exactly, so the scaled cost is 50.
    let (a, b) = (Vertex::new(0, 0), Vertex::new(3, 4));
    assert_eq!(a.distance(&b), 50);
    // sqrt(200) = 14.14..., truncated after scaling by 10 to 141.
    let (c, d) = (Vertex::new(0, 0), Vertex::new(10, 10));
    assert_eq!(c.distance(&d), 141);
}
