use mineswpr::point::Point;

#[test]
fn neighbors_of_interior_point_in_row_major_offset_order() {
    let p = Point::new(1, 1);
    let n = p.neighbors();
    let expected = vec![
        Point::new(0, 0),
        Point::new(0, 1),
        Point::new(0, 2),
        Point::new(1, 0),
        Point::new(1, 2),
        Point::new(2, 0),
        Point::new(2, 1),
        Point::new(2, 2),
    ];
    assert_eq!(n, expected);
}

#[test]
fn neighbors_drop_candidates_that_would_underflow() {
    let p = Point::new(0, 0);
    let n = p.neighbors();
    let expected = vec![Point::new(0, 1), Point::new(1, 0), Point::new(1, 1)];
    assert_eq!(n, expected);
}

#[test]
fn neighbors_on_an_edge_keep_only_in_range_candidates() {
    let p = Point::new(0, 3);
    let n = p.neighbors();
    let expected = vec![
        Point::new(0, 2),
        Point::new(0, 4),
        Point::new(1, 2),
        Point::new(1, 3),
        Point::new(1, 4),
    ];
    assert_eq!(n, expected);
}

#[test]
fn random_point_respects_its_bounds() {
    for _ in 0..50 {
        let p = Point::random(3, 5);
        assert!(p.x < 3);
        assert!(p.y < 5);
    }
    let p = Point::random(1, 1);
    assert_eq!(p, Point::new(0, 0));
}
