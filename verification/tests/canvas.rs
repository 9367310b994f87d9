use geo::canvas::{first_within, interesting_distribution};
use geo::point::Point;

#[test]
fn picks_the_first_point_in_reach() {
    let pts = vec![Point::new(100, 100), Point::new(0, 0), Point::new(3, 4), Point::new(1, 1)];
    assert_eq!(first_within(&pts, 0, 0, 10), Some(1));
    assert_eq!(first_within(&pts, 3, 5, 2), Some(2));
    assert_eq!(first_within(&pts, 3, 9, 5), None);
    assert_eq!(first_within(&pts, 103, 104, 5), None);
    assert_eq!(first_within(&pts, 103, 104, 6), Some(0));
    assert_eq!(first_within(&Vec::new(), 0, 0, 100), None);
}

#[test]
fn thinning_removes_close_points() {
    let mut pts = vec![
        Point::new(0, 0), Point::new(5_000, 0), Point::new(100_000, 0),
        Point::new(103_000, 4_000), Point::new(300_000, 300_000),
    ];
    let removed = interesting_distribution(&mut pts, 10_000);
    assert_eq!(removed, 2);
    assert_eq!(pts.len(), 3);
    for i in 0..pts.len() {
        for j in (i + 1)..pts.len() {
            assert!(pts[i].squared_distance(&pts[j]) >= 10_000u128 * 10_000);
        }
    }
}

#[test]
fn thinning_keeps_a_spread_set() {
    let mut pts = vec![Point::new(0, 0), Point::new(50, 0), Point::new(0, 50)];
    let removed = interesting_distribution(&mut pts, 50);
    assert_eq!(removed, 0);
    assert_eq!(pts.len(), 3);
    let mut one = vec![Point::new(7, 7)];
    assert_eq!(interesting_distribution(&mut one, 1_000_000), 0);
    let mut none: Vec<Point> = Vec::new();
    assert_eq!(interesting_distribution(&mut none, 1_000_000), 0);
}

#[test]
fn thinning_can_leave_one_point() {
    let mut pts = vec![Point::new(0, 0), Point::new(10, 0), Point::new(20, 0)];
    let removed = interesting_distribution(&mut pts, 1_000);
    assert_eq!(removed, 2);
    assert_eq!(pts.len(), 1);
}
