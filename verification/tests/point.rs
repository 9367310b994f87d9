use geo::datatype::{Total, Fx64};
use geo::point::{Point, POINT_EPS, merge_halves, sort_x, sort_y, floor_sqrt, dist_sq_le};

/// One in the units of a coordinate (10^-9).
const U: i64 = 1_000_000_000;

#[test]
fn test_distance() {
    let p1 = Point::new(0, 0);
    let p2 = Point::new(3 * U, 4 * U);
    let d1 = p1.distance(&p2);
    let d2 = p2.distance(&p1);
    assert_eq!(Total::new(Fx64::from_units(d1 as i64)), Total::new(Fx64::from_units(d2 as i64)));
    assert_eq!(Total::new(Fx64::from_units(d1 as i64)), Total::new(Fx64::from_units(5 * U)));
}

#[test]
fn test_pointvec_sort() {
    let pv = vec![Point::new(U, U), Point::new(2 * U, 11 * U / 10), Point::new(19 * U / 10, 25 * U / 10)];
    let sx = vec![Point::new(U, U), Point::new(19 * U / 10, 25 * U / 10), Point::new(2 * U, 11 * U / 10)];
    let sy = vec![Point::new(U, U), Point::new(2 * U, 11 * U / 10), Point::new(19 * U / 10, 25 * U / 10)];
    let mut pv1 = pv.clone();
    sort_x(&mut pv1);
    pv1.iter().zip(sx.iter()).for_each(|(p1, p2)| {
        assert_eq!(p1, p2);
    });
    let mut pv2 = pv.clone();
    sort_y(&mut pv2);
    pv2.iter().zip(sy.iter()).for_each(|(p1, p2)| {
        assert_eq!(p1, p2);
    });
}

#[test]
fn test_eps() {
    // Coordinates are whole multiples of the tolerance, so no point lies half
    // a tolerance away from another: the nearest other coordinate is a whole
    // tolerance away, and there the points differ.
    assert_ne!(Point::new(U, U), Point::new(U, U + POINT_EPS * 11 / 10));
    assert_ne!(Point::new(U, U), Point::new(U + POINT_EPS, U));
}

#[test]
fn point_equality_is_agreement_to_the_unit() {
    let a = Point::new(7, -3);
    let b = Point::new(7, -3);
    let c = Point::new(8, -3);
    assert_eq!(a, b);
    assert_eq!(b, a);
    assert_ne!(a, c);
    assert_ne!(c, a);
}

#[test]
fn squared_distance_is_exact() {
    let a = Point::new(-3, 7);
    let b = Point::new(1, 4);
    assert_eq!(a.squared_distance(&b), 25);
    assert_eq!(b.squared_distance(&a), 25);
    assert_eq!(a.distance(&a), 0);
}

#[test]
fn squared_distance_at_the_coordinate_limit() {
    let lim = geo::point::COORD_LIMIT;
    let a = Point::new(-lim, -lim);
    let b = Point::new(lim, lim);
    let d = 2u128 * (2 * lim as u128) * (2 * lim as u128);
    assert_eq!(a.squared_distance(&b), d);
}

#[test]
fn floor_sqrt_values() {
    assert_eq!(floor_sqrt(0), 0);
    assert_eq!(floor_sqrt(1), 1);
    assert_eq!(floor_sqrt(24), 4);
    assert_eq!(floor_sqrt(25), 5);
    assert_eq!(floor_sqrt(26), 5);
    assert_eq!(floor_sqrt(u128::MAX), u64::MAX);
}

#[test]
fn dist_sq_le_compares_lengths() {
    let o = Point::new(0, 0);
    let a = Point::new(3, 4);
    let b = Point::new(0, 5);
    let c = Point::new(6, 0);
    assert!(dist_sq_le(&o, &a, &o, &b));
    assert!(dist_sq_le(&o, &b, &o, &a));
    assert!(dist_sq_le(&o, &a, &o, &c));
    assert!(!dist_sq_le(&o, &c, &o, &a));
}

#[test]
fn sort_is_stable() {
    let mut v = vec![Point::new(2, 9), Point::new(1, 5), Point::new(2, 3), Point::new(1, 1)];
    sort_x(&mut v);
    let ys: Vec<i64> = v.iter().map(|p| p.y).collect();
    assert_eq!(ys, vec![5, 1, 9, 3]);
    let mut w = vec![Point::new(9, 2), Point::new(5, 1), Point::new(3, 2), Point::new(1, 1)];
    sort_y(&mut w);
    let xs: Vec<i64> = w.iter().map(|p| p.x).collect();
    assert_eq!(xs, vec![5, 1, 9, 3]);
}

#[test]
fn sort_of_empty_and_single() {
    let mut e: Vec<Point> = Vec::new();
    sort_x(&mut e);
    assert!(e.is_empty());
    let mut one = vec![Point::new(4, 4)];
    sort_y(&mut one);
    assert_eq!(one[0].x, 4);
}

#[test]
fn merging_halves_keeps_the_left_point_first_and_fills_aux() {
    let mut data = vec![Point::new(0, U), Point::new(U, 5 * U), Point::new(2 * U, U), Point::new(3 * U, 2 * U)];
    let mut aux = vec![Point::new(0, 0); 4];
    merge_halves(&mut data, &mut aux, 2, true);
    let xs: Vec<i64> = data.iter().map(|p| p.x).collect();
    assert_eq!(xs, vec![0, 2 * U, 3 * U, U]);
    assert!(data.iter().zip(aux.iter()).all(|(a, b)| a == b));
}

#[test]
fn merging_unordered_halves_still_merges() {
    let mut data = vec![Point::new(0, 9), Point::new(1, 2), Point::new(2, 5), Point::new(3, 1)];
    let mut aux = vec![Point::new(0, 0); 4];
    merge_halves(&mut data, &mut aux, 2, true);
    let ys: Vec<i64> = data.iter().map(|p| p.y).collect();
    assert_eq!(ys, vec![5, 1, 9, 2]);
}
