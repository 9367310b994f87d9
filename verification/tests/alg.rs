use rand::Rng;
use geo::alg::{closest_pair, ClosestPairResult};
use geo::point::Point;

/// One in the units of a coordinate (10^-9).
const U: i64 = 1_000_000_000;

#[test]
fn alg_closest_pair1() {
    let points = vec![
        Point { x: -10 * U, y: -10 * U },
        Point { x: U, y: U },
        Point { x: 2 * U, y: 2 * U },
        Point { x: U / 2, y: U / 2 },
    ];
    let res: (Point, Point) = closest_pair(points.clone()).unwrap().unwrap().into();
    assert!(res == (points[1], points[3]) || res == (points[3], points[1]));
}

#[test]
fn alg_single_point_has_no_pair() {
    let res = closest_pair(vec![Point::new(1, 2)]).unwrap();
    assert!(res.is_none());
}

#[test]
fn alg_duplicate_x_is_refused() {
    let points = vec![
        Point::new(2_500_000_000, 1_000_000_000), Point::new(0, 0),
        Point::new(2_500_000_000, 9_876_543_210), Point::new(30 * U, 2),
    ];
    let err = closest_pair(points).unwrap_err();
    assert_eq!(err, "Duplicate X coordinate: (2.50, 1.00) and (2.50, 9.88)");
}

#[test]
fn alg_matches_brute_force() {
    let mut points = Vec::new();
    let mut s: i64 = 12345;
    for i in 0..200 {
        s = (s * 1103515245 + 12345) % 2147483648;
        points.push(Point::new(i * 1_000_000 + s % 1000, (s / 7) % 100_000_000));
    }
    let res = closest_pair(points.clone()).unwrap().unwrap();
    let mut best: u128 = u128::MAX;
    for i in 0..points.len() {
        for j in (i + 1)..points.len() {
            best = best.min(points[i].squared_distance(&points[j]));
        }
    }
    assert_eq!(res.dist_sq(), best);
}

#[test]
fn merge_keeps_the_first_within_the_tolerance() {
    // lengths 5 and sqrt(17): less than one unit apart, so the first stays
    let a = ClosestPairResult { p1: Point::new(0, 0), p2: Point::new(3, 4) };
    let b = ClosestPairResult { p1: Point::new(0, 0), p2: Point::new(4, 1) };
    // lengths 5 and 4: exactly one unit apart, so the shorter wins
    let c = ClosestPairResult { p1: Point::new(0, 0), p2: Point::new(4, 0) };
    assert_eq!(ClosestPairResult::merge(&Some(a), &Some(b)).unwrap().p2.x, 3);
    assert_eq!(ClosestPairResult::merge(&Some(b), &Some(a)).unwrap().p2, Point::new(4, 1));
    assert_eq!(ClosestPairResult::merge(&Some(a), &Some(c)).unwrap().p2, Point::new(4, 0));
}

#[test]
fn merge_prefers_the_shorter_and_the_first_on_a_tie() {
    let a = ClosestPairResult { p1: Point::new(0, 0), p2: Point::new(3, 4) };
    let b = ClosestPairResult { p1: Point::new(0, 0), p2: Point::new(5, 0) };
    let c = ClosestPairResult { p1: Point::new(0, 0), p2: Point::new(1, 0) };
    assert_eq!(ClosestPairResult::merge(&Some(a), &Some(b)).unwrap().p2.x, 3);
    assert_eq!(ClosestPairResult::merge(&Some(b), &Some(a)).unwrap().p2.x, 5);
    assert_eq!(ClosestPairResult::merge(&Some(a), &Some(c)).unwrap().p2.x, 1);
    assert_eq!(ClosestPairResult::merge(&None, &Some(a)).unwrap().p2.x, 3);
    assert_eq!(ClosestPairResult::merge(&Some(a), &None).unwrap().p2.x, 3);
    assert!(ClosestPairResult::merge(&None, &None).is_none());
}

#[test]
fn sym_twice_gives_the_pair_back() {
    let r = ClosestPairResult { p1: Point::new(1, 2), p2: Point::new(3, 4) };
    let s = r.sym();
    assert_eq!((s.p1.x, s.p1.y, s.p2.x, s.p2.y), (3, 4, 1, 2));
    let t = s.sym();
    assert_eq!((t.p1.x, t.p1.y, t.p2.x, t.p2.y), (1, 2, 3, 4));
    assert_eq!(r.dist_sq(), s.dist_sq());
    assert_eq!(r.dist(), 2);
}

#[test]
fn alg_result_does_not_depend_on_input_order() {
    let k = 10_000;
    let pts = vec![Point::new(0, 0), Point::new(10 * k, 10 * k), Point::new(13 * k, 14 * k), Point::new(40 * k, k), Point::new(-7 * k, 3 * k)];
    let mut rev = pts.clone();
    rev.reverse();
    let a = closest_pair(pts).unwrap().unwrap();
    let b = closest_pair(rev).unwrap().unwrap();
    assert_eq!(a.dist_sq(), b.dist_sq());
    assert_eq!(a.dist_sq(), 25 * 10_000 * 10_000);
}

#[test]
fn alg_closest_pair2() {
    const N: usize = 2000;
    const VERIFY_THRESHOLD: usize = 50000;
    let mut points = Vec::<Point>::new();
    points.reserve(N);
    let mut rng = rand::rng();
    for _ in 0..N {
        let x = rng.random_range(-10000 * U..10000 * U);
        let y = rng.random_range(-10000 * U..10000 * U);
        points.push(Point { x, y });
    }

    let result = closest_pair(points.clone()).unwrap().unwrap();
    println!("Main algorithm reports: {:?}", result);
    if N <= VERIFY_THRESHOLD {
        let mut answer: Option<ClosestPairResult> = None;
        for i in 0..(N - 1) {
            for j in (i + 1)..N {
                let curr = ClosestPairResult { p1: points[i], p2: points[j] };
                answer = ClosestPairResult::merge(&answer, &Some(curr));
            }
        }
        println!("Expected answer is: {:?}", answer);

        let result_tuple: (Point, Point) = result.into();
        let answer_tuple: (Point, Point) = answer.clone().unwrap().into();
        let answer_sym_tuple = answer.unwrap().sym().into();
        assert!(result_tuple == answer_tuple || result_tuple == answer_sym_tuple);
    } else {
        println!("Size too large, skipping verification");
    }
}

#[test]
fn alg_duplicate_x_message_with_negative_coordinates() {
    let points = vec![
        Point::new(-4_990_000_000, 7_000_000_000), Point::new(0, 0), Point::new(-4_990_000_000, -1_234_000_000),
    ];
    let err = closest_pair(points).unwrap_err();
    assert_eq!(err, "Duplicate X coordinate: (-4.99, 7.00) and (-4.99, -1.23)");
}

#[test]
fn alg_error_rounds_to_hundredths_half_to_even() {
    let points = vec![Point::new(-5_000_000, 125_000_000), Point::new(-5_000_000, 135_000_001)];
    let err = closest_pair(points).unwrap_err();
    assert_eq!(err, "Duplicate X coordinate: (-0.00, 0.12) and (-0.00, 0.14)");
}
