use rand::Rng;
use geo::closest_pair::{closest_pair, merge, Pair, ByDist};
use geo::point::Point;
use geo::visual::{FrameManager, NoRecord, Player};
use geo::visual::shape::Shape;
use std::cmp::Ordering;

/// One in the units of a coordinate (10^-9).
const U: i64 = 1_000_000_000;

#[test]
fn closest_pair_closest_pair1() {
    let points = vec![
        Point::new(-10 * U, -10 * U),
        Point::new(U, U),
        Point::new(2 * U, 2 * U),
        Point::new(U / 5, U / 5),
    ];
    let res = closest_pair(points.clone(), &mut NoRecord, false).unwrap();
    assert!(res.same_pair(&Pair(points[1], points[3])));
}

#[test]
fn closest_pair_needs_two_points() {
    let err = closest_pair(vec![Point::new(0, 0)], &mut NoRecord, false).unwrap_err();
    assert_eq!(err, "At least two points are required");
    let err = closest_pair(Vec::new(), &mut NoRecord, false).unwrap_err();
    assert_eq!(err, "At least two points are required");
}

#[test]
fn closest_pair_allows_equal_x() {
    let points = vec![Point::new(0, 0), Point::new(0, 10), Point::new(0, 3), Point::new(50, 50)];
    let res = closest_pair(points, &mut NoRecord, false).unwrap();
    assert!(res.same_pair(&Pair(Point::new(0, 0), Point::new(0, 3))));
}

#[test]
fn closest_pair_agrees_with_the_owned_version() {
    let k = 10_000;
    let points = vec![
        Point::new(0, 0), Point::new(100 * k, 7 * k), Point::new(205 * k, -30 * k), Point::new(301 * k, 44 * k),
        Point::new(402 * k, 40 * k), Point::new(512 * k, -9 * k), Point::new(611 * k, 80 * k),
    ];
    let a = closest_pair(points.clone(), &mut NoRecord, true).unwrap();
    let b = geo::alg::closest_pair(points).unwrap().unwrap();
    assert_eq!(a.0.squared_distance(&a.1), b.dist_sq());
}

#[test]
fn recording_the_search_gives_frames_to_play() {
    let points = vec![Point::new(0, 0), Point::new(10, 0), Point::new(25, 3), Point::new(60, 2), Point::new(61, 9)];
    let mut fman = FrameManager::with_arena_capacity(points.len());
    let res = closest_pair(points, &mut fman, true).unwrap();
    assert!(res.same_pair(&Pair(Point::new(60, 2), Point::new(61, 9))));
    assert!(fman.frames.len() > 1);
    let mut player: Player = fman.into();
    assert!(!player.finished());
    for _ in 0..1000 {
        player.update(1_000_000);
    }
    assert!(player.finished());
    assert!(!player.get_shapes().is_empty());
}

#[test]
fn recording_only_the_answer() {
    let points = vec![Point::new(0, 0), Point::new(10, 0), Point::new(12, 0)];
    let mut fman = FrameManager::with_arena_capacity(0);
    closest_pair(points, &mut fman, false).unwrap();
    assert_eq!(fman.frames.len(), 1);
    assert_eq!(fman.frames[0].shapes().len(), 3);
    assert_eq!(fman.frames[0].lasting(), None);
}

#[test]
fn pair_equality_ignores_order() {
    let a = Point::new(1, 1);
    let b = Point::new(9, 9);
    assert!(Pair(a, b) == Pair(b, a));
    assert!(Pair(a, b) == Pair(a, b));
    assert!(Pair(a, b) != Pair(a, Point::new(9, 10_000)));
}

#[test]
fn pair_dist_rounds_down() {
    assert_eq!(Pair(Point::new(0, 0), Point::new(1, 1)).dist(), 1);
    assert_eq!(Pair(Point::new(0, 0), Point::new(6, 8)).dist(), 10);
}

#[test]
fn by_dist_orders_by_length() {
    let short = ByDist(Pair(Point::new(0, 0), Point::new(1, 0)));
    let long = ByDist(Pair(Point::new(0, 0), Point::new(0, 2)));
    let same = ByDist(Pair(Point::new(5, 5), Point::new(5, 6)));
    assert!(short < long);
    assert!(long > short);
    assert!(short == same);
    assert_eq!(short.dist_order(&long), Ordering::Less);
    assert_eq!(long.dist_order(&short), Ordering::Greater);
    assert_eq!(short.dist_order(&same), Ordering::Equal);
    let m = long.min(short);
    assert_eq!((m.0).1.x, 1);
    let n = short.min(same);
    assert_eq!((n.0).0.x, 0);
}

#[test]
fn closest_pair_closest_pair2() {
    const N: usize = 2000;
    const VERIFY_THRESHOLD: usize = 50000;
    let mut points = Vec::with_capacity(N);
    let mut rng = rand::rng();
    for _ in 0..N {
        let x = rng.random_range(-10000 * U..10000 * U);
        let y = rng.random_range(-10000 * U..10000 * U);
        points.push(Point::new(x, y));
    }

    let result = closest_pair(points.clone(), &mut NoRecord, false).unwrap();
    println!("Main algorithm reports: {:?}", result);
    if N <= VERIFY_THRESHOLD {
        let mut answer: Option<Pair> = None;
        for i in 0..(N - 1) {
            for j in (i + 1)..N {
                let curr = Pair(points[i], points[j]);
                answer = merge(answer, Some(curr));
            }
        }
        println!("Expected answer is: {:?}", answer);
        assert!(result.same_pair(&answer.unwrap()));
    } else {
        println!("Size too large, skipping verification");
    }
}

#[test]
fn refusing_leaves_the_recording_as_it_was() {
    let mut fman = FrameManager::with_arena_capacity(2);
    assert!(closest_pair(vec![Point::new(1, 1)], &mut fman, true).is_err());
    assert!(fman.frames.is_empty());
}

#[test]
fn ties_give_the_same_pair_with_or_without_animation() {
    let points = vec![Point::new(0, 0), Point::new(U, 0), Point::new(0, U), Point::new(U, U), Point::new(3 * U, 3 * U)];
    let mut fman = FrameManager::with_arena_capacity(8);
    let a = closest_pair(points.clone(), &mut fman, true).unwrap();
    let b = closest_pair(points.clone(), &mut NoRecord, false).unwrap();
    assert_eq!((a.0.x, a.0.y, a.1.x, a.1.y), (b.0.x, b.0.y, b.1.x, b.1.y));
}

#[test]
fn merge_counts_lengths_within_the_tolerance_as_equal() {
    let a = Pair(Point::new(0, 0), Point::new(3, 4));
    let b = Pair(Point::new(0, 0), Point::new(4, 1));
    let c = Pair(Point::new(0, 0), Point::new(4, 0));
    assert!(merge(Some(a), Some(b)).unwrap().same_pair(&a));
    assert!(merge(Some(b), Some(a)).unwrap().same_pair(&b));
    assert!(merge(Some(a), Some(c)).unwrap().same_pair(&c));
    assert!(merge(None, Some(b)).unwrap().same_pair(&b));
}

#[test]
fn the_animated_search_leaves_only_the_answer_on_screen() {
    let points = vec![Point::new(0, 0), Point::new(10, 0), Point::new(25, 3), Point::new(60, 2), Point::new(61, 9)];
    let mut fman = FrameManager::with_arena_capacity(points.len());
    let res = closest_pair(points, &mut fman, true).unwrap();
    let last = fman.frames.last().unwrap();
    assert_eq!(last.lasting(), Some(1_000_000));
    let shapes = last.shapes();
    assert_eq!(shapes.len(), 3);
    let (a, b) = (res.0, res.1);
    assert!(shapes.contains(&Shape::EmpPoint { x: a.x, y: a.y, style: 0 }));
    assert!(shapes.contains(&Shape::EmpPoint { x: b.x, y: b.y, style: 0 }));
    assert!(shapes.contains(&Shape::EmpLine { x1: a.x, y1: a.y, x2: b.x, y2: b.y, style: 0 })
        || shapes.contains(&Shape::EmpLine { x1: b.x, y1: b.y, x2: a.x, y2: a.y, style: 0 }));
}

#[test]
fn both_searches_pick_the_same_pair_on_a_tie() {
    let points = vec![Point::new(11, 0), Point::new(0, 0), Point::new(10, 0), Point::new(1, 0)];
    let a = closest_pair(points.clone(), &mut NoRecord, false).unwrap();
    let b = geo::alg::closest_pair(points).unwrap().unwrap();
    assert_eq!((a.0, a.1), (b.p1, b.p2));
    assert_eq!((a.0, a.1), (Point::new(0, 0), Point::new(1, 0)));
}

#[test]
fn by_dist_counts_lengths_within_the_tolerance_as_equal() {
    let five = ByDist(Pair(Point::new(0, 0), Point::new(3, 4)));
    let root17 = ByDist(Pair(Point::new(0, 0), Point::new(4, 1)));
    let four = ByDist(Pair(Point::new(0, 0), Point::new(4, 0)));
    assert!(five == root17);
    assert_eq!(five.dist_order(&root17), Ordering::Equal);
    assert_eq!(root17.dist_order(&five), Ordering::Equal);
    assert_eq!(five.dist_order(&four), Ordering::Greater);
    assert!(five != four);
    assert_eq!((five.min(root17).0).1, Point::new(3, 4));
    assert_eq!((root17.min(five).0).1, Point::new(4, 1));
    assert_eq!((five.min(four).0).1, Point::new(4, 0));
}

#[test]
fn the_animation_of_two_points_step_by_step() {
    let a = Point::new(0, 0);
    let b = Point::new(10, 5);
    let mut fman = FrameManager::with_arena_capacity(0);
    let res = closest_pair(vec![b, a], &mut fman, true).unwrap();
    assert_eq!((res.0, res.1), (a, b));
    let div = Shape::DivLine { x: 0, level: 0 };
    let cover_r = Shape::ShadedRect { xl: 0, xr: i64::MAX, style: 0 };
    let cover_l = Shape::ShadedRect { xl: i64::MIN, xr: 0, style: 0 };
    let band = Shape::ShadedRect { xl: i64::MIN, xr: i64::MAX, style: 1 };
    let lastings: Vec<Option<u64>> = fman.frames.iter().map(|f| f.lasting()).collect();
    assert_eq!(lastings, vec![
        Some(200_000), Some(200_000), Some(200_000), Some(200_000), Some(200_000),
        Some(500_000), Some(200_000), Some(1_000_000),
    ]);
    let same = |i: usize, want: Vec<Shape>| {
        let got = fman.frames[i].shapes();
        assert_eq!(got.len(), want.len(), "frame {}", i);
        for s in want.iter() {
            assert!(got.contains(s), "frame {} lacks {:?}", i, s);
        }
    };
    same(0, vec![div]);
    same(1, vec![div, cover_r]);
    same(2, vec![div]);
    same(3, vec![div, cover_l]);
    same(4, vec![div]);
    same(5, vec![div, band]);
    same(6, vec![
        div, band,
        Shape::EmpPoint { x: 0, y: 0, style: 1 },
        Shape::EmpPoint { x: 10, y: 5, style: 1 },
        Shape::EmpLine { x1: 0, y1: 0, x2: 10, y2: 5, style: 1 },
    ]);
    same(7, vec![
        Shape::EmpPoint { x: 0, y: 0, style: 0 },
        Shape::EmpPoint { x: 10, y: 5, style: 0 },
        Shape::EmpLine { x1: 0, y1: 0, x2: 10, y2: 5, style: 0 },
    ]);
}

#[test]
fn an_arena_with_room_fills_its_last_slot_first() {
    let mut arena = geo::visual::shape::ShapeArena::with_capacity(2);
    let s1 = Shape::DivLine { x: 1, level: 0 };
    let s2 = Shape::DivLine { x: 2, level: 0 };
    arena.add(s1);
    arena.add(s2);
    assert_eq!(arena.compile(), vec![s2, s1]);
}
