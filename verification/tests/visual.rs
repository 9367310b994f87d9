use geo::visual::shape::{Shape, ShapeArena, DrawOp, Stroke, sort_shapes, shape_before, parse_hex_color, hex_digit, hex_byte};
use geo::visual::{FrameManager, NoRecord, Notification, Player, Recording, Rgba};

fn shapes_equal(a: &[Shape], b: &[Shape]) -> bool {
    a.len() == b.len() && a.iter().zip(b.iter()).all(|(x, y)| x == y)
}

#[test]
fn arena_remove_undoes_add() {
    let mut arena = ShapeArena::with_capacity(2);
    let h1 = arena.add(Shape::DivLine { x: 3, level: 0 });
    let before = arena.compile();
    let h2 = arena.add(Shape::EmpPoint { x: 1, y: 2, style: 0 });
    assert_eq!(arena.compile().len(), 2);
    arena.remove(&h2);
    assert!(shapes_equal(&arena.compile(), &before));
    arena.remove(&h1);
    assert!(arena.compile().is_empty());
}

#[test]
fn arena_reuses_the_last_freed_slot() {
    let mut arena = ShapeArena::new();
    let a = arena.add(Shape::DivLine { x: 1, level: 0 });
    let b = arena.add(Shape::DivLine { x: 2, level: 0 });
    arena.remove(&a);
    let c = arena.add(Shape::DivLine { x: 3, level: 0 });
    assert!(c != a);
    let shapes = arena.compile();
    assert!(shapes_equal(&shapes, &[Shape::DivLine { x: 3, level: 0 }, Shape::DivLine { x: 2, level: 0 }]));
    arena.remove(&b);
    arena.remove(&c);
    assert!(arena.compile().is_empty());
}

#[test]
fn frames_are_kept_in_drawing_order() {
    let mut fman = FrameManager::with_arena_capacity(4);
    let _ = fman.add(Shape::ShadedRect { xl: 0, xr: 5, style: 0 });
    let _ = fman.add(Shape::EmpPoint { x: 9, y: 9, style: 0 });
    let h = fman.add(Shape::DivLine { x: 4, level: 1 });
    fman.next_frame(Some(200_000));
    fman.remove(&h);
    fman.next_frame(None);
    assert_eq!(fman.frames.len(), 2);
    let first = fman.frames[0].shapes();
    assert!(shapes_equal(first, &[
        Shape::DivLine { x: 4, level: 1 },
        Shape::EmpPoint { x: 9, y: 9, style: 0 },
        Shape::ShadedRect { xl: 0, xr: 5, style: 0 },
    ]));
    assert_eq!(fman.frames[0].lasting(), Some(200_000));
    assert_eq!(fman.frames[1].shapes().len(), 2);
}

#[test]
fn no_record_records_nothing() {
    let mut r = NoRecord;
    assert!(r.add(Shape::DivLine { x: 0, level: 0 }).is_none());
    r.remove(&None);
    r.next_frame(Some(1));
}

fn three_frames() -> Player {
    let mut fman = FrameManager::with_arena_capacity(1);
    let h = fman.add(Shape::DivLine { x: 1, level: 0 });
    fman.next_frame(Some(200_000));
    fman.remove(&h);
    let _ = fman.add(Shape::DivLine { x: 2, level: 0 });
    fman.next_frame(Some(200_000));
    fman.next_frame(None);
    fman.into()
}

#[test]
fn player_moves_on_after_a_frame_has_lasted() {
    let mut p = three_frames();
    assert!(shapes_equal(p.get_shapes(), &[Shape::DivLine { x: 1, level: 0 }]));
    p.update(200_000);
    assert!(shapes_equal(p.get_shapes(), &[Shape::DivLine { x: 1, level: 0 }]));
    p.update(1);
    assert!(shapes_equal(p.get_shapes(), &[Shape::DivLine { x: 2, level: 0 }]));
    assert!(!p.finished());
    p.update(200_000);
    assert!(p.finished());
    p.update(5_000_000);
    assert!(p.finished());
    assert!(shapes_equal(p.get_shapes(), &[Shape::DivLine { x: 2, level: 0 }]));
}

#[test]
fn player_time_can_be_split() {
    let mut once = three_frames();
    let mut twice = three_frames();
    once.update(300_000);
    twice.update(150_000);
    twice.update(150_000);
    assert!(shapes_equal(once.get_shapes(), twice.get_shapes()));
    assert_eq!(once.finished(), twice.finished());
}

#[test]
fn empty_player_is_finished() {
    let fman = FrameManager::with_arena_capacity(3);
    let mut p: Player = fman.into();
    assert!(p.finished());
    p.update(10);
    assert!(p.finished());
}

#[test]
fn shapes_sort_by_kind_then_fields() {
    let mut v = vec![
        Shape::ShadedRect { xl: 1, xr: 2, style: 1 },
        Shape::EmpLine { x1: 0, y1: 0, x2: 1, y2: 1, style: 0 },
        Shape::EmpPoint { x: 5, y: 0, style: 0 },
        Shape::EmpPoint { x: 2, y: 9, style: 1 },
        Shape::DivLine { x: 7, level: 3 },
    ];
    sort_shapes(&mut v);
    assert!(shapes_equal(&v, &[
        Shape::DivLine { x: 7, level: 3 },
        Shape::EmpPoint { x: 2, y: 9, style: 1 },
        Shape::EmpPoint { x: 5, y: 0, style: 0 },
        Shape::EmpLine { x1: 0, y1: 0, x2: 1, y2: 1, style: 0 },
        Shape::ShadedRect { xl: 1, xr: 2, style: 1 },
    ]));
    assert!(shape_before(&v[0], &v[1]));
    assert!(!shape_before(&v[4], &v[0]));
}

#[test]
fn hex_colours() {
    assert_eq!(parse_hex_color("#0f0f0fd4"), (0x0f, 0x0f, 0x0f, 0xd4));
    assert_eq!(parse_hex_color("ff0000"), (255, 0, 0, 255));
    assert_eq!(parse_hex_color("#00851DFF"), (0, 0x85, 0x1d, 255));
    assert_eq!(hex_digit(b'7'), 7);
    assert_eq!(hex_digit(b'a'), 10);
    assert_eq!(hex_digit(b'F'), 15);
    assert_eq!(hex_byte(b'd', b'4'), 0xd4);
}

#[test]
fn drawing_a_shape() {
    let space = 1000;
    assert_eq!(Shape::DivLine { x: 5, level: 2 }.draw_op(space), DrawOp::Line {
        x1: 5, y1: 0, x2: 5, y2: space, stroke: Stroke::Division { level: 2 }, color: (0, 0, 0, 255),
    });
    assert_eq!(Shape::ShadedRect { xl: i64::MIN, xr: 300, style: 0 }.draw_op(space), DrawOp::Band {
        xl: 0, xr: 300, color: (0x0f, 0x0f, 0x0f, 0xd4),
    });
    assert_eq!(Shape::ShadedRect { xl: 300, xr: i64::MAX, style: 1 }.draw_op(space), DrawOp::Band {
        xl: 300, xr: space, color: (0xda, 0xd3, 0x06, 0xa8),
    });
    assert_eq!(Shape::EmpPoint { x: 1, y: 2, style: 0 }.draw_op(space), DrawOp::Dot {
        x: 1, y: 2, emphasized: true, color: (255, 0, 0, 255),
    });
    assert_eq!(Shape::EmpLine { x1: 1, y1: 2, x2: 3, y2: 4, style: 1 }.draw_op(space), DrawOp::Line {
        x1: 1, y1: 2, x2: 3, y2: 4, stroke: Stroke::Segment { emphasized: false }, color: (0, 0x85, 0x1d, 255),
    });
}

#[test]
fn notification_fades() {
    let mut n = Notification::empty();
    assert!(!n.visible());
    assert_eq!(n.color, Rgba { r: 255, g: 255, b: 255, a: 255 });
    n.set("Added point".to_string(), Some(2_000_000), None);
    assert!(n.visible());
    n.update_timer(1_500_000);
    assert!(n.visible());
    n.update_timer(1_500_000);
    assert!(!n.visible());
    n.update_timer(1);
    assert!(!n.visible());
    let red = Rgba { r: 255, g: 0, b: 0, a: 255 };
    n.set("Error".to_string(), None, Some(red));
    assert_eq!(n.color, red);
    n.update_timer(u64::MAX);
    assert!(n.visible());
    assert_eq!(n.text, "Error");
}

#[test]
fn inactive_colour_is_mostly_transparent() {
    let mut n = Notification::empty();
    n.set("x".to_string(), None, Some(Rgba { r: 200, g: 100, b: 50, a: 255 }));
    let c = n.inactive_color();
    let e = egui::Color32::from_rgba_unmultiplied(200, 100, 50, 80);
    assert_eq!(c.a, 80);
    assert_eq!((c.r, c.g, c.b, c.a), (e.r(), e.g(), e.b(), e.a()));
    assert_ne!((c.r, c.g, c.b), (200, 100, 50));
}

#[test]
fn inactive_colour_of_dark_channels() {
    let mut n = Notification::empty();
    n.set("x".to_string(), None, Some(Rgba { r: 0, g: 5, b: 10, a: 255 }));
    let c = n.inactive_color();
    assert_eq!((c.r, c.g, c.b, c.a), (0, 2, 3, 80));
    n.set("y".to_string(), None, Some(Rgba { r: 1, g: 2, b: 8, a: 255 }));
    let c = n.inactive_color();
    assert_eq!((c.r, c.g, c.b, c.a), (0, 1, 3, 80));
}
