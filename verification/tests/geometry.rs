use graph_scene::display_graph::region::BoundingBox;
use graph_scene::geometry::{is_in_scene, Point, Rect, Size, Vec2, SCENE_LIMIT};

#[test]
fn scene_limit_is_two_to_the_twenty_eighth() {
    assert_eq!(SCENE_LIMIT, 1i64 << 28);
    assert!(is_in_scene(SCENE_LIMIT));
    assert!(is_in_scene(-SCENE_LIMIT));
    assert!(!is_in_scene(SCENE_LIMIT + 1));
    assert!(!is_in_scene(-SCENE_LIMIT - 1));
    assert!(is_in_scene(0));
}

#[test]
fn center_is_the_midpoint_of_the_corners() {
    let r = Rect { x0: 0, y0: 0, x1: 100, y1: 60 };
    assert_eq!(r.center(), Point::new(50, 30));
    let s = Rect { x0: 200, y0: 0, x1: 300, y1: 60 };
    assert_eq!(s.center(), Point::new(250, 30));
}

#[test]
fn center_rounds_toward_negative_infinity() {
    assert_eq!(Rect { x0: 0, y0: 0, x1: 3, y1: 5 }.center(), Point::new(1, 2));
    assert_eq!(Rect { x0: -3, y0: -5, x1: 0, y1: 0 }.center(), Point::new(-2, -3));
    assert_eq!(Rect { x0: -1, y0: -1, x1: 0, y1: 0 }.center(), Point::new(-1, -1));
    assert_eq!(Rect { x0: -2, y0: -1, x1: 3, y1: 2 }.center(), Point::new(0, 0));
}

#[test]
fn center_does_not_depend_on_the_order_of_the_corners() {
    let a = Rect { x0: 10, y0: 40, x1: -5, y1: 7 };
    let b = Rect { x0: -5, y0: 7, x1: 10, y1: 40 };
    assert_eq!(a.center(), b.center());
    assert_eq!(a.center(), Point::new(2, 23));
}

#[test]
fn center_at_the_edge_of_the_scene() {
    let r = Rect { x0: -SCENE_LIMIT, y0: -SCENE_LIMIT, x1: SCENE_LIMIT, y1: SCENE_LIMIT };
    assert!(r.is_in_scene());
    assert_eq!(r.center(), Point::new(0, 0));
    let corner = Rect {
        x0: SCENE_LIMIT - 1,
        y0: SCENE_LIMIT - 1,
        x1: SCENE_LIMIT,
        y1: SCENE_LIMIT,
    };
    assert_eq!(corner.center(), Point::new(SCENE_LIMIT - 1, SCENE_LIMIT - 1));
}

#[test]
fn from_center_size_puts_the_centre_in_the_middle() {
    let r = Rect::from_center_size(Point::new(50, 30), Size::new(100, 60));
    assert_eq!(r, Rect { x0: 0, y0: 0, x1: 100, y1: 60 });
    assert_eq!(r.center(), Point::new(50, 30));
}

#[test]
fn from_center_size_with_odd_extents_keeps_the_extent_and_the_centre() {
    let r = Rect::from_center_size(Point::new(0, 0), Size::new(5, 3));
    assert_eq!(r, Rect { x0: -2, y0: -1, x1: 3, y1: 2 });
    assert_eq!(r.center(), Point::new(0, 0));
    let empty = Rect::from_center_size(Point::new(-7, 9), Size::new(0, 0));
    assert_eq!(empty, Rect { x0: -7, y0: 9, x1: -7, y1: 9 });
}

#[test]
fn translate_moves_all_four_coordinates() {
    let r = Rect { x0: 0, y0: 0, x1: 100, y1: 60 };
    assert_eq!(r.translate(Vec2::new(100, 0)), Rect { x0: 100, y0: 0, x1: 200, y1: 60 });
    assert_eq!(r.translate(Vec2::new(-7, 13)), Rect { x0: -7, y0: 13, x1: 93, y1: 73 });
    assert_eq!(r.translate(Vec2::new(0, 0)), r);
}

#[test]
fn translate_there_and_back_restores_the_rectangle() {
    let r = Rect { x0: -12, y0: 5, x1: 88, y1: 65 };
    let d = Vec2::new(12345, -678);
    assert!(r.can_shift(d));
    let moved = r.translate(d);
    let back = Vec2::new(-12345, 678);
    assert!(moved.can_shift(back));
    assert_eq!(moved.translate(back), r);
}

#[test]
fn origin_and_with_origin_keep_the_extent() {
    let r = Rect { x0: 3, y0: 4, x1: 13, y1: 24 };
    assert_eq!(r.origin(), Point::new(3, 4));
    assert_eq!(r.with_origin(Point::new(0, 0)), Rect { x0: 0, y0: 0, x1: 10, y1: 20 });
    assert_eq!(r.with_origin(r.origin()), r);
}

#[test]
fn point_translate_adds_the_offset() {
    assert_eq!(Point::new(1, 2).translate(Vec2::new(10, -20)), Point::new(11, -18));
}

#[test]
fn can_shift_refuses_what_leaves_the_scene() {
    let r = Rect { x0: 0, y0: 0, x1: 100, y1: 60 };
    assert!(r.can_shift(Vec2::new(SCENE_LIMIT - 100, SCENE_LIMIT - 60)));
    assert!(!r.can_shift(Vec2::new(SCENE_LIMIT - 99, 0)));
    assert!(!r.can_shift(Vec2::new(0, SCENE_LIMIT - 59)));
    assert!(r.can_shift(Vec2::new(-SCENE_LIMIT, -SCENE_LIMIT)));
    assert!(!r.can_shift(Vec2::new(-SCENE_LIMIT - 1, 0)));
    assert!(!r.can_shift(Vec2::new(i64::MAX, 0)));
    assert!(!r.can_shift(Vec2::new(0, i64::MIN)));
}

#[test]
fn rect_and_point_scene_checks() {
    assert!(Point::new(SCENE_LIMIT, -SCENE_LIMIT).is_in_scene());
    assert!(!Point::new(SCENE_LIMIT + 1, 0).is_in_scene());
    assert!(!Point::new(0, -SCENE_LIMIT - 1).is_in_scene());
    assert!(Rect { x0: 0, y0: 0, x1: 1, y1: 1 }.is_in_scene());
    assert!(!Rect { x0: 0, y0: 0, x1: SCENE_LIMIT + 1, y1: 1 }.is_in_scene());
    assert!(!Rect { x0: 0, y0: i64::MIN, x1: 1, y1: 1 }.is_in_scene());
}

#[test]
fn size_fit_check() {
    assert!(Size::new(0, 0).does_fit());
    assert!(Size::new(SCENE_LIMIT, SCENE_LIMIT).does_fit());
    assert!(!Size::new(-1, 5).does_fit());
    assert!(!Size::new(5, -1).does_fit());
    assert!(!Size::new(SCENE_LIMIT + 1, 5).does_fit());
}

#[test]
fn bounding_box_from_corners_orders_the_corners() {
    let bb = BoundingBox::from_corners(Point::new(10, -4), Point::new(-3, 8));
    assert_eq!(bb.lower, Point::new(-3, -4));
    assert_eq!(bb.upper, Point::new(10, 8));
    let same = BoundingBox::from_corners(Point::new(-3, -4), Point::new(10, 8));
    assert_eq!(bb, same);
}

#[test]
fn bounding_box_contains_its_border() {
    let bb = BoundingBox::from_corners(Point::new(0, 0), Point::new(100, 60));
    assert!(bb.contains_point(Point::new(0, 0)));
    assert!(bb.contains_point(Point::new(100, 60)));
    assert!(bb.contains_point(Point::new(100, 0)));
    assert!(bb.contains_point(Point::new(50, 30)));
    assert!(!bb.contains_point(Point::new(101, 30)));
    assert!(!bb.contains_point(Point::new(50, -1)));
    assert!(!bb.contains_point(Point::new(-1, 61)));
}
