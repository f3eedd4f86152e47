//! Placement arithmetic.

use wlcompositor::geometry::{centered_loc, child_loc, fills_zone, Point, Rect, Size, WidePoint};

fn rect(x: i32, y: i32, w: i32, h: i32) -> Rect {
    Rect { loc: Point { x, y }, size: Size { w, h } }
}

#[test]
fn centering_puts_a_window_in_the_middle() {
    assert_eq!(centered_loc(rect(0, 30, 800, 570), rect(0, 0, 200, 100)), Point { x: 300, y: 265 });
}

#[test]
fn centering_ignores_where_the_window_was() {
    assert_eq!(
        centered_loc(rect(0, 0, 100, 100), rect(-7, 9, 51, 51)),
        Point { x: 24, y: 24 }
    );
}

#[test]
fn centering_keeps_the_corner_of_a_large_window_in_the_zone() {
    assert_eq!(centered_loc(rect(10, 20, 100, 100), rect(0, 0, 300, 50)), Point { x: 10, y: 45 });
}

#[test]
fn children_go_over_the_middle_of_their_parent() {
    assert_eq!(child_loc(rect(100, 100, 400, 300), Size { w: 200, h: 100 }), Point { x: 200, y: 200 });
}

#[test]
fn a_child_larger_than_its_parent_sticks_out_on_both_sides() {
    assert_eq!(child_loc(rect(100, 100, 10, 10), Size { w: 15, h: 13 }), Point { x: 98, y: 99 });
}

#[test]
fn a_window_without_a_maximum_fills_any_zone() {
    assert!(fills_zone(Size { w: 0, h: 0 }, Size { w: 1920, h: 1080 }));
}

#[test]
fn a_window_fills_a_zone_up_to_its_maximum() {
    assert!(fills_zone(Size { w: 1920, h: 1080 }, Size { w: 1920, h: 1080 }));
    assert!(!fills_zone(Size { w: 1919, h: 1080 }, Size { w: 1920, h: 1080 }));
    assert!(!fills_zone(Size { w: 0, h: 1079 }, Size { w: 1920, h: 1080 }));
}

#[test]
fn points_saturate() {
    let far = Point { x: i32::MAX, y: i32::MIN };
    assert_eq!(far.plus(Point { x: 1, y: -1 }), far);
    assert_eq!(far.minus(Point { x: -1, y: 1 }), far);
    assert_eq!(Point { x: 3, y: 4 }.plus(Point { x: 10, y: -20 }), Point { x: 13, y: -16 });
    assert_eq!(Point { x: 3, y: 4 }.minus(Point { x: 10, y: -20 }), Point { x: -7, y: 24 });
}

#[test]
fn wide_points_do_not_saturate() {
    let far = Point { x: i32::MAX, y: i32::MIN };
    assert_eq!(
        far.wide_plus(Point { x: 1, y: -1 }),
        WidePoint { x: 2_147_483_648, y: -2_147_483_649 }
    );
    assert_eq!(far.widened(), WidePoint { x: 2_147_483_647, y: -2_147_483_648 });
}

#[test]
fn a_rectangle_is_moved_inside_as_little_as_needed() {
    let area = rect(0, 0, 800, 600);
    let size = Size { w: 100, h: 50 };
    assert_eq!(area.kept_inside(Point { x: 750, y: -5 }, size), Point { x: 700, y: 0 });
    assert_eq!(area.kept_inside(Point { x: 20, y: 580 }, size), Point { x: 20, y: 550 });
    assert_eq!(area.kept_inside(Point { x: 20, y: 30 }, size), Point { x: 20, y: 30 });
}

#[test]
fn what_can_be_centered_stays_in_range() {
    let zone = rect(0, 0, 1920, 1080);
    assert!(zone.can_center(rect(0, 0, 800, 600)));
    assert!(zone.can_center(rect(0, 0, i32::MAX, 1)));
    assert!(!zone.can_center(rect(0, 0, -i32::MAX, 1)));
    assert!(rect(i32::MAX - 5, 0, 20, 20).can_center(rect(0, 0, 10, 10)));
    assert!(!rect(i32::MAX - 4, 0, 20, 20).can_center(rect(0, 0, 10, 10)));
    assert!(!rect(0, i32::MAX - 4, 20, 20).can_center(rect(0, 0, 10, 10)));
}

#[test]
fn what_can_go_over_its_parent_stays_in_range() {
    assert!(rect(0, 0, 800, 600).can_place_child(Size { w: 900, h: 10 }));
    assert!(rect(i32::MIN + 50, 0, 800, 600).can_place_child(Size { w: 900, h: 10 }));
    assert!(!rect(i32::MIN + 49, 0, 800, 600).can_place_child(Size { w: 900, h: 10 }));
    assert!(!rect(0, 0, i32::MAX, 600).can_place_child(Size { w: -1, h: 10 }));
}

#[test]
fn what_can_be_kept_inside_stays_in_range() {
    let size = Size { w: 10, h: 10 };
    assert!(rect(0, 0, 800, 600).can_keep_inside(size));
    assert!(rect(i32::MAX - 800, 0, 800, 600).can_keep_inside(size));
    assert!(!rect(i32::MAX - 799, 0, 800, 600).can_keep_inside(size));
    assert!(!rect(0, i32::MAX - 599, 800, 600).can_keep_inside(size));
}
