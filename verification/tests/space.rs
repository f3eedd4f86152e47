//! The stack of windows.

use wlcompositor::geometry::Point;
use wlcompositor::space::{Element, Space};

fn stack(windows: &[u64]) -> Space {
    let mut space = Space::new();
    for (i, w) in windows.iter().enumerate() {
        space.map_element(*w, Point { x: i as i32, y: 0 });
    }
    space
}

fn order(space: &Space) -> Vec<u64> {
    space.elements.iter().map(|e| e.window).collect()
}

#[test]
fn mapping_puts_a_window_on_top() {
    let mut space = stack(&[1, 2, 3]);
    assert_eq!(order(&space), vec![1, 2, 3]);
    space.map_element(1, Point { x: 7, y: 8 });
    assert_eq!(order(&space), vec![2, 3, 1]);
    assert_eq!(space.elements[2], Element { window: 1, loc: Point { x: 7, y: 8 } });
}

#[test]
fn unmapping_takes_a_window_out() {
    let mut space = stack(&[1, 2, 3]);
    space.unmap_elem(2);
    assert_eq!(order(&space), vec![1, 3]);
    space.unmap_elem(9);
    assert_eq!(order(&space), vec![1, 3]);
    assert!(!space.contains(2));
    assert!(space.contains(3));
}

#[test]
fn raising_keeps_the_place_on_the_plane() {
    let mut space = stack(&[1, 2, 3]);
    space.raise_element(1);
    assert_eq!(order(&space), vec![2, 3, 1]);
    assert_eq!(space.elements[2].loc, Point { x: 0, y: 0 });
    space.raise_element(9);
    assert_eq!(order(&space), vec![2, 3, 1]);
}

#[test]
fn relocating_keeps_the_order() {
    let mut space = stack(&[1, 2, 3]);
    space.relocate_element(2, Point { x: 50, y: 60 });
    assert_eq!(order(&space), vec![1, 2, 3]);
    assert_eq!(space.elements[1].loc, Point { x: 50, y: 60 });
    space.relocate_element(9, Point { x: 1, y: 1 });
    assert_eq!(space.elements.len(), 3);
}

#[test]
fn raising_above_puts_a_window_directly_above_another() {
    let mut space = stack(&[1, 2, 3, 4]);
    space.raise_element_above(1, 3);
    assert_eq!(order(&space), vec![2, 3, 1, 4]);
    assert_eq!(space.elements[2].loc, Point { x: 0, y: 0 });
}

#[test]
fn raising_above_does_nothing_to_a_window_that_is_above_already() {
    let mut space = stack(&[1, 2, 3, 4]);
    space.raise_element_above(4, 1);
    space.raise_element_above(2, 2);
    space.raise_element_above(9, 1);
    space.raise_element_above(1, 9);
    assert_eq!(order(&space), vec![1, 2, 3, 4]);
}

#[test]
fn positions_count_from_the_bottom() {
    let space = stack(&[5, 6, 7]);
    assert_eq!(space.position(5), Some(0));
    assert_eq!(space.position(7), Some(2));
    assert_eq!(space.position(8), None);
}
