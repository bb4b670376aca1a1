use crossword::generator::{compare_area, compare_crossings};
use crossword::{Layout, Orientation, XY};
use std::cmp::Ordering;

#[test]
fn xy_arithmetic() {
    let a = XY { x: 2, y: -3 };
    let b = XY { x: 5, y: 7 };
    assert_eq!(a.add(b), XY { x: 7, y: 4 });
    assert_eq!(a.sub(b), XY { x: -3, y: -10 });
    assert_eq!(a.mul(-2), XY { x: -4, y: 6 });
    assert_eq!(XY::zero(), XY { x: 0, y: 0 });
    assert_eq!(XY::one(), XY { x: 1, y: 1 });
    assert_eq!(XY::from((4, -1)), XY { x: 4, y: -1 });
}

#[test]
fn orientation_steps_and_bands() {
    assert_eq!(Orientation::Horiz.step(), XY { x: 1, y: 0 });
    assert_eq!(Orientation::Vert.step(), XY { x: 0, y: 1 });
    assert_eq!(Orientation::Horiz.band(), [XY { x: 0, y: 1 }, XY { x: 0, y: -1 }]);
    assert_eq!(Orientation::Vert.band(), [XY { x: 1, y: 0 }, XY { x: -1, y: 0 }]);
    assert_eq!(Orientation::Horiz.name(), "Hor");
    assert_eq!(Orientation::Vert.name(), "Ver");
}

#[test]
fn crossing_at_both_ends_counts_two() {
    let mut layout = Layout::new();
    layout.insert_at("abc", XY::from((0, 0)), Orientation::Horiz).unwrap();
    layout.insert_at("abc", XY::from((0, 0)), Orientation::Vert).unwrap();
    layout.insert_at("cba", XY::from((2, 0)), Orientation::Vert).unwrap();
    assert_eq!(layout.crossings_count(), 2);
}

#[test]
fn single_comparators() {
    let mut a = Layout::new();
    a.insert_at("ab", XY::from((0, 0)), Orientation::Horiz).unwrap();
    let mut b = Layout::new();
    b.insert_at("abc", XY::from((0, 0)), Orientation::Horiz).unwrap();
    b.insert_at("bx", XY::from((1, 0)), Orientation::Vert).unwrap();
    assert_eq!(compare_area(&a, &b), Ordering::Greater);
    assert_eq!(compare_area(&b, &a), Ordering::Less);
    assert_eq!(compare_crossings(&a, &b), Ordering::Less);
    assert_eq!(compare_crossings(&b, &b), Ordering::Equal);
}
