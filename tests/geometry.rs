use quadtree::geometry::{Rect, BOTTOM_LEFT, BOTTOM_RIGHT, TOP_LEFT, TOP_RIGHT};

#[test]
fn contains_is_half_open_on_both_axes() {
    let r = Rect::new(0, 0, 10, 10);
    assert!(r.contains((0, 0)));
    assert!(r.contains((9, 9)));
    assert!(!r.contains((10, 5)));
    assert!(!r.contains((5, 10)));
    assert!(!r.contains((-1, 5)));
    assert!(!r.contains((5, -1)));
}

#[test]
fn empty_rect_contains_nothing() {
    let r = Rect::new(3, 3, 0, 5);
    assert!(!r.contains((3, 3)));
}

#[test]
fn intersects_overlapping_and_touching() {
    let a = Rect::new(0, 0, 10, 10);
    assert!(a.intersects(&Rect::new(5, 5, 10, 10)));
    assert!(a.intersects(&Rect::new(-5, -5, 6, 6)));
    assert!(a.intersects(&Rect::new(10, 0, 5, 5)));
    assert!(a.intersects(&Rect::new(0, 10, 5, 5)));
    assert!(a.intersects(&Rect::new(10, 10, 5, 5)));
    assert!(!a.intersects(&Rect::new(11, 0, 5, 5)));
    assert!(!a.intersects(&Rect::new(0, 11, 5, 5)));
    assert!(!a.intersects(&Rect::new(20, 20, 5, 5)));
    assert!(a.intersects(&Rect::new(2, 2, 1, 1)));
}

#[test]
fn empty_rects_intersect_themselves_and_bounds() {
    let z = Rect::new(0, 0, 0, 5);
    assert!(z.intersects(&z));
    let p = Rect::new(0, 0, 0, 0);
    assert!(p.intersects(&Rect::new(0, 0, 10, 10)));
    assert!(Rect::new(3, 3, 4, 4).intersects(&Rect::new(0, 0, 10, 10)));
}

#[test]
fn split_even_rect_into_equal_quadrants() {
    let q = Rect::new(0, 0, 16, 8).split();
    assert_eq!(q[TOP_LEFT], Rect::new(0, 0, 8, 4));
    assert_eq!(q[TOP_RIGHT], Rect::new(8, 0, 8, 4));
    assert_eq!(q[BOTTOM_LEFT], Rect::new(0, 4, 8, 4));
    assert_eq!(q[BOTTOM_RIGHT], Rect::new(8, 4, 8, 4));
}

#[test]
fn split_odd_rect_tiles_exactly() {
    let r = Rect::new(-3, 2, 7, 5);
    let q = r.split();
    assert_eq!(q[0], Rect::new(-3, 2, 3, 2));
    assert_eq!(q[1], Rect::new(0, 2, 4, 2));
    assert_eq!(q[2], Rect::new(-3, 4, 3, 3));
    assert_eq!(q[3], Rect::new(0, 4, 4, 3));
    let area: i64 = q.iter().map(|x| x.w as i64 * x.h as i64).sum();
    assert_eq!(area, 35);
}

#[test]
fn every_point_lies_in_exactly_one_quadrant() {
    let r = Rect::new(-4, -2, 9, 7);
    let q = r.split();
    for x in -6..8 {
        for y in -4..8 {
            let n = q.iter().filter(|s| s.contains((x, y))).count();
            if r.contains((x, y)) {
                assert_eq!(n, 1);
                assert!(q[r.quadrant((x, y))].contains((x, y)));
            } else {
                assert_eq!(n, 0);
            }
        }
    }
}

#[test]
fn boundary_point_goes_right_and_down() {
    let r = Rect::new(0, 0, 10, 10);
    assert_eq!(r.quadrant((5, 5)), BOTTOM_RIGHT);
    assert_eq!(r.quadrant((4, 5)), BOTTOM_LEFT);
    assert_eq!(r.quadrant((5, 4)), TOP_RIGHT);
    assert_eq!(r.quadrant((4, 4)), TOP_LEFT);
}
