use quadtree::body::{Aggregate, Body};
use quadtree::geometry::Rect;
use quadtree::node::{InsertError, Node};
use quadtree::tree::{QuadTree, DEFAULT_MAX_DEPTH};

fn tree(w: i32, h: i32, depth: usize) -> QuadTree {
    QuadTree::new(Rect::new(0, 0, w, h), depth).unwrap()
}

#[test]
fn new_refuses_rect_without_area() {
    assert_eq!(QuadTree::new(Rect::new(0, 0, 0, 5), 8).err(), Some(InsertError::InvalidRect));
    assert_eq!(QuadTree::new(Rect::new(0, 0, 5, 0), 8).err(), Some(InsertError::InvalidRect));
    let t = tree(5, 5, DEFAULT_MAX_DEPTH);
    assert_eq!(t.len(), 0);
    assert_eq!(t.max_depth(), 8);
    assert_eq!(t.bounds(), Rect::new(0, 0, 5, 5));
}

#[test]
fn aggregate_of_two_bodies() {
    let mut t = tree(16, 16, DEFAULT_MAX_DEPTH);
    assert_eq!(t.insert(Body::new(2, (0, 0))), Ok(0));
    assert_eq!(t.insert(Body::new(3, (10, 0))), Ok(1));
    let a = t.aggregate();
    assert_eq!(a.mass, 5);
    assert_eq!(a.moment_x, 30);
    assert_eq!(a.moment_y, 0);
    assert_eq!(a.center_of_mass(), Some((6, 0)));
}

#[test]
fn aggregate_of_empty_tree() {
    let t = tree(16, 16, DEFAULT_MAX_DEPTH);
    let a = t.aggregate();
    assert_eq!(a, Aggregate { mass: 0, moment_x: 0, moment_y: 0 });
    assert_eq!(a.center_of_mass(), None);
}

#[test]
fn aggregate_of_many_bodies_in_deep_tree() {
    let mut t = tree(64, 64, DEFAULT_MAX_DEPTH);
    let pts = [(1, 1, 4), (2, 2, 1), (60, 3, 2), (33, 40, 7), (34, 41, 1)];
    for (x, y, m) in pts {
        assert!(t.insert(Body::new(m, (x, y))).is_ok());
    }
    let a = t.aggregate();
    assert_eq!(a.mass, 15);
    assert_eq!(a.moment_x, 4 + 2 + 120 + 231 + 34);
    assert_eq!(a.moment_y, 4 + 2 + 6 + 280 + 41);
    assert_eq!(a.center_of_mass(), Some((391 / 15, 333 / 15)));
}

#[test]
fn center_of_mass_rounds_down() {
    let a = Aggregate { mass: 2, moment_x: -3, moment_y: 3 };
    assert_eq!(a.center_of_mass(), Some((-2, 1)));
    let b = Aggregate { mass: 4, moment_x: -8, moment_y: 7 };
    assert_eq!(b.center_of_mass(), Some((-2, 1)));
}

#[test]
fn walk_finds_every_inserted_body() {
    let mut t = tree(32, 32, DEFAULT_MAX_DEPTH);
    let pts = [(0, 0), (31, 31), (15, 16), (16, 15), (3, 29), (4, 29), (20, 7)];
    for (i, p) in pts.iter().enumerate() {
        assert_eq!(t.insert(Body::new(1, *p)), Ok(i));
    }
    for (i, p) in pts.iter().enumerate() {
        assert_eq!(t.find(*p), Some(i));
        assert_eq!(t.body(i).unwrap().position, *p);
    }
    assert!(t.body(pts.len()).is_none());
}

#[test]
fn out_of_bounds_is_refused() {
    let mut t = tree(10, 10, DEFAULT_MAX_DEPTH);
    assert_eq!(t.insert(Body::new(1, (1, 1))), Ok(0));
    assert_eq!(t.insert(Body::new(1, (10, 3))), Err(InsertError::OutOfBounds));
    assert_eq!(t.insert(Body::new(1, (3, -1))), Err(InsertError::OutOfBounds));
    assert_eq!(t.len(), 1);
    assert_eq!(t.insert(Body::new(1, (9, 9))), Ok(1));
}

#[test]
fn every_grid_point_fits_when_depth_covers_bounds() {
    let mut t = tree(16, 16, 4);
    let mut id = 0;
    for x in 0..16 {
        for y in 0..16 {
            assert_eq!(t.insert(Body::new(1, (x, y))), Ok(id));
            id += 1;
        }
    }
    assert_eq!(t.len(), 256);
    for x in 0..16 {
        for y in 0..16 {
            assert_eq!(t.find((x, y)), Some((x * 16 + y) as usize));
        }
    }
}

#[test]
fn close_bodies_exceed_small_depth() {
    let mut t = tree(16, 16, 1);
    assert_eq!(t.insert(Body::new(1, (0, 0))), Ok(0));
    assert_eq!(t.insert(Body::new(1, (1, 1))), Err(InsertError::DepthExceeded));
    assert_eq!(t.len(), 1);
    assert_eq!(t.find((0, 0)), Some(0));
    assert_eq!(t.insert(Body::new(1, (12, 12))), Ok(1));
    assert_eq!(t.find((12, 12)), Some(1));
}

#[test]
fn depth_zero_holds_one_body() {
    let mut t = tree(16, 16, 0);
    assert_eq!(t.insert(Body::new(1, (5, 5))), Ok(0));
    assert_eq!(t.insert(Body::new(1, (12, 12))), Err(InsertError::DepthExceeded));
    assert_eq!(t.len(), 1);
}

#[test]
fn coincident_bodies_are_refused() {
    let mut t = tree(16, 16, DEFAULT_MAX_DEPTH);
    assert_eq!(t.insert(Body::new(1, (7, 7))), Ok(0));
    assert_eq!(t.insert(Body::new(2, (7, 7))), Err(InsertError::DepthExceeded));
    assert_eq!(t.len(), 1);
    assert_eq!(t.find((7, 7)), Some(0));
    assert_eq!(t.insert(Body::new(2, (7, 8))), Ok(1));
    assert_eq!(t.insert(Body::new(2, (7, 8))), Err(InsertError::DepthExceeded));
    assert_eq!(t.find((7, 7)), Some(0));
    assert_eq!(t.find((7, 8)), Some(1));
}

#[test]
fn query_over_disjoint_region_is_empty() {
    let mut t = tree(32, 32, DEFAULT_MAX_DEPTH);
    for p in [(1, 1), (2, 30), (30, 2), (17, 17)] {
        assert!(t.insert(Body::new(1, p)).is_ok());
    }
    assert!(t.query_range(&Rect::new(3, 3, 10, 10)).is_empty());
    assert!(t.query_range(&Rect::new(100, 100, 5, 5)).is_empty());
    assert!(t.query_range(&Rect::new(1, 1, 0, 0)).is_empty());
}

#[test]
fn query_over_bounds_yields_each_id_once() {
    let mut t = tree(32, 32, DEFAULT_MAX_DEPTH);
    let pts = [(1, 1), (2, 30), (30, 2), (17, 17), (18, 17), (0, 31)];
    for p in pts {
        assert!(t.insert(Body::new(1, p)).is_ok());
    }
    let mut r = t.query_range(&t.bounds());
    r.sort();
    assert_eq!(r, vec![0, 1, 2, 3, 4, 5]);
}

#[test]
fn query_filters_exactly() {
    let mut t = tree(32, 32, DEFAULT_MAX_DEPTH);
    let pts = [(1, 1), (2, 30), (30, 2), (17, 17), (18, 17), (0, 31)];
    for p in pts {
        assert!(t.insert(Body::new(1, p)).is_ok());
    }
    let mut r = t.query_range(&Rect::new(0, 16, 19, 16));
    r.sort();
    assert_eq!(r, vec![1, 3, 4, 5]);
    assert_eq!(t.query_range(&Rect::new(17, 17, 1, 1)), vec![3]);
}

#[test]
fn node_new_is_leaf() {
    let n = Node::new(Some(3), Rect::new(0, 0, 4, 4));
    assert!(n.is_leaf_node());
    assert_eq!(n.occupant, Some(3));
}

#[test]
fn aggregate_of_subtree() {
    let mut t = tree(16, 16, DEFAULT_MAX_DEPTH);
    assert_eq!(t.insert(Body::new(2, (1, 1))), Ok(0));
    assert_eq!(t.insert(Body::new(3, (2, 2))), Ok(1));
    assert_eq!(t.insert(Body::new(1, (12, 12))), Ok(2));
    let root = t.root();
    assert!(!root.is_leaf_node());
    assert_eq!(root.occupant, None);
    let tl = root.top_left.as_ref().unwrap();
    let a = tl.aggregate(t.bodies());
    assert_eq!(a, Aggregate { mass: 5, moment_x: 8, moment_y: 8 });
    assert_eq!(a.center_of_mass(), Some((1, 1)));
    let br = root.bottom_right.as_ref().unwrap();
    assert!(br.is_leaf_node());
    assert_eq!(br.occupant, Some(2));
    assert!(root.top_right.is_none());
    assert!(root.bottom_left.is_none());
    assert_eq!(t.aggregate(), Aggregate { mass: 6, moment_x: 20, moment_y: 20 });
}

#[test]
fn shared_cell_at_depth_limit_is_refused() {
    let mut t = tree(16, 16, 2);
    assert_eq!(t.insert(Body::new(1, (0, 0))), Ok(0));
    assert_eq!(t.insert(Body::new(1, (3, 3))), Err(InsertError::DepthExceeded));
    assert_eq!(t.len(), 1);
    assert_eq!(t.insert(Body::new(1, (4, 0))), Ok(1));
    assert_eq!(t.insert(Body::new(1, (7, 2))), Err(InsertError::DepthExceeded));
    assert_eq!(t.len(), 2);
}

#[test]
fn one_body_per_cell_fills_every_cell() {
    let mut t = tree(16, 16, 2);
    let mut id = 0;
    for i in 0..4 {
        for j in 0..4 {
            assert_eq!(t.insert(Body::new(1, (4 * i + 1, 4 * j + 2))), Ok(id));
            id += 1;
        }
    }
    assert_eq!(t.len(), 16);
    assert_eq!(t.insert(Body::new(1, (15, 15))), Err(InsertError::DepthExceeded));
    assert_eq!(t.len(), 16);
}
