use quadtree::{Point, QuadTree, QuadTreeType, Rectangle, UNIT};

/// All positions stored anywhere in the tree, in a flat list.
fn collect(t: &QuadTree, out: &mut Vec<(i64, i64)>) {
    match &t.branch_type {
        QuadTreeType::Leaf(v) => {
            for p in v.iter() {
                out.push((p.x, p.y));
            }
        }
        QuadTreeType::Branch(q) => {
            collect(&q.c0, out);
            collect(&q.c1, out);
            collect(&q.c2, out);
            collect(&q.c3, out);
        }
    }
}

/// How many times the position `(x, y)` is stored in the tree.
fn count_point(t: &QuadTree, x: i64, y: i64) -> usize {
    let mut all = Vec::new();
    collect(t, &mut all);
    all.iter().filter(|&&(px, py)| px == x && py == y).count()
}

/// The largest number of points held by any leaf of the tree.
fn max_leaf_len(t: &QuadTree) -> usize {
    match &t.branch_type {
        QuadTreeType::Leaf(v) => v.len(),
        QuadTreeType::Branch(q) => {
            let mut m = max_leaf_len(&q.c0);
            m = m.max(max_leaf_len(&q.c1));
            m = m.max(max_leaf_len(&q.c2));
            m = m.max(max_leaf_len(&q.c3));
            m
        }
    }
}

/// Every leaf that stores the position `(x, y)` has bounds containing it.
fn stored_in_owning_leaf(t: &QuadTree, x: i64, y: i64) -> bool {
    match &t.branch_type {
        QuadTreeType::Leaf(v) => {
            if v.iter().any(|p| p.x == x && p.y == y) {
                t.bounds.contains(Point::new(x, y))
            } else {
                true
            }
        }
        QuadTreeType::Branch(q) => {
            stored_in_owning_leaf(&q.c0, x, y)
                && stored_in_owning_leaf(&q.c1, x, y)
                && stored_in_owning_leaf(&q.c2, x, y)
                && stored_in_owning_leaf(&q.c3, x, y)
        }
    }
}

#[test]
fn fresh_tree_is_a_single_empty_leaf() {
    let t = QuadTree::new(4);
    assert_eq!(t.max_depth(), 1);
    assert_eq!(t.capacity, 4);
    assert_eq!(t.bounds, Rectangle::new(-UNIT, -UNIT, 2 * UNIT, 2 * UNIT));
    match &t.branch_type {
        QuadTreeType::Leaf(v) => assert!(v.is_empty()),
        QuadTreeType::Branch(_) => panic!("a fresh tree must be a leaf"),
    }
}

#[test]
fn lower_corner_is_contained_and_stored() {
    // The lower bound of the root square is closed: exactly (-1, -1) is in.
    let mut t = QuadTree::new(4);
    t.add_point(Point::new(-UNIT, -UNIT));
    assert_eq!(count_point(&t, -UNIT, -UNIT), 1);
    assert_eq!(t.max_depth(), 1);
}

#[test]
fn upper_corner_is_outside_and_dropped() {
    // The upper bound of the root square is open: exactly (1, 1) is out.
    let mut t = QuadTree::new(4);
    t.add_point(Point::new(UNIT, UNIT));
    assert_eq!(t.max_depth(), 1);
    match &t.branch_type {
        QuadTreeType::Leaf(v) => assert!(v.is_empty()),
        QuadTreeType::Branch(_) => panic!("a dropped point must not change the tree"),
    }
}

#[test]
fn out_of_bounds_point_leaves_tree_unchanged() {
    let mut t = QuadTree::new(2);
    t.add_point(Point::new(3, 7));
    t.add_point(Point::new(-9, 11));
    let mut before = Vec::new();
    collect(&t, &mut before);
    let depth_before = t.max_depth();

    t.add_point(Point::new(2 * UNIT, 0));
    t.add_point(Point::new(0, -UNIT - 1));
    t.add_point(Point::new(i64::MAX, i64::MIN));

    let mut after = Vec::new();
    collect(&t, &mut after);
    assert_eq!(before, after);
    assert_eq!(t.max_depth(), depth_before);
}

#[test]
fn capacity_one_two_points_force_a_split() {
    // 0.1 and 0.6 in fixed-point units.
    let a: i64 = 214_748_364;
    let b: i64 = 1_288_490_188;
    let mut t = QuadTree::new(1);

    t.add_point(Point::new(a, a));
    match &t.branch_type {
        QuadTreeType::Leaf(v) => assert_eq!(v.len(), 1),
        QuadTreeType::Branch(_) => panic!("one point fits in a capacity-one leaf"),
    }
    assert_eq!(t.max_depth(), 1);

    t.add_point(Point::new(b, b));
    assert!(matches!(t.branch_type, QuadTreeType::Branch(_)));
    assert!(t.max_depth() >= 2);
    // Both points share the quadrant [0, 1) x [0, 1) of the root, so the
    // split cascades one further level before they separate at 0.5.
    assert_eq!(t.max_depth(), 3);
    assert_eq!(count_point(&t, a, a), 1);
    assert_eq!(count_point(&t, b, b), 1);
    assert!(stored_in_owning_leaf(&t, a, a));
    assert!(stored_in_owning_leaf(&t, b, b));
}

#[test]
fn split_moves_each_point_to_its_own_quadrant() {
    let mut t = QuadTree::new(4);
    // One point per quadrant of the root: signs pick the quadrant.
    t.add_point(Point::new(-5, -5));
    t.add_point(Point::new(5, -5));
    t.add_point(Point::new(-5, 5));
    t.add_point(Point::new(5, 5));
    assert!(matches!(t.branch_type, QuadTreeType::Leaf(_)));

    t.split();
    match &t.branch_type {
        QuadTreeType::Branch(q) => {
            assert_eq!(q.c0.bounds, Rectangle::new(-UNIT, -UNIT, UNIT, UNIT));
            assert_eq!(q.c1.bounds, Rectangle::new(0, -UNIT, UNIT, UNIT));
            assert_eq!(q.c2.bounds, Rectangle::new(-UNIT, 0, UNIT, UNIT));
            assert_eq!(q.c3.bounds, Rectangle::new(0, 0, UNIT, UNIT));
            for (child, expect) in [(&q.c0, (-5, -5)), (&q.c1, (5, -5)), (&q.c2, (-5, 5)), (
                &q.c3,
                (5, 5),
            )] {
                match &child.branch_type {
                    QuadTreeType::Leaf(v) => {
                        assert_eq!(v.len(), 1);
                        assert_eq!((v[0].x, v[0].y), expect);
                    }
                    QuadTreeType::Branch(_) => panic!("children of a split are leaves"),
                }
            }
        }
        QuadTreeType::Leaf(_) => panic!("split must turn the leaf into a branch"),
    }
    let mut all = Vec::new();
    collect(&t, &mut all);
    assert_eq!(all.len(), 4);
}

#[test]
fn quadrant_seams_give_each_point_one_owner() {
    let mut t = QuadTree::new(1);
    t.add_point(Point::new(-3, -3));
    t.add_point(Point::new(3, 3));
    let children: Vec<Rectangle> = match &t.branch_type {
        QuadTreeType::Branch(q) => vec![q.c0.bounds, q.c1.bounds, q.c2.bounds, q.c3.bounds],
        QuadTreeType::Leaf(_) => panic!("two points with capacity one force a split"),
    };
    // Positions inside the root, including ones on the seams, belong to
    // exactly one quadrant; positions outside the root belong to none.
    let inside = [(0, 0), (0, -UNIT), (-UNIT, 0), (-1, -1), (0, 7), (UNIT - 1, UNIT - 1)];
    for (x, y) in inside {
        let owners = children.iter().filter(|r| r.contains(Point::new(x, y))).count();
        assert_eq!(owners, 1, "({x}, {y}) must have exactly one owner");
    }
    let outside = [(UNIT, UNIT), (UNIT, 0), (0, UNIT), (-UNIT - 1, 0)];
    for (x, y) in outside {
        let owners = children.iter().filter(|r| r.contains(Point::new(x, y))).count();
        assert_eq!(owners, 0, "({x}, {y}) must have no owner");
    }
}

#[test]
fn depth_never_decreases_and_capacity_is_respected() {
    let mut t = QuadTree::new(3);
    let coords: [i64; 10] = [
        -UNIT,
        -UNIT / 2,
        -UNIT / 3,
        -1000,
        -1,
        0,
        999,
        UNIT / 5,
        UNIT / 2,
        UNIT - 1,
    ];
    let mut last_depth = t.max_depth();
    let mut inserted = 0usize;
    for (i, &x) in coords.iter().enumerate() {
        for (j, &y) in coords.iter().enumerate() {
            if (i + j) % 3 == 0 {
                t.add_point(Point::new(x, y));
                inserted += 1;
                let d = t.max_depth();
                assert!(d >= last_depth, "depth must never decrease");
                last_depth = d;
                assert!(max_leaf_len(&t) <= 3, "no leaf may exceed the capacity");
            }
        }
    }
    let mut all = Vec::new();
    collect(&t, &mut all);
    assert_eq!(all.len(), inserted);
}

#[test]
fn adjacent_points_separate_at_the_smallest_cell() {
    // (0, 0) and (1, 1) differ by one coordinate unit, so with capacity
    // one the tree subdivides all the way down to width-one cells: the
    // root square is 2^32 units wide, giving 32 branch levels.
    let mut t = QuadTree::new(1);
    t.add_point(Point::new(0, 0));
    t.add_point(Point::new(1, 1));
    assert_eq!(t.max_depth(), 33);
    assert_eq!(count_point(&t, 0, 0), 1);
    assert_eq!(count_point(&t, 1, 1), 1);
}

#[test]
fn equal_points_stop_at_the_smallest_cell() {
    // Two copies of one position can never be separated. The tree stops
    // subdividing at a width-one cell, whose leaf then holds both copies
    // even though the capacity is one.
    let mut t = QuadTree::new(1);
    t.add_point(Point::new(5, 5));
    t.add_point(Point::new(5, 5));
    assert_eq!(t.max_depth(), 33);
    assert_eq!(count_point(&t, 5, 5), 2);
    assert_eq!(max_leaf_len(&t), 2);
}

#[test]
fn insertion_order_is_preserved_in_a_leaf() {
    let mut t = QuadTree::new(8);
    let pts: [(i64, i64); 4] = [(4, 4), (-4, 4), (2, 2), (4, 4)];
    for (x, y) in pts {
        t.add_point(Point::new(x, y));
    }
    match &t.branch_type {
        QuadTreeType::Leaf(v) => {
            let got: Vec<(i64, i64)> = v.iter().map(|p| (p.x, p.y)).collect();
            assert_eq!(got, pts.to_vec());
        }
        QuadTreeType::Branch(_) => panic!("four points fit in a capacity-eight leaf"),
    }
}

#[test]
fn rectangle_containment_is_half_open() {
    let r = Rectangle::new(10, 20, 30, 40);
    assert!(r.contains(Point::new(10, 20)));
    assert!(r.contains(Point::new(39, 59)));
    assert!(!r.contains(Point::new(40, 20)));
    assert!(!r.contains(Point::new(10, 60)));
    assert!(!r.contains(Point::new(9, 20)));
    // A rectangle with a non-positive extent contains nothing.
    let empty = Rectangle::new(0, 0, 0, 5);
    assert!(!empty.contains(Point::new(0, 0)));
    // Containment never overflows, even at the edges of the type.
    let wide = Rectangle::new(i64::MAX - 1, i64::MIN, 1, i64::MAX);
    assert!(wide.contains(Point::new(i64::MAX - 1, -2)));
    assert!(!wide.contains(Point::new(i64::MAX, -2)));
    assert!(!wide.contains(Point::new(i64::MAX - 1, -1)));
}

#[test]
fn points_carry_zero_velocity() {
    let p = Point::new(7, -7);
    assert_eq!(p.x, 7);
    assert_eq!(p.y, -7);
    assert_eq!(p.vx, 0);
    assert_eq!(p.vy, 0);
}
