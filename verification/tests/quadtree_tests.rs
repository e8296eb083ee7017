use quadtree::geometry::{Point, Rectangle};
use quadtree::tree::{Node, Quadtree};

fn rect(x: i64, y: i64, width: i64, height: i64) -> Rectangle {
    Rectangle {
        origin: Point { x, y },
        width,
        height,
    }
}

#[test]
fn test_rectangle_contains() {
    let rect = Rectangle {
        origin: Point { x: 0, y: 0 },
        width: 10,
        height: 10,
    };

    assert!(rect.contains(&Point { x: 5, y: 5 })); // inside
    assert!(rect.contains(&Point { x: 0, y: 5 })); // on left edge (inclusive)
    assert!(!rect.contains(&Point { x: 10, y: 5 })); // on right edge (exclusive)
    assert!(rect.contains(&Point { x: 5, y: 0 })); // on bottom edge (inclusive)
    assert!(!rect.contains(&Point { x: 5, y: 10 })); // on top edge (exclusive)
    assert!(!rect.contains(&Point { x: -1, y: 5 })); // outside left
    assert!(!rect.contains(&Point { x: 11, y: 5 })); // outside right
    assert!(!rect.contains(&Point { x: 5, y: -1 })); // outside bottom
    assert!(!rect.contains(&Point { x: 5, y: 11 })); // outside top
}

#[test]
fn test_quadtree_new() {
    let boundary = Rectangle {
        origin: Point { x: 0, y: 0 },
        width: 100,
        height: 100,
    };
    let quadtree = Quadtree::new(boundary.clone(), 2);

    assert_eq!(quadtree.boundary, boundary);
    assert_eq!(quadtree.level, 0);
    assert_eq!(quadtree.level_max, 2);
    assert!(matches!(quadtree.node, Node::Leaf { points } if points.is_empty()));
}

#[test]
fn test_quadtree_insert_single_point_level_max_0() {
    let boundary = Rectangle {
        origin: Point { x: 0, y: 0 },
        width: 100,
        height: 100,
    };
    let mut quadtree = Quadtree::new(boundary, 0);
    let point = Point { x: 50, y: 60 };

    assert!(quadtree.insert(point.clone()));
    if let Node::Leaf { points } = quadtree.node {
        assert_eq!(points.len(), 1);
        assert_eq!(points[0], point);
    } else {
        panic!("Quadtree should still be a Leaf if level_max is zero.");
    }
}

#[test]
fn test_quadtree_insert_single_point_level_max_1() {
    let boundary = Rectangle {
        origin: Point { x: 0, y: 0 },
        width: 100,
        height: 100,
    };
    let mut quadtree = Quadtree::new(boundary, 1);
    let point = Point { x: 50, y: 50 }; // Point will be in ne quadrant

    assert!(quadtree.insert(point.clone()));

    // Refine the quadtree to trigger subdivision
    quadtree.refine();

    if let Node::Children { nw, ne, sw, se } = quadtree.node {
        // Assert that all children are Leaf nodes
        assert!(matches!(nw.node, Node::Leaf { .. }));
        assert!(matches!(ne.node, Node::Leaf { .. }));
        assert!(matches!(sw.node, Node::Leaf { .. }));
        assert!(matches!(se.node, Node::Leaf { .. }));

        // Assert that the ne child contains the point
        if let Node::Leaf { points } = &ne.node {
            assert_eq!(points.len(), 1);
            assert_eq!(points[0], point)
        } else {
            panic!("ne child should be a Leaf with the point.")
        }

        // Assert that the other children are empty Leaf nodes
        if let Node::Leaf { points } = &nw.node {
            assert!(points.is_empty());
        } else {
            panic!("nw child should be an empty Leaf node")
        }
        if let Node::Leaf { points } = &sw.node {
            assert!(points.is_empty());
        } else {
            panic!("sw child should be an empty Leaf node")
        }
        if let Node::Leaf { points } = &se.node {
            assert!(points.is_empty());
        } else {
            panic!("se child should be an empty Leaf node")
        }
    } else {
        panic!("Quadtree should be a Children node after subdivision with level_max = 1.");
    }
}

#[test]
fn test_weak_balance() {
    // Manually create an unbalanced tree: the root's NE child is
    // subdivided, and its SW grandchild subdivided again, so the L3
    // leaves there are face-adjacent to the root's L1 NW leaf.
    let mut tree = Quadtree::new(
        Rectangle {
            origin: Point { x: 0, y: 0 },
            width: 64,
            height: 64,
        },
        4, // level_max
    );

    // 1. Subdivide to create L1 children.
    tree.subdivide();
    let ne_l1 = match &mut tree.node {
        Node::Children { ne, .. } => ne,
        _ => panic!("Tree should have children after subdivide"),
    };

    // 2. Subdivide the L1 NE child to get L2 children.
    ne_l1.subdivide();
    let ne_sw_l2 = match &mut ne_l1.node {
        Node::Children { sw, .. } => sw,
        _ => panic!("NE child should have L2 children"),
    };

    // 3. Subdivide the L2 NE->SW child to get L3 children.
    ne_sw_l2.subdivide();

    // 4. Run the balancing algorithm.
    tree.weak_balance();

    // 5. Verify that the root's NW leaf (originally L1) was subdivided.
    match &tree.node {
        Node::Children { nw, .. } => {
            assert_eq!(nw.level, 1, "The NW child's level should be 1");
            match &nw.node {
                Node::Children { .. } => {
                    // The NW leaf was correctly subdivided.
                }
                _ => panic!("NW node should have been subdivided but it is still a Leaf."),
            }
        }
        _ => panic!("Three should be a Children node."),
    }
}

fn count_points(tree: &Quadtree) -> usize {
    match &tree.node {
        Node::Leaf { points } => points.len(),
        Node::Children { nw, ne, sw, se } => {
            count_points(nw) + count_points(ne) + count_points(sw) + count_points(se)
        }
    }
}

fn max_level(tree: &Quadtree) -> usize {
    match &tree.node {
        Node::Leaf { .. } => tree.level,
        Node::Children { nw, ne, sw, se } => max_level(nw)
            .max(max_level(ne))
            .max(max_level(sw))
            .max(max_level(se)),
    }
}

fn trees_equal(a: &Quadtree, b: &Quadtree) -> bool {
    if a.boundary != b.boundary || a.level != b.level || a.level_max != b.level_max {
        return false;
    }
    match (&a.node, &b.node) {
        (Node::Leaf { points: pa }, Node::Leaf { points: pb }) => pa == pb,
        (
            Node::Children {
                nw: anw,
                ne: ane,
                sw: asw,
                se: ase,
            },
            Node::Children {
                nw: bnw,
                ne: bne,
                sw: bsw,
                se: bse,
            },
        ) => {
            trees_equal(anw, bnw)
                && trees_equal(ane, bne)
                && trees_equal(asw, bsw)
                && trees_equal(ase, bse)
        }
        _ => false,
    }
}

#[test]
fn test_subdivide_partitions_boundary() {
    let mut tree = Quadtree::new(rect(0, 0, 10, 10), 1);
    tree.subdivide();
    match &tree.node {
        Node::Children { nw, ne, sw, se } => {
            assert_eq!(sw.boundary, rect(0, 0, 5, 5));
            assert_eq!(se.boundary, rect(5, 0, 5, 5));
            assert_eq!(nw.boundary, rect(0, 5, 5, 5));
            assert_eq!(ne.boundary, rect(5, 5, 5, 5));
            // The children's areas sum to the parent's area.
            let area: i64 = [&sw, &se, &nw, &ne]
                .iter()
                .map(|c| c.boundary.width * c.boundary.height)
                .sum();
            assert_eq!(area, 100);
            // Every sample point of the parent lies in exactly one child.
            for x in 0..10 {
                for y in 0..10 {
                    let p = Point { x, y };
                    let n = [&sw, &se, &nw, &ne]
                        .iter()
                        .filter(|c| c.boundary.contains(&p))
                        .count();
                    assert_eq!(n, 1);
                }
            }
        }
        _ => panic!("Tree should be a Children node."),
    }
}

#[test]
fn test_depth_cap_respected() {
    let mut tree = Quadtree::new(rect(0, 0, 64, 64), 3);
    for i in 0..16 {
        assert!(tree.insert(Point { x: i * 4, y: i * 4 }));
    }
    tree.refine();
    tree.weak_balance();
    assert!(max_level(&tree) <= 3);
}

#[test]
fn test_insertion_fidelity() {
    let mut tree = Quadtree::new(rect(0, 0, 64, 64), 4);
    let mut inserted: usize = 0;
    for i in 0..32 {
        if tree.insert(Point { x: 2 * i, y: 63 - i }) {
            inserted += 1;
        }
    }
    assert_eq!(inserted, 32);
    // Out-of-bounds points are rejected without a trace.
    assert!(!tree.insert(Point { x: 64, y: 0 }));
    assert!(!tree.insert(Point { x: -1, y: 5 }));
    tree.refine();
    assert_eq!(count_points(&tree), 32);
    tree.weak_balance();
    assert_eq!(count_points(&tree), 32);
}

#[test]
fn test_refine_idempotent() {
    let build = || {
        let mut t = Quadtree::new(rect(0, 0, 32, 32), 3);
        t.insert(Point { x: 1, y: 1 });
        t.insert(Point { x: 30, y: 30 });
        t.insert(Point { x: 1, y: 30 });
        t
    };
    let mut once = build();
    once.refine();
    let mut twice = build();
    twice.refine();
    twice.refine();
    assert!(trees_equal(&once, &twice));
}

#[test]
fn test_weak_balance_invariant_and_fixpoint() {
    // Build the deep one-branch refinement and balance it.
    let mut tree = Quadtree::new(rect(0, 0, 16, 16), 4);
    tree.subdivide();
    {
        let ne = match &mut tree.node {
            Node::Children { ne, .. } => ne,
            _ => panic!("Tree should have children after subdivide"),
        };
        ne.subdivide();
        let ne_sw = match &mut ne.node {
            Node::Children { sw, .. } => sw,
            _ => panic!("NE child should have L2 children"),
        };
        ne_sw.subdivide();
        let ne_sw_sw = match &mut ne_sw.node {
            Node::Children { sw, .. } => sw,
            _ => panic!("NE->SW child should have L3 children"),
        };
        ne_sw_sw.subdivide();
    }
    tree.weak_balance();

    // Invariant: any two face-adjacent leaves differ by at most one level.
    let leaves = tree.get_all_leaves();
    for a in &leaves {
        for b in &leaves {
            let ab = &a.boundary;
            let bb = &b.boundary;
            let x_touch = ab.origin.x + ab.width == bb.origin.x
                || bb.origin.x + bb.width == ab.origin.x;
            let y_overlap = ab.origin.y < bb.origin.y + bb.height
                && bb.origin.y < ab.origin.y + ab.height;
            let y_touch = ab.origin.y + ab.height == bb.origin.y
                || bb.origin.y + bb.height == ab.origin.y;
            let x_overlap = ab.origin.x < bb.origin.x + bb.width
                && bb.origin.x < ab.origin.x + ab.width;
            let face_adjacent = (x_touch && y_overlap) || (y_touch && x_overlap);
            if face_adjacent {
                let diff = if a.level > b.level {
                    a.level - b.level
                } else {
                    b.level - a.level
                };
                assert!(diff <= 1, "face-adjacent leaves differ by more than one level");
            }
        }
    }

    // Fixed point: a second balancing pass changes nothing.
    let before: Vec<_> = leaves
        .iter()
        .map(|l| (l.path.clone(), l.boundary.clone(), l.level))
        .collect();
    tree.weak_balance();
    let after: Vec<_> = tree
        .get_all_leaves()
        .iter()
        .map(|l| (l.path.clone(), l.boundary.clone(), l.level))
        .collect();
    assert_eq!(before, after);
}
