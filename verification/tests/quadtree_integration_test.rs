use quadtree::dual::HangingEdge;
use quadtree::geometry::{Point, Rectangle};
use quadtree::tree::{Node, Quadtree};

#[test]
fn integration_test_quadtree_subdivision_and_reinsertion() {
    let boundary = Rectangle {
        origin: Point { x: 0, y: 0 },
        width: 100,
        height: 100,
    };
    let mut quadtree = Quadtree::new(boundary, 1); // level_max is 1
    let point = Point { x: 50, y: 60 }; // point in the ne quadrant

    assert!(quadtree.insert(point.clone()));
}

#[test]
fn test_weak_balance_no_unnecessary_corner_refinement() {
    // A deep refinement in the NE -> SW -> SW quadrant must refine its
    // face-adjacent neighbors, and only those: cells touching the deep
    // branch at a corner alone stay as they are.
    let mut tree = Quadtree::new(
        Rectangle {
            origin: Point { x: 0, y: 0 },
            width: 64,
            height: 64,
        },
        5, // level_max
    );

    // 1. Create a deep refinement in the NE -> SW -> SW quadrant.
    tree.subdivide(); // L1
    let ne_l1 = match &mut tree.node {
        Node::Children { ne, .. } => ne,
        _ => panic!("Tree should have L1 children"),
    };
    ne_l1.subdivide(); // L2
    let ne_sw_l2 = match &mut ne_l1.node {
        Node::Children { sw, .. } => sw,
        _ => panic!("NE child should have L2 children"),
    };
    ne_sw_l2.subdivide(); // L3
    let ne_sw_sw_l3 = match &mut ne_sw_l2.node {
        Node::Children { sw, .. } => sw,
        _ => panic!("NE->SW child should have L3 children"),
    };
    ne_sw_sw_l3.subdivide(); // L4

    // 2. Run the balancing algorithm.
    tree.weak_balance();

    // 3. Assert that corner-adjacent leaves were not unnecessarily
    // refined: the nw and se quadrants are refined once to balance
    // against their neighbors in the ne quadrant, but their children
    // that touch the deep branch only at a corner stay leaves.
    match &tree.node {
        Node::Children { nw, se, .. } => {
            // Check the nw quadrant's children
            match &nw.node {
                Node::Children {
                    nw: _nw_nw,
                    ne: nw_ne,
                    sw: _nw_sw,
                    se: nw_se,
                } => {
                    // nw_ne is not face-adjacent to the deepest refinement. It should remain a leaf.
                    assert!(
                        matches!(nw_ne.node, Node::Leaf { .. }),
                        "nw_ne should remain a leaf"
                    );

                    // nw_se IS face-adjacent to the L4 refinement area and MUST be refined.
                    assert!(
                        matches!(nw_se.node, Node::Children { .. }),
                        "nw_se should be refined"
                    );
                }
                _ => panic!("nw quadrant should have been subdivided once."),
            }

            // Check the se quadrant's children
            match &se.node {
                Node::Children {
                    nw: se_nw,
                    ne: se_ne,
                    sw: _se_sw,
                    se: _se_se,
                } => {
                    // se_ne is not face-adjacent to the deepest refinement. It should remain a leaf.
                    assert!(
                        matches!(se_ne.node, Node::Leaf { .. }),
                        "se_ne should remain a leaf"
                    );

                    // se_nw IS face-adjacent to the L4 refinement area and MUST be refined.
                    assert!(
                        matches!(se_nw.node, Node::Children { .. }),
                        "se_nw should be refined"
                    );
                }
                _ => panic!("se quadrant should have been subdivided once."),
            }
        }
        _ => panic!("Tree should be a Children node."),
    }
}

#[test]
fn test_dual_extraction_uniform_level1() {
    // A 2x2 unit root subdivided once: four unit leaves, one dual
    // vertex per leaf at each quadrant's center, and the four
    // same-level adjacent pairs as dual edges, with no diagonals.
    let mut tree = Quadtree::new(
        Rectangle {
            origin: Point { x: 0, y: 0 },
            width: 2,
            height: 2,
        },
        1,
    );
    tree.subdivide();

    let vertices = tree.dual_vertices();
    assert_eq!(vertices.len(), 4);
    let nw_c = Point { x: 0, y: 1 };
    let ne_c = Point { x: 1, y: 1 };
    let sw_c = Point { x: 0, y: 0 };
    let se_c = Point { x: 1, y: 0 };
    assert_eq!(vertices, vec![nw_c, ne_c, sw_c, se_c]);

    let edges = tree.dual_edges();
    assert_eq!(edges.len(), 4);
    assert!(edges.contains(&(nw_c, ne_c)));
    assert!(edges.contains(&(nw_c, sw_c)));
    assert!(edges.contains(&(ne_c, se_c)));
    assert!(edges.contains(&(sw_c, se_c)));
    // No diagonal pairs.
    assert!(!edges.contains(&(nw_c, se_c)));
    assert!(!edges.contains(&(sw_c, ne_c)));
}

#[test]
fn test_hanging_edges_on_mixed_refinement() {
    // Subdivide the root, then refine only the ne and se children: the
    // nw and sw leaves each gain one hanging edge toward their refined
    // east neighbor.
    let mut tree = Quadtree::new(
        Rectangle {
            origin: Point { x: 0, y: 0 },
            width: 4,
            height: 4,
        },
        2,
    );
    tree.subdivide();
    {
        let (ne, se) = match &mut tree.node {
            Node::Children { ne, se, .. } => (ne, se),
            _ => panic!("L1 NE and SE children should exist after subdivision."),
        };
        ne.subdivide();
        se.subdivide();
    }

    let edges: Vec<HangingEdge> = tree.hanging_edges();
    assert_eq!(edges.len(), 2);

    // The nw|ne interface: the coarse nw leaf spans (0,2)-(2,4).
    assert_eq!(edges[0].coarse_cell_center, Point { x: 1, y: 3 });
    assert_eq!(edges[0].v1, Point { x: 2, y: 2 });
    assert_eq!(edges[0].v2, Point { x: 2, y: 4 });
    assert_eq!(edges[0].hanging_nodes, vec![Point { x: 2, y: 3 }]);

    // The sw|se interface: the coarse sw leaf spans (0,0)-(2,2).
    assert_eq!(edges[1].coarse_cell_center, Point { x: 1, y: 1 });
    assert_eq!(edges[1].v1, Point { x: 2, y: 0 });
    assert_eq!(edges[1].v2, Point { x: 2, y: 2 });
    assert_eq!(edges[1].hanging_nodes, vec![Point { x: 2, y: 1 }]);
}
