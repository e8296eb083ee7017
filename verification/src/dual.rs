//! Derived read-only queries: hanging-edge detection at one-level
//! refinement mismatches, and dual-mesh extraction (one vertex per leaf
//! center, edges between same-level face neighbors and across hanging
//! interfaces).

use vstd::prelude::*;

use crate::balance::{
    lemma_leaves_sound, lemma_neighbors_sound, leaf_at, models_of, root_leaves, spec_neighbors,
    LeafInfo, LeafRec,
};
use crate::geometry::{
    midpoint, rect_wf, spec_center, spec_edge_vertices, Direction, Point, Quadrant, Rectangle,
};
use crate::tree::{lemma_subtree_wf, subtree_at, wf, Node, Quadtree};

verus! {

/// A hanging edge: an edge of a coarse (leaf) cell with one or more
/// vertices of adjacent, finer cells lying in its interior.
#[derive(Debug, PartialEq, Clone)]
pub struct HangingEdge {
    /// The center of the coarse cell that this edge belongs to.
    pub coarse_cell_center: Point,
    /// The first vertex of the coarse edge.
    pub v1: Point,
    /// The second vertex of the coarse edge.
    pub v2: Point,
    /// The hanging nodes on this edge. For a weakly balanced tree this
    /// holds exactly one point, the edge midpoint.
    pub hanging_nodes: Vec<Point>,
}

/// The spec-level record of a hanging edge: coarse cell center, the
/// two edge endpoints, and the hanging nodes.
pub type HangingInfo = (Point, Point, Point, Seq<Point>);

/// The spec-level view of one hanging edge.
pub open spec fn he_model(h: HangingEdge) -> HangingInfo {
    (h.coarse_cell_center, h.v1, h.v2, h.hanging_nodes@)
}

/// The spec-level view of a sequence of hanging edges.
pub open spec fn he_models(s: Seq<HangingEdge>) -> Seq<HangingInfo> {
    s.map_values(|h: HangingEdge| he_model(h))
}

/// The direction opposite to `d`.
pub open spec fn opposite(d: Direction) -> Direction {
    match d {
        Direction::North => Direction::South,
        Direction::South => Direction::North,
        Direction::East => Direction::West,
        Direction::West => Direction::East,
    }
}

/// The hanging edge at the interface between two sibling cells, with
/// `node2` on the `d` side of `node1`: present exactly when one side
/// is still a leaf and the other is subdivided, and made of the coarse
/// side's shared edge with its midpoint as the hanging node.
pub open spec fn spec_interface_edge(n1: Quadtree, n2: Quadtree, d: Direction) -> Option<
    HangingInfo,
> {
    match (n1.node, n2.node) {
        (Node::Leaf { .. }, Node::Children { .. }) => {
            let (v1, v2) = spec_edge_vertices(n1.boundary, d);
            Some((spec_center(n1.boundary), v1, v2, seq![midpoint(v1, v2)]))
        },
        (Node::Children { .. }, Node::Leaf { .. }) => {
            let (v1, v2) = spec_edge_vertices(n2.boundary, opposite(d));
            Some((spec_center(n2.boundary), v1, v2, seq![midpoint(v1, v2)]))
        },
        _ => None,
    }
}

/// A singleton or empty sequence from an optional value.
pub open spec fn opt_seq(o: Option<HangingInfo>) -> Seq<HangingInfo> {
    match o {
        Some(e) => seq![e],
        None => Seq::<HangingInfo>::empty(),
    }
}

/// All hanging edges of `t`: at every subdivided node the four internal
/// interfaces (nw|ne, sw|se, nw over sw, ne over se) are examined, then
/// the children are visited recursively.
pub open spec fn spec_hanging_edges(t: Quadtree) -> Seq<HangingInfo>
    decreases t,
{
    match t.node {
        Node::Leaf { .. } => Seq::<HangingInfo>::empty(),
        Node::Children { nw, ne, sw, se } => opt_seq(
            spec_interface_edge(*nw, *ne, Direction::East),
        ) + opt_seq(spec_interface_edge(*sw, *se, Direction::East)) + opt_seq(
            spec_interface_edge(*nw, *sw, Direction::South),
        ) + opt_seq(spec_interface_edge(*ne, *se, Direction::South)) + spec_hanging_edges(*nw)
            + spec_hanging_edges(*ne) + spec_hanging_edges(*sw) + spec_hanging_edges(*se),
    }
}

/// One dual vertex per leaf, at the leaf's center, in pre-order.
pub open spec fn spec_dual_vertices(t: Quadtree) -> Seq<Point>
    decreases t,
{
    match t.node {
        Node::Leaf { .. } => seq![spec_center(t.boundary)],
        Node::Children { nw, ne, sw, se } => spec_dual_vertices(*nw) + spec_dual_vertices(*ne)
            + spec_dual_vertices(*sw) + spec_dual_vertices(*se),
    }
}

/// Selects the neighbor records at exactly level `l`.
pub open spec fn level_pred(l: int) -> spec_fn(LeafInfo) -> bool {
    |n: LeafInfo| n.2 == l
}

/// Maps a neighbor record to the dual edge from the center of the cell
/// `b` to the neighbor's center.
pub open spec fn center_pair(b: Rectangle) -> spec_fn(LeafInfo) -> (Point, Point) {
    |n: LeafInfo| (spec_center(b), spec_center(n.1))
}

/// The dual edges contributed by one leaf in one direction: one edge to
/// each face neighbor at the same level.
pub open spec fn dir_edges_for(t: Quadtree, b: Rectangle, l: int, d: Direction) -> Seq<
    (Point, Point),
> {
    spec_neighbors(t, b, d, Seq::<Quadrant>::empty()).filter(level_pred(l)).map_values(
        center_pair(b),
    )
}

/// The same-level dual edges of the leaves `leaves` of `t`, searching
/// east and south only so that each pair is counted once.
pub open spec fn same_level_edges(t: Quadtree, leaves: Seq<LeafInfo>) -> Seq<(Point, Point)>
    decreases leaves.len(),
{
    if leaves.len() == 0 {
        Seq::<(Point, Point)>::empty()
    } else {
        same_level_edges(t, leaves.drop_last()) + dir_edges_for(
            t,
            leaves.last().1,
            leaves.last().2,
            Direction::East,
        ) + dir_edges_for(t, leaves.last().1, leaves.last().2, Direction::South)
    }
}

/// The transition edges of the hanging interfaces `hs`: one edge from
/// the coarse cell's center to each hanging node.
pub open spec fn hanging_pairs(hs: Seq<HangingInfo>) -> Seq<(Point, Point)>
    decreases hs.len(),
{
    if hs.len() == 0 {
        Seq::<(Point, Point)>::empty()
    } else {
        hanging_pairs(hs.drop_last()) + hs.last().3.map_values(
            |p: Point| (hs.last().0, p),
        )
    }
}

/// All dual edges of `t`: the same-level face-neighbor edges of every
/// leaf, then the transition edges of every hanging interface.
pub open spec fn spec_dual_edges(t: Quadtree) -> Seq<(Point, Point)> {
    same_level_edges(t, root_leaves(t)) + hanging_pairs(spec_hanging_edges(t))
}

impl Quadtree {
    /// Checks for a hanging edge between two sibling cells, `node2` on
    /// the `direction_from_node1` side of `node1`, and returns it if
    /// present: the cells hang exactly when one is a leaf and the other
    /// is subdivided, and the hanging node is the midpoint of the
    /// coarse cell's shared edge.
    fn find_interface_hanging_edge(
        node1: &Quadtree,
        node2: &Quadtree,
        direction_from_node1: Direction,
    ) -> (r: Option<HangingEdge>)
        requires
            rect_wf(node1.boundary),
            rect_wf(node2.boundary),
            direction_from_node1 == Direction::East || direction_from_node1 == Direction::South,
        ensures
            (match r {
                Some(h) => spec_interface_edge(*node1, *node2, direction_from_node1) == Some(
                    he_model(h),
                ),
                None => spec_interface_edge(*node1, *node2, direction_from_node1) is None,
            }),
    {
        let leaf_is_first = match (&node1.node, &node2.node) {
            (Node::Leaf { .. }, Node::Children { .. }) => true,
            _ => false,
        };
        let children_then_leaf = match (&node1.node, &node2.node) {
            (Node::Children { .. }, Node::Leaf { .. }) => true,
            _ => false,
        };
        if leaf_is_first {
            let (v1, v2) = node1.boundary.edge_vertices(direction_from_node1);
            let hanging_node = Point { x: v1.x + (v2.x - v1.x) / 2, y: v1.y + (v2.y - v1.y) / 2 };
            let mut nodes: Vec<Point> = Vec::new();
            nodes.push(hanging_node);
            proof {
                assert(nodes@ =~= seq![midpoint(v1, v2)]);
            }
            Some(
                HangingEdge {
                    coarse_cell_center: node1.boundary.center(),
                    v1,
                    v2,
                    hanging_nodes: nodes,
                },
            )
        } else if children_then_leaf {
            let opposite_direction = match direction_from_node1 {
                Direction::East => Direction::West,
                Direction::South => Direction::North,
                Direction::North => Direction::South,
                Direction::West => Direction::East,
            };
            let (v1, v2) = node2.boundary.edge_vertices(opposite_direction);
            let hanging_node = Point { x: v1.x + (v2.x - v1.x) / 2, y: v1.y + (v2.y - v1.y) / 2 };
            let mut nodes: Vec<Point> = Vec::new();
            nodes.push(hanging_node);
            proof {
                assert(nodes@ =~= seq![midpoint(v1, v2)]);
            }
            Some(
                HangingEdge {
                    coarse_cell_center: node2.boundary.center(),
                    v1,
                    v2,
                    hanging_nodes: nodes,
                },
            )
        } else {
            None
        }
    }

    /// Finds all hanging edges in the quadtree: edges of a leaf cell
    /// adjacent to a more refined sibling, found by examining the four
    /// internal interfaces of every subdivided node.
    pub fn hanging_edges(&self) -> (out: Vec<HangingEdge>)
        requires
            wf(*self),
        ensures
            he_models(out@) == spec_hanging_edges(*self),
    {
        let mut out: Vec<HangingEdge> = Vec::new();
        self.hanging_edges_recursive(&mut out);
        proof {
            assert(he_models(out@) =~= spec_hanging_edges(*self));
        }
        out
    }

    /// Recursive helper: appends this subtree's hanging edges to
    /// `hanging_edges`.
    #[verifier::rlimit(60)]
    fn hanging_edges_recursive(&self, hanging_edges: &mut Vec<HangingEdge>)
        requires
            wf(*self),
        ensures
            he_models(final(hanging_edges)@) == he_models(old(hanging_edges)@)
                + spec_hanging_edges(*self),
        decreases *self,
    {
        match &self.node {
            Node::Leaf { .. } => {
                proof {
                    assert(he_models(hanging_edges@) =~= he_models(old(hanging_edges)@)
                        + spec_hanging_edges(*self));
                }
            },
            Node::Children { nw, ne, sw, se } => {
                if let Some(edge) = Self::find_interface_hanging_edge(nw, ne, Direction::East) {
                    hanging_edges.push(edge);
                }
                if let Some(edge) = Self::find_interface_hanging_edge(sw, se, Direction::East) {
                    hanging_edges.push(edge);
                }
                if let Some(edge) = Self::find_interface_hanging_edge(nw, sw, Direction::South) {
                    hanging_edges.push(edge);
                }
                if let Some(edge) = Self::find_interface_hanging_edge(ne, se, Direction::South) {
                    hanging_edges.push(edge);
                }
                proof {
                    assert(he_models(hanging_edges@) =~= he_models(old(hanging_edges)@) + opt_seq(
                        spec_interface_edge(**nw, **ne, Direction::East),
                    ) + opt_seq(spec_interface_edge(**sw, **se, Direction::East)) + opt_seq(
                        spec_interface_edge(**nw, **sw, Direction::South),
                    ) + opt_seq(spec_interface_edge(**ne, **se, Direction::South)));
                }
                nw.hanging_edges_recursive(hanging_edges);
                ne.hanging_edges_recursive(hanging_edges);
                sw.hanging_edges_recursive(hanging_edges);
                se.hanging_edges_recursive(hanging_edges);
                proof {
                    assert(he_models(hanging_edges@) =~= he_models(old(hanging_edges)@)
                        + spec_hanging_edges(*self));
                }
            },
        }
    }

    /// Computes the dual vertices of the quadtree: one point per leaf,
    /// at that leaf's center, in pre-order.
    pub fn dual_vertices(&self) -> (out: Vec<Point>)
        requires
            wf(*self),
        ensures
            out@ == spec_dual_vertices(*self),
    {
        let mut vertices: Vec<Point> = Vec::new();
        self.dual_vertices_recursive(&mut vertices);
        proof {
            assert(vertices@ =~= spec_dual_vertices(*self));
        }
        vertices
    }

    /// Recursive helper: appends the centers of this subtree's leaves
    /// to `vertices`.
    fn dual_vertices_recursive(&self, vertices: &mut Vec<Point>)
        requires
            wf(*self),
        ensures
            final(vertices)@ == old(vertices)@ + spec_dual_vertices(*self),
        decreases *self,
    {
        match &self.node {
            Node::Leaf { .. } => {
                let center = self.boundary.center();
                vertices.push(center);
                proof {
                    assert(vertices@ =~= old(vertices)@ + spec_dual_vertices(*self));
                }
            },
            Node::Children { nw, ne, sw, se } => {
                nw.dual_vertices_recursive(vertices);
                ne.dual_vertices_recursive(vertices);
                sw.dual_vertices_recursive(vertices);
                se.dual_vertices_recursive(vertices);
                proof {
                    assert(vertices@ =~= old(vertices)@ + spec_dual_vertices(*self));
                }
            },
        }
    }

    /// Computes the dual edges of the quadtree: an edge between the
    /// centers of every pair of same-level face neighbors (each pair
    /// counted once, by searching east and south only), then a
    /// transition edge from each hanging interface's coarse cell center
    /// to each hanging node on it.
    pub fn dual_edges(&self) -> (out: Vec<(Point, Point)>)
        requires
            wf(*self),
        ensures
            out@ == spec_dual_edges(*self),
    {
        let ghost t0 = *self;
        let mut edges: Vec<(Point, Point)> = Vec::new();
        let leaves = self.get_all_leaves();
        let ghost lmodels = root_leaves(t0);

        let mut i: usize = 0;
        while i < leaves.len()
            invariant
                wf(t0),
                *self == t0,
                i <= leaves.len(),
                models_of(leaves@) == lmodels,
                lmodels == root_leaves(t0),
                edges@ == same_level_edges(t0, lmodels.take(i as int)),
            decreases leaves.len() - i,
        {
            proof {
                assert(models_of(leaves@)[i as int] == (
                    leaves@[i as int].path@,
                    leaves@[i as int].boundary,
                    leaves@[i as int].level as int,
                ));
                lemma_leaves_sound(t0, Seq::<Quadrant>::empty(), i as int);
                let e = lmodels[i as int];
                let rel = choose|rel: Seq<Quadrant>|
                    e.0 == Seq::<Quadrant>::empty() + rel && #[trigger] leaf_at(t0, rel, e.1, e.2);
                match subtree_at(t0, rel) {
                    Some(s) => {
                        lemma_subtree_wf(t0, rel, s);
                    },
                    None => {},
                }
            }
            let leaf_boundary = leaves[i].boundary;
            let leaf_level = leaves[i].level;
            let neighbors_east = self.find_neighbors_recursive(
                &leaf_boundary,
                Direction::East,
                Vec::new(),
            );
            let neighbors_south = self.find_neighbors_recursive(
                &leaf_boundary,
                Direction::South,
                Vec::new(),
            );
            self.push_same_level_edges(&mut edges, &leaf_boundary, leaf_level, &neighbors_east, Direction::East);
            self.push_same_level_edges(&mut edges, &leaf_boundary, leaf_level, &neighbors_south, Direction::South);
            proof {
                assert(lmodels.take(i as int + 1) =~= lmodels.take(i as int).push(
                    lmodels[i as int],
                ));
                assert(lmodels.take(i as int + 1).drop_last() =~= lmodels.take(i as int));
                assert(edges@ =~= same_level_edges(t0, lmodels.take(i as int + 1)));
            }
            i += 1;
        }
        proof {
            assert(lmodels.take(lmodels.len() as int) =~= lmodels);
        }

        let hes = self.hanging_edges();
        let ghost hmodels = spec_hanging_edges(t0);
        let mut k: usize = 0;
        while k < hes.len()
            invariant
                k <= hes.len(),
                he_models(hes@) == hmodels,
                edges@ == same_level_edges(t0, root_leaves(t0)) + hanging_pairs(
                    hmodels.take(k as int),
                ),
            decreases hes.len() - k,
        {
            proof {
                assert(he_models(hes@)[k as int] == he_model(hes@[k as int]));
            }
            let he_center = hes[k].coarse_cell_center;
            let mut m: usize = 0;
            while m < hes[k].hanging_nodes.len()
                invariant
                    k < hes.len(),
                    m <= hes@[k as int].hanging_nodes@.len(),
                    he_models(hes@) == hmodels,
                    he_center == hmodels[k as int].0,
                    hes@[k as int].hanging_nodes@ == hmodels[k as int].3,
                    edges@ == same_level_edges(t0, root_leaves(t0)) + hanging_pairs(
                        hmodels.take(k as int),
                    ) + hmodels[k as int].3.take(m as int).map_values(
                        |p: Point| (hmodels[k as int].0, p),
                    ),
                decreases hes@[k as int].hanging_nodes@.len() - m,
            {
                let node = hes[k].hanging_nodes[m];
                edges.push((he_center, node));
                proof {
                    let nodes = hmodels[k as int].3;
                    assert(nodes.take(m as int + 1) =~= nodes.take(m as int).push(nodes[m as int]));
                    assert(nodes.take(m as int + 1).map_values(|p: Point| (hmodels[k as int].0, p))
                        =~= nodes.take(m as int).map_values(|p: Point| (hmodels[k as int].0, p)).push(
                        (hmodels[k as int].0, nodes[m as int]),
                    ));
                }
                m += 1;
            }
            proof {
                let nodes = hmodels[k as int].3;
                assert(nodes.take(nodes.len() as int) =~= nodes);
                assert(hmodels.take(k as int + 1) =~= hmodels.take(k as int).push(
                    hmodels[k as int],
                ));
                assert(hmodels.take(k as int + 1).drop_last() =~= hmodels.take(k as int));
                assert(edges@ =~= same_level_edges(t0, root_leaves(t0)) + hanging_pairs(
                    hmodels.take(k as int + 1),
                ));
            }
            k += 1;
        }
        proof {
            assert(hmodels.take(hmodels.len() as int) =~= hmodels);
            assert(edges@ =~= spec_dual_edges(t0));
        }
        edges
    }

    /// Appends to `edges` one dual edge for every neighbor in `nbrs`
    /// whose level equals `leaf_level`.
    fn push_same_level_edges(
        &self,
        edges: &mut Vec<(Point, Point)>,
        leaf_boundary: &Rectangle,
        leaf_level: usize,
        nbrs: &Vec<LeafRec>,
        d: Direction,
    )
        requires
            wf(*self),
            rect_wf(*leaf_boundary),
            models_of(nbrs@) == spec_neighbors(*self, *leaf_boundary, d, Seq::<Quadrant>::empty()),
        ensures
            final(edges)@ == old(edges)@ + dir_edges_for(
                *self,
                *leaf_boundary,
                leaf_level as int,
                d,
            ),
    {
        let ghost nmodels = spec_neighbors(*self, *leaf_boundary, d, Seq::<Quadrant>::empty());
        let center = leaf_boundary.center();
        let mut j: usize = 0;
        while j < nbrs.len()
            invariant
                wf(*self),
                rect_wf(*leaf_boundary),
                center == spec_center(*leaf_boundary),
                j <= nbrs.len(),
                models_of(nbrs@) == nmodels,
                nmodels == spec_neighbors(*self, *leaf_boundary, d, Seq::<Quadrant>::empty()),
                edges@ == old(edges)@ + nmodels.take(j as int).filter(
                    level_pred(leaf_level as int),
                ).map_values(center_pair(*leaf_boundary)),
            decreases nbrs.len() - j,
        {
            proof {
                assert(models_of(nbrs@)[j as int] == (
                    nbrs@[j as int].path@,
                    nbrs@[j as int].boundary,
                    nbrs@[j as int].level as int,
                ));
                lemma_neighbors_sound(
                    *self,
                    *leaf_boundary,
                    d,
                    Seq::<Quadrant>::empty(),
                    j as int,
                );
                let e = nmodels[j as int];
                let rel = choose|rel: Seq<Quadrant>|
                    e.0 == Seq::<Quadrant>::empty() + rel && #[trigger] leaf_at(
                        *self,
                        rel,
                        e.1,
                        e.2,
                    );
                match subtree_at(*self, rel) {
                    Some(s) => {
                        lemma_subtree_wf(*self, rel, s);
                    },
                    None => {},
                }
            }
            if nbrs[j].level == leaf_level {
                let p2 = nbrs[j].boundary.center();
                edges.push((center, p2));
            }
            proof {
                crate::tree::lemma_filter_push(
                    nmodels.take(j as int),
                    level_pred(leaf_level as int),
                    nmodels[j as int],
                );
                assert(nmodels.take(j as int + 1) =~= nmodels.take(j as int).push(
                    nmodels[j as int],
                ));
                if nmodels[j as int].2 == leaf_level as int {
                    assert(nmodels.take(j as int + 1).filter(
                        level_pred(leaf_level as int),
                    ).map_values(center_pair(*leaf_boundary)) =~= nmodels.take(j as int).filter(
                        level_pred(leaf_level as int),
                    ).map_values(center_pair(*leaf_boundary)).push(
                        (spec_center(*leaf_boundary), spec_center(nmodels[j as int].1)),
                    ));
                }
            }
            j += 1;
        }
        proof {
            assert(nmodels.take(nmodels.len() as int) =~= nmodels);
        }
    }
}

} // verus!
