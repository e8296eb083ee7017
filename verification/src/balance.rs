//! Weak balancing: collecting leaves, face-neighbor search by exact
//! top-down recursive descent, and the mark-then-mutate balancing pass
//! that drives the tree to the 2:1 invariant between face-adjacent
//! leaves.

use vstd::prelude::*;

use crate::geometry::{Direction, Quadrant, Rectangle};
use crate::tree::{
    diverges, extends, lemma_distinct_leaf_paths_diverge, lemma_extends_refl, lemma_extends_trans,
    lemma_subtree_step, points_in, potential, subtree_at, wf, Node, Quadtree,
};

verus! {

/// The spec-level record of one leaf: its path from the root, its
/// boundary, and its level.
pub type LeafInfo = (Seq<Quadrant>, Rectangle, int);

/// A record of one leaf as the balancing pass handles it: the path of
/// quadrant choices that reaches it from the root (its stable identity
/// across the mark and mutate phases), its boundary, and its level.
#[derive(Debug)]
pub struct LeafRec {
    pub path: Vec<Quadrant>,
    pub boundary: Rectangle,
    pub level: usize,
}

/// The spec-level view of a sequence of leaf records.
pub open spec fn models_of(s: Seq<LeafRec>) -> Seq<LeafInfo> {
    s.map_values(|l: LeafRec| (l.path@, l.boundary, l.level as int))
}

/// All leaves of `t` in pre-order (nw, ne, sw, se), each tagged with
/// the path that reaches it, starting from `prefix`.
pub open spec fn spec_leaves(t: Quadtree, prefix: Seq<Quadrant>) -> Seq<LeafInfo>
    decreases t,
{
    match t.node {
        Node::Leaf { .. } => seq![(prefix, t.boundary, t.level as int)],
        Node::Children { nw, ne, sw, se } => spec_leaves(*nw, prefix.push(Quadrant::Nw))
            + spec_leaves(*ne, prefix.push(Quadrant::Ne)) + spec_leaves(
            *sw,
            prefix.push(Quadrant::Sw),
        ) + spec_leaves(*se, prefix.push(Quadrant::Se)),
    }
}

/// There is a leaf at `path` in `t` with boundary `b` and level `l`.
pub open spec fn leaf_at(t: Quadtree, path: Seq<Quadrant>, b: Rectangle, l: int) -> bool {
    subtree_at(t, path) matches Some(s) && s.node is Leaf && s.boundary == b && s.level == l
}

/// Soundness of the leaf listing: every entry of `spec_leaves` names,
/// via its path, an actual leaf of the tree with that boundary and
/// level.
pub proof fn lemma_leaves_sound(t: Quadtree, prefix: Seq<Quadrant>, i: int)
    requires
        0 <= i < spec_leaves(t, prefix).len(),
    ensures
        ({
            let e = spec_leaves(t, prefix)[i];
            exists|rel: Seq<Quadrant>|
                e.0 == prefix + rel && #[trigger] leaf_at(t, rel, e.1, e.2)
        }),
    decreases t,
{
    let e = spec_leaves(t, prefix)[i];
    match t.node {
        Node::Leaf { .. } => {
            let rel = Seq::<Quadrant>::empty();
            assert(prefix + rel =~= prefix);
            assert(leaf_at(t, rel, e.1, e.2));
        },
        Node::Children { nw, ne, sw, se } => {
            let snw = spec_leaves(*nw, prefix.push(Quadrant::Nw));
            let sne = spec_leaves(*ne, prefix.push(Quadrant::Ne));
            let ssw = spec_leaves(*sw, prefix.push(Quadrant::Sw));
            let sse = spec_leaves(*se, prefix.push(Quadrant::Se));
            if i < snw.len() {
                lemma_leaves_sound(*nw, prefix.push(Quadrant::Nw), i);
                lemma_leaves_shift(t, *nw, Quadrant::Nw, prefix, snw[i]);
            } else if i < snw.len() + sne.len() {
                lemma_leaves_sound(*ne, prefix.push(Quadrant::Ne), i - snw.len());
                lemma_leaves_shift(t, *ne, Quadrant::Ne, prefix, sne[i - snw.len()]);
            } else if i < snw.len() + sne.len() + ssw.len() {
                lemma_leaves_sound(*sw, prefix.push(Quadrant::Sw), i - snw.len() - sne.len());
                lemma_leaves_shift(t, *sw, Quadrant::Sw, prefix, ssw[i - snw.len() - sne.len()]);
            } else {
                lemma_leaves_sound(
                    *se,
                    prefix.push(Quadrant::Se),
                    i - snw.len() - sne.len() - ssw.len(),
                );
                lemma_leaves_shift(
                    t,
                    *se,
                    Quadrant::Se,
                    prefix,
                    sse[i - snw.len() - sne.len() - ssw.len()],
                );
            }
        },
    }
}

/// Lifting a leaf witness of a child to a leaf witness of the parent:
/// prepend the child's quadrant to the relative path.
proof fn lemma_leaves_shift(t: Quadtree, c: Quadtree, q: Quadrant, prefix: Seq<Quadrant>, e: LeafInfo)
    requires
        t.node matches Node::Children { nw, ne, sw, se } && c == (match q {
            Quadrant::Nw => *nw,
            Quadrant::Ne => *ne,
            Quadrant::Sw => *sw,
            Quadrant::Se => *se,
        }),
        exists|rel: Seq<Quadrant>|
            e.0 == prefix.push(q) + rel && #[trigger] leaf_at(c, rel, e.1, e.2),
    ensures
        exists|rel: Seq<Quadrant>| e.0 == prefix + rel && #[trigger] leaf_at(t, rel, e.1, e.2),
{
    let rel = choose|rel: Seq<Quadrant>|
        e.0 == prefix.push(q) + rel && #[trigger] leaf_at(c, rel, e.1, e.2);
    let lifted = seq![q] + rel;
    lemma_subtree_step(t, q, rel, c);
    assert(prefix + lifted =~= prefix.push(q) + rel);
    assert(leaf_at(t, lifted, e.1, e.2));
}

/// Whether the boundary `b` overlaps the `target` rectangle in the
/// direction transverse to `edge`: for an east or west edge the
/// y-ranges must overlap with positive length, for a north or south
/// edge the x-ranges must.
pub open spec fn edge_overlaps(b: Rectangle, edge: Direction, target: Rectangle) -> bool {
    match edge {
        Direction::East | Direction::West => b.origin.y < target.origin.y + target.height
            && b.origin.y + b.height > target.origin.y,
        Direction::North | Direction::South => b.origin.x < target.origin.x + target.width
            && b.origin.x + b.width > target.origin.x,
    }
}

/// The leaves of `t` that lie on `t`'s side facing `edge` and overlap
/// `target` transversally: an edge-walk that recurses into the two
/// children abutting that side.
pub open spec fn spec_edge_leaves(
    t: Quadtree,
    edge: Direction,
    target: Rectangle,
    prefix: Seq<Quadrant>,
) -> Seq<LeafInfo>
    decreases t,
{
    if !edge_overlaps(t.boundary, edge, target) {
        Seq::<LeafInfo>::empty()
    } else {
        match t.node {
            Node::Leaf { .. } => seq![(prefix, t.boundary, t.level as int)],
            Node::Children { nw, ne, sw, se } => match edge {
                Direction::North => spec_edge_leaves(*nw, edge, target, prefix.push(Quadrant::Nw))
                    + spec_edge_leaves(*ne, edge, target, prefix.push(Quadrant::Ne)),
                Direction::East => spec_edge_leaves(*ne, edge, target, prefix.push(Quadrant::Ne))
                    + spec_edge_leaves(*se, edge, target, prefix.push(Quadrant::Se)),
                Direction::South => spec_edge_leaves(*sw, edge, target, prefix.push(Quadrant::Sw))
                    + spec_edge_leaves(*se, edge, target, prefix.push(Quadrant::Se)),
                Direction::West => spec_edge_leaves(*nw, edge, target, prefix.push(Quadrant::Nw))
                    + spec_edge_leaves(*sw, edge, target, prefix.push(Quadrant::Sw)),
            },
        }
    }
}

/// The face neighbors of the cell `target` in direction `d`, found by
/// exact top-down descent: descend toward the child containing the
/// target until the target's facing edge lies on this node's center
/// line; there, edge-walk the abutting child on the other side.
pub open spec fn spec_neighbors(
    t: Quadtree,
    target: Rectangle,
    d: Direction,
    prefix: Seq<Quadrant>,
) -> Seq<LeafInfo>
    decreases t,
{
    match t.node {
        Node::Leaf { .. } => Seq::<LeafInfo>::empty(),
        Node::Children { nw, ne, sw, se } => {
            let c = crate::geometry::spec_center(t.boundary);
            let tn = target.origin.y >= c.y;
            let tw = target.origin.x < c.x;
            match d {
                Direction::North => {
                    if !tn && target.origin.y + target.height == c.y {
                        if tw {
                            spec_edge_leaves(*nw, Direction::South, target, prefix.push(Quadrant::Nw))
                        } else {
                            spec_edge_leaves(*ne, Direction::South, target, prefix.push(Quadrant::Ne))
                        }
                    } else {
                        if tn {
                            if tw {
                                spec_neighbors(*nw, target, d, prefix.push(Quadrant::Nw))
                            } else {
                                spec_neighbors(*ne, target, d, prefix.push(Quadrant::Ne))
                            }
                        } else {
                            if tw {
                                spec_neighbors(*sw, target, d, prefix.push(Quadrant::Sw))
                            } else {
                                spec_neighbors(*se, target, d, prefix.push(Quadrant::Se))
                            }
                        }
                    }
                },
                Direction::South => {
                    if tn && target.origin.y == c.y {
                        if tw {
                            spec_edge_leaves(*sw, Direction::North, target, prefix.push(Quadrant::Sw))
                        } else {
                            spec_edge_leaves(*se, Direction::North, target, prefix.push(Quadrant::Se))
                        }
                    } else {
                        if tn {
                            if tw {
                                spec_neighbors(*nw, target, d, prefix.push(Quadrant::Nw))
                            } else {
                                spec_neighbors(*ne, target, d, prefix.push(Quadrant::Ne))
                            }
                        } else {
                            if tw {
                                spec_neighbors(*sw, target, d, prefix.push(Quadrant::Sw))
                            } else {
                                spec_neighbors(*se, target, d, prefix.push(Quadrant::Se))
                            }
                        }
                    }
                },
                Direction::East => {
                    if tw && target.origin.x + target.width == c.x {
                        if tn {
                            spec_edge_leaves(*ne, Direction::West, target, prefix.push(Quadrant::Ne))
                        } else {
                            spec_edge_leaves(*se, Direction::West, target, prefix.push(Quadrant::Se))
                        }
                    } else {
                        if tn {
                            if tw {
                                spec_neighbors(*nw, target, d, prefix.push(Quadrant::Nw))
                            } else {
                                spec_neighbors(*ne, target, d, prefix.push(Quadrant::Ne))
                            }
                        } else {
                            if tw {
                                spec_neighbors(*sw, target, d, prefix.push(Quadrant::Sw))
                            } else {
                                spec_neighbors(*se, target, d, prefix.push(Quadrant::Se))
                            }
                        }
                    }
                },
                Direction::West => {
                    if !tw && target.origin.x == c.x {
                        if tn {
                            spec_edge_leaves(*nw, Direction::East, target, prefix.push(Quadrant::Nw))
                        } else {
                            spec_edge_leaves(*sw, Direction::East, target, prefix.push(Quadrant::Sw))
                        }
                    } else {
                        if tn {
                            if tw {
                                spec_neighbors(*nw, target, d, prefix.push(Quadrant::Nw))
                            } else {
                                spec_neighbors(*ne, target, d, prefix.push(Quadrant::Ne))
                            }
                        } else {
                            if tw {
                                spec_neighbors(*sw, target, d, prefix.push(Quadrant::Sw))
                            } else {
                                spec_neighbors(*se, target, d, prefix.push(Quadrant::Se))
                            }
                        }
                    }
                },
            }
        },
    }
}

/// Soundness of the edge walk: every entry names an actual leaf of the
/// tree, with its boundary and level.
pub proof fn lemma_edge_leaves_sound(
    t: Quadtree,
    edge: Direction,
    target: Rectangle,
    prefix: Seq<Quadrant>,
    i: int,
)
    requires
        0 <= i < spec_edge_leaves(t, edge, target, prefix).len(),
    ensures
        ({
            let e = spec_edge_leaves(t, edge, target, prefix)[i];
            exists|rel: Seq<Quadrant>|
                e.0 == prefix + rel && #[trigger] leaf_at(t, rel, e.1, e.2)
        }),
    decreases t,
{
    let e = spec_edge_leaves(t, edge, target, prefix)[i];
    match t.node {
        Node::Leaf { .. } => {
            let rel = Seq::<Quadrant>::empty();
            assert(prefix + rel =~= prefix);
            assert(leaf_at(t, rel, e.1, e.2));
        },
        Node::Children { nw, ne, sw, se } => {
            let (c1, q1, c2, q2) = match edge {
                Direction::North => (*nw, Quadrant::Nw, *ne, Quadrant::Ne),
                Direction::East => (*ne, Quadrant::Ne, *se, Quadrant::Se),
                Direction::South => (*sw, Quadrant::Sw, *se, Quadrant::Se),
                Direction::West => (*nw, Quadrant::Nw, *sw, Quadrant::Sw),
            };
            let s1 = spec_edge_leaves(c1, edge, target, prefix.push(q1));
            let s2 = spec_edge_leaves(c2, edge, target, prefix.push(q2));
            if i < s1.len() {
                lemma_edge_leaves_sound(c1, edge, target, prefix.push(q1), i);
                lemma_leaves_shift(t, c1, q1, prefix, s1[i]);
            } else {
                lemma_edge_leaves_sound(c2, edge, target, prefix.push(q2), i - s1.len());
                lemma_leaves_shift(t, c2, q2, prefix, s2[i - s1.len()]);
            }
        },
    }
}

/// Soundness of the neighbor search: every entry names an actual leaf
/// of the tree, with its boundary and level.
pub proof fn lemma_neighbors_sound(
    t: Quadtree,
    target: Rectangle,
    d: Direction,
    prefix: Seq<Quadrant>,
    i: int,
)
    requires
        0 <= i < spec_neighbors(t, target, d, prefix).len(),
    ensures
        ({
            let e = spec_neighbors(t, target, d, prefix)[i];
            exists|rel: Seq<Quadrant>|
                e.0 == prefix + rel && #[trigger] leaf_at(t, rel, e.1, e.2)
        }),
    decreases t,
{
    let e = spec_neighbors(t, target, d, prefix)[i];
    match t.node {
        Node::Leaf { .. } => {},
        Node::Children { nw, ne, sw, se } => {
            let c = crate::geometry::spec_center(t.boundary);
            let tn = target.origin.y >= c.y;
            let tw = target.origin.x < c.x;
            let crossing = match d {
                Direction::North => !tn && target.origin.y + target.height == c.y,
                Direction::South => tn && target.origin.y == c.y,
                Direction::East => tw && target.origin.x + target.width == c.x,
                Direction::West => !tw && target.origin.x == c.x,
            };
            if crossing {
                let (ch, q, ed) = match d {
                    Direction::North => if tw {
                        (*nw, Quadrant::Nw, Direction::South)
                    } else {
                        (*ne, Quadrant::Ne, Direction::South)
                    },
                    Direction::South => if tw {
                        (*sw, Quadrant::Sw, Direction::North)
                    } else {
                        (*se, Quadrant::Se, Direction::North)
                    },
                    Direction::East => if tn {
                        (*ne, Quadrant::Ne, Direction::West)
                    } else {
                        (*se, Quadrant::Se, Direction::West)
                    },
                    Direction::West => if tn {
                        (*nw, Quadrant::Nw, Direction::East)
                    } else {
                        (*sw, Quadrant::Sw, Direction::East)
                    },
                };
                lemma_edge_leaves_sound(ch, ed, target, prefix.push(q), i);
                lemma_leaves_shift(t, ch, q, prefix, e);
            } else {
                let (ch, q) = if tn {
                    if tw {
                        (*nw, Quadrant::Nw)
                    } else {
                        (*ne, Quadrant::Ne)
                    }
                } else {
                    if tw {
                        (*sw, Quadrant::Sw)
                    } else {
                        (*se, Quadrant::Se)
                    }
                };
                lemma_neighbors_sound(ch, target, d, prefix.push(q), i);
                lemma_leaves_shift(t, ch, q, prefix, e);
            }
        },
    }
}

/// The leaves of `t`, with paths from the root.
pub open spec fn root_leaves(t: Quadtree) -> Seq<LeafInfo> {
    spec_leaves(t, Seq::<Quadrant>::empty())
}

/// All face neighbors of the cell `b` in `t`, over the four directions
/// in the order north, east, south, west.
pub open spec fn all_neighbors(t: Quadtree, b: Rectangle) -> Seq<LeafInfo> {
    spec_neighbors(t, b, Direction::North, Seq::<Quadrant>::empty()) + spec_neighbors(
        t,
        b,
        Direction::East,
        Seq::<Quadrant>::empty(),
    ) + spec_neighbors(t, b, Direction::South, Seq::<Quadrant>::empty()) + spec_neighbors(
        t,
        b,
        Direction::West,
        Seq::<Quadrant>::empty(),
    )
}

/// Leaf `i` of `t` and its neighbor `j` break the weak-balance bound:
/// the leaf sits more than one level deeper than that face neighbor.
pub open spec fn is_violation(t: Quadtree, i: int, j: int) -> bool {
    &&& 0 <= i < root_leaves(t).len()
    &&& 0 <= j < all_neighbors(t, root_leaves(t)[i].1).len()
    &&& root_leaves(t)[i].2 > all_neighbors(t, root_leaves(t)[i].1)[j].2 + 1
}

/// Some pair of leaves breaks the weak-balance bound, as the
/// face-neighbor search sees the tree: this is exactly the condition
/// under which one balancing pass subdivides something.
pub open spec fn has_violation(t: Quadtree) -> bool {
    exists|i: int, j: int| is_violation(t, i, j)
}

/// The violating pair `(i, j)` flags the node at `path`: neighbor `j`
/// of leaf `i` breaks the bound and stands at `path`.
pub open spec fn flagged_by(t: Quadtree, path: Seq<Quadrant>, i: int, j: int) -> bool {
    &&& is_violation(t, i, j)
    &&& all_neighbors(t, root_leaves(t)[i].1)[j].0 == path
}

/// The node at `path` is flagged for subdivision: it is reported as a
/// face neighbor of some leaf more than one level deeper. The mark
/// phase of a balancing pass collects exactly these paths.
pub open spec fn flagged(t: Quadtree, path: Seq<Quadrant>) -> bool {
    exists|i: int, j: int| flagged_by(t, path, i, j)
}

/// The set of marked paths holds `p`.
pub open spec fn path_in(marks: Seq<Vec<Quadrant>>, p: Seq<Quadrant>) -> bool {
    exists|k: int| 0 <= k < marks.len() && (#[trigger] marks[k])@ == p
}

/// The path leads to a leaf of `t`.
pub open spec fn leaf_node_at(t: Quadtree, path: Seq<Quadrant>) -> bool {
    subtree_at(t, path) matches Some(s) && s.node is Leaf
}

/// A path held by the marked set is still held after another mark is
/// appended.
proof fn lemma_path_in_push(marks: Seq<Vec<Quadrant>>, x: Vec<Quadrant>, p: Seq<Quadrant>)
    requires
        path_in(marks, p),
    ensures
        path_in(marks.push(x), p),
{
    let k = choose|k: int| 0 <= k < marks.len() && (#[trigger] marks[k])@ == p;
    assert(marks.push(x)[k]@ == p);
}

/// A subdivided tree extends another subdivided tree with the same
/// boundary and levels when each of its children extends or equals the
/// corresponding one.
proof fn lemma_siblings_extend(pre: Quadtree, cur: Quadtree)
    requires
        cur.boundary == pre.boundary,
        cur.level == pre.level,
        cur.level_max == pre.level_max,
        pre.node matches Node::Children { nw: pnw, ne: pne, sw: psw, se: pse } && cur.node matches
            Node::Children { nw, ne, sw, se } && (extends(*pnw, *nw) || pnw == nw) && (extends(
            *pne,
            *ne,
        ) || pne == ne) && (extends(*psw, *sw) || psw == sw) && (extends(*pse, *se) || pse == se),
    ensures
        extends(pre, cur),
{
    match (pre.node, cur.node) {
        (
            Node::Children { nw: pnw, ne: pne, sw: psw, se: pse },
            Node::Children { nw, ne, sw, se },
        ) => {
            lemma_extends_refl(*pnw);
            lemma_extends_refl(*pne);
            lemma_extends_refl(*psw);
            lemma_extends_refl(*pse);
        },
        _ => {},
    }
}

/// The path leads to a leaf that is still allowed to subdivide.
pub open spec fn splittable_at(t: Quadtree, path: Seq<Quadrant>) -> bool {
    subtree_at(t, path) matches Some(s) && s.node is Leaf && s.level < s.level_max
}

/// The cell `n` lies on the `d` side of the cell `b` and the two share
/// an edge segment of positive length: genuine face adjacency, which
/// corner-only contact never satisfies.
pub open spec fn face_adjacent(b: Rectangle, n: Rectangle, d: Direction) -> bool {
    match d {
        Direction::East => n.origin.x == b.origin.x + b.width && edge_overlaps(
            n,
            Direction::West,
            b,
        ),
        Direction::West => n.origin.x + n.width == b.origin.x && edge_overlaps(
            n,
            Direction::East,
            b,
        ),
        Direction::North => n.origin.y == b.origin.y + b.height && edge_overlaps(
            n,
            Direction::South,
            b,
        ),
        Direction::South => n.origin.y + n.height == b.origin.y && edge_overlaps(
            n,
            Direction::North,
            b,
        ),
    }
}

/// The coordinate of the side of `r` facing `edge`: the x of a west or
/// east edge, the y of a south or north edge.
pub open spec fn side_coord(r: Rectangle, edge: Direction) -> int {
    match edge {
        Direction::West => r.origin.x as int,
        Direction::East => r.origin.x + r.width,
        Direction::South => r.origin.y as int,
        Direction::North => r.origin.y + r.height,
    }
}

/// Law (corner exclusion, edge walk): every leaf the edge walk reports
/// keeps to the walked side of the subtree — its `edge`-side coordinate
/// is the subtree's — and overlaps the target transversally with
/// positive length.
pub proof fn lemma_edge_leaves_on_edge(
    t: Quadtree,
    edge: Direction,
    target: Rectangle,
    prefix: Seq<Quadrant>,
    j: int,
)
    requires
        wf(t),
        0 <= j < spec_edge_leaves(t, edge, target, prefix).len(),
    ensures
        ({
            let e = spec_edge_leaves(t, edge, target, prefix)[j];
            side_coord(e.1, edge) == side_coord(t.boundary, edge) && edge_overlaps(
                e.1,
                edge,
                target,
            )
        }),
    decreases t,
{
    match t.node {
        Node::Leaf { .. } => {},
        Node::Children { nw, ne, sw, se } => {
            let (c1, q1, c2, q2) = match edge {
                Direction::North => (*nw, Quadrant::Nw, *ne, Quadrant::Ne),
                Direction::East => (*ne, Quadrant::Ne, *se, Quadrant::Se),
                Direction::South => (*sw, Quadrant::Sw, *se, Quadrant::Se),
                Direction::West => (*nw, Quadrant::Nw, *sw, Quadrant::Sw),
            };
            let s1 = spec_edge_leaves(c1, edge, target, prefix.push(q1));
            if j < s1.len() {
                lemma_edge_leaves_on_edge(c1, edge, target, prefix.push(q1), j);
            } else {
                lemma_edge_leaves_on_edge(c2, edge, target, prefix.push(q2), j - s1.len());
            }
        },
    }
}

/// Law (corner exclusion): every neighbor the directional search
/// reports is genuinely face-adjacent to the target — it abuts the
/// target's `d` side and shares an edge segment of positive length
/// with it. A cell touching the target at a corner alone is never
/// reported.
pub proof fn lemma_neighbors_face_adjacent(
    t: Quadtree,
    target: Rectangle,
    d: Direction,
    prefix: Seq<Quadrant>,
    j: int,
)
    requires
        wf(t),
        0 <= j < spec_neighbors(t, target, d, prefix).len(),
    ensures
        face_adjacent(target, spec_neighbors(t, target, d, prefix)[j].1, d),
    decreases t,
{
    match t.node {
        Node::Leaf { .. } => {},
        Node::Children { nw, ne, sw, se } => {
            let c = crate::geometry::spec_center(t.boundary);
            let tn = target.origin.y >= c.y;
            let tw = target.origin.x < c.x;
            let crossing = match d {
                Direction::North => !tn && target.origin.y + target.height == c.y,
                Direction::South => tn && target.origin.y == c.y,
                Direction::East => tw && target.origin.x + target.width == c.x,
                Direction::West => !tw && target.origin.x == c.x,
            };
            if crossing {
                let (ch, q, ed) = match d {
                    Direction::North => if tw {
                        (*nw, Quadrant::Nw, Direction::South)
                    } else {
                        (*ne, Quadrant::Ne, Direction::South)
                    },
                    Direction::South => if tw {
                        (*sw, Quadrant::Sw, Direction::North)
                    } else {
                        (*se, Quadrant::Se, Direction::North)
                    },
                    Direction::East => if tn {
                        (*ne, Quadrant::Ne, Direction::West)
                    } else {
                        (*se, Quadrant::Se, Direction::West)
                    },
                    Direction::West => if tn {
                        (*nw, Quadrant::Nw, Direction::East)
                    } else {
                        (*sw, Quadrant::Sw, Direction::East)
                    },
                };
                lemma_edge_leaves_on_edge(ch, ed, target, prefix.push(q), j);
            } else {
                let (ch, q) = if tn {
                    if tw {
                        (*nw, Quadrant::Nw)
                    } else {
                        (*ne, Quadrant::Ne)
                    }
                } else {
                    if tw {
                        (*sw, Quadrant::Sw)
                    } else {
                        (*se, Quadrant::Se)
                    }
                };
                lemma_neighbors_face_adjacent(ch, target, d, prefix.push(q), j);
            }
        },
    }
}

/// Law (weak balance, as the search sees the tree): where no violation
/// remains, no leaf sits more than one level deeper than any of the
/// face neighbors reported for it. `weak_balance` ensures exactly this
/// of the tree it returns.
pub proof fn lemma_no_violation_bound(t: Quadtree, i: int, j: int)
    requires
        !has_violation(t),
        0 <= i < root_leaves(t).len(),
        0 <= j < all_neighbors(t, root_leaves(t)[i].1).len(),
    ensures
        root_leaves(t)[i].2 <= all_neighbors(t, root_leaves(t)[i].1)[j].2 + 1,
{
    if root_leaves(t)[i].2 > all_neighbors(t, root_leaves(t)[i].1)[j].2 + 1 {
        assert(is_violation(t, i, j));
    }
}

/// An exact copy of a path of quadrant choices.
fn clone_path(p: &Vec<Quadrant>) -> (r: Vec<Quadrant>)
    ensures
        r@ == p@,
{
    let mut r: Vec<Quadrant> = Vec::new();
    let mut i: usize = 0;
    while i < p.len()
        invariant
            i <= p.len(),
            r@ == p@.take(i as int),
        decreases p.len() - i,
    {
        r.push(p[i]);
        proof {
            assert(p@.take(i as int + 1) =~= p@.take(i as int).push(p@[i as int]));
        }
        i += 1;
    }
    proof {
        assert(p@.take(p@.len() as int) =~= p@);
    }
    r
}

/// Whether two paths of quadrant choices are the same.
fn path_eq(a: &Vec<Quadrant>, b: &Vec<Quadrant>) -> (r: bool)
    ensures
        r == (a@ == b@),
{
    if a.len() != b.len() {
        proof {
            assert(a@ != b@);
        }
        return false;
    }
    let mut i: usize = 0;
    while i < a.len()
        invariant
            i <= a.len(),
            a@.len() == b@.len(),
            forall|k: int| 0 <= k < i ==> a@[k] == b@[k],
        decreases a.len() - i,
    {
        if a[i] != b[i] {
            proof {
                assert(a@ != b@);
            }
            return false;
        }
        i += 1;
    }
    proof {
        assert(a@ =~= b@);
    }
    true
}

/// Whether the set of marked paths already holds `p`: the
/// identity-based deduplication of the mark phase.
fn contains_path(marks: &Vec<Vec<Quadrant>>, p: &Vec<Quadrant>) -> (r: bool)
    ensures
        r == exists|k: int| 0 <= k < marks@.len() && (#[trigger] marks@[k])@ == p@,
{
    let mut i: usize = 0;
    while i < marks.len()
        invariant
            i <= marks.len(),
            forall|k: int| 0 <= k < i ==> (#[trigger] marks@[k])@ != p@,
        decreases marks.len() - i,
    {
        if path_eq(&marks[i], p) {
            return true;
        }
        i += 1;
    }
    false
}

impl Quadtree {
    /// Collects a record of every leaf of the tree, in pre-order, each
    /// carrying the path that reaches it from this node.
    pub fn get_all_leaves(&self) -> (out: Vec<LeafRec>)
        ensures
            models_of(out@) == spec_leaves(*self, Seq::<Quadrant>::empty()),
    {
        let prefix: Vec<Quadrant> = Vec::new();
        self.leaves_from(prefix)
    }

    /// Collects the leaf records of this subtree, with `prefix` as the
    /// path that reaches this subtree from the root.
    fn leaves_from(&self, prefix: Vec<Quadrant>) -> (out: Vec<LeafRec>)
        ensures
            models_of(out@) == spec_leaves(*self, prefix@),
        decreases *self,
    {
        match &self.node {
            Node::Leaf { .. } => {
                let mut out: Vec<LeafRec> = Vec::new();
                out.push(LeafRec { path: prefix, boundary: self.boundary, level: self.level });
                proof {
                    assert(models_of(out@) =~= spec_leaves(*self, prefix@));
                }
                out
            },
            Node::Children { nw, ne, sw, se } => {
                let mut pnw = clone_path(&prefix);
                pnw.push(Quadrant::Nw);
                let mut pne = clone_path(&prefix);
                pne.push(Quadrant::Ne);
                let mut psw = clone_path(&prefix);
                psw.push(Quadrant::Sw);
                let mut pse = prefix;
                pse.push(Quadrant::Se);
                let mut out = nw.leaves_from(pnw);
                let mut one = ne.leaves_from(pne);
                let mut osw = sw.leaves_from(psw);
                let mut ose = se.leaves_from(pse);
                out.append(&mut one);
                out.append(&mut osw);
                out.append(&mut ose);
                proof {
                    assert(models_of(out@) =~= spec_leaves(*self, prefix@));
                }
                out
            },
        }
    }

    /// Collects the leaves of this subtree lying on its side facing
    /// `edge` that overlap `target_boundary` transversally, walking
    /// only the two children abutting that side on each internal
    /// split. `prefix` is the path reaching this subtree from the root.
    fn get_leaves_on_edge(
        &self,
        edge: Direction,
        target_boundary: &Rectangle,
        prefix: Vec<Quadrant>,
    ) -> (out: Vec<LeafRec>)
        requires
            crate::geometry::rect_wf(self.boundary),
            crate::geometry::rect_wf(*target_boundary),
            wf(*self),
        ensures
            models_of(out@) == spec_edge_leaves(*self, edge, *target_boundary, prefix@),
        decreases *self,
    {
        let intersects = match edge {
            Direction::East | Direction::West => {
                self.boundary.origin.y < target_boundary.origin.y + target_boundary.height
                    && self.boundary.origin.y + self.boundary.height > target_boundary.origin.y
            },
            Direction::North | Direction::South => {
                self.boundary.origin.x < target_boundary.origin.x + target_boundary.width
                    && self.boundary.origin.x + self.boundary.width > target_boundary.origin.x
            },
        };
        if !intersects {
            let out: Vec<LeafRec> = Vec::new();
            proof {
                assert(models_of(out@) =~= spec_edge_leaves(
                    *self,
                    edge,
                    *target_boundary,
                    prefix@,
                ));
            }
            return out;
        }
        match &self.node {
            Node::Leaf { .. } => {
                let mut out: Vec<LeafRec> = Vec::new();
                out.push(LeafRec { path: prefix, boundary: self.boundary, level: self.level });
                proof {
                    assert(models_of(out@) =~= spec_edge_leaves(
                        *self,
                        edge,
                        *target_boundary,
                        prefix@,
                    ));
                }
                out
            },
            Node::Children { nw, ne, sw, se } => {
                let (c1, c2) = match edge {
                    Direction::North => (nw, ne),
                    Direction::East => (ne, se),
                    Direction::South => (sw, se),
                    Direction::West => (nw, sw),
                };
                let (q1, q2) = match edge {
                    Direction::North => (Quadrant::Nw, Quadrant::Ne),
                    Direction::East => (Quadrant::Ne, Quadrant::Se),
                    Direction::South => (Quadrant::Sw, Quadrant::Se),
                    Direction::West => (Quadrant::Nw, Quadrant::Sw),
                };
                let mut p1 = clone_path(&prefix);
                p1.push(q1);
                let mut p2 = prefix;
                p2.push(q2);
                let mut out = c1.get_leaves_on_edge(edge, target_boundary, p1);
                let mut o2 = c2.get_leaves_on_edge(edge, target_boundary, p2);
                out.append(&mut o2);
                proof {
                    assert(models_of(out@) =~= spec_edge_leaves(
                        *self,
                        edge,
                        *target_boundary,
                        prefix@,
                    ));
                }
                out
            },
        }
    }

    /// Finds the face neighbors of the cell `target_boundary` in one
    /// direction by exact top-down recursive descent, with no epsilon
    /// probes: descend into the child holding the target until the
    /// target's facing edge lies on this node's center line, then
    /// edge-walk the abutting subtree on the other side. `prefix` is
    /// the path reaching this subtree from the root.
    pub(crate) fn find_neighbors_recursive(
        &self,
        target_boundary: &Rectangle,
        direction: Direction,
        prefix: Vec<Quadrant>,
    ) -> (out: Vec<LeafRec>)
        requires
            crate::geometry::rect_wf(*target_boundary),
            wf(*self),
        ensures
            models_of(out@) == spec_neighbors(*self, *target_boundary, direction, prefix@),
        decreases *self,
    {
        match &self.node {
            Node::Leaf { .. } => {
                let out: Vec<LeafRec> = Vec::new();
                proof {
                    assert(models_of(out@) =~= spec_neighbors(
                        *self,
                        *target_boundary,
                        direction,
                        prefix@,
                    ));
                }
                out
            },
            Node::Children { nw, ne, sw, se } => {
                let center_x = self.boundary.origin.x + self.boundary.width / 2;
                let center_y = self.boundary.origin.y + self.boundary.height / 2;
                let target_is_in_north = target_boundary.origin.y >= center_y;
                let target_is_in_west = target_boundary.origin.x < center_x;
                let crossing = match direction {
                    Direction::North => !target_is_in_north && target_boundary.origin.y
                        + target_boundary.height == center_y,
                    Direction::South => target_is_in_north && target_boundary.origin.y == center_y,
                    Direction::East => target_is_in_west && target_boundary.origin.x
                        + target_boundary.width == center_x,
                    Direction::West => !target_is_in_west && target_boundary.origin.x == center_x,
                };
                if crossing {
                    let (child, q, ed) = match direction {
                        Direction::North => if target_is_in_west {
                            (nw, Quadrant::Nw, Direction::South)
                        } else {
                            (ne, Quadrant::Ne, Direction::South)
                        },
                        Direction::South => if target_is_in_west {
                            (sw, Quadrant::Sw, Direction::North)
                        } else {
                            (se, Quadrant::Se, Direction::North)
                        },
                        Direction::East => if target_is_in_north {
                            (ne, Quadrant::Ne, Direction::West)
                        } else {
                            (se, Quadrant::Se, Direction::West)
                        },
                        Direction::West => if target_is_in_north {
                            (nw, Quadrant::Nw, Direction::East)
                        } else {
                            (sw, Quadrant::Sw, Direction::East)
                        },
                    };
                    let mut p = prefix;
                    p.push(q);
                    child.get_leaves_on_edge(ed, target_boundary, p)
                } else {
                    let (child, q) = if target_is_in_north {
                        if target_is_in_west {
                            (nw, Quadrant::Nw)
                        } else {
                            (ne, Quadrant::Ne)
                        }
                    } else {
                        if target_is_in_west {
                            (sw, Quadrant::Sw)
                        } else {
                            (se, Quadrant::Se)
                        }
                    };
                    let mut p = prefix;
                    p.push(q);
                    child.find_neighbors_recursive(target_boundary, direction, p)
                }
            },
        }
    }

    /// Finds all leaves that share a face (a positive-length edge
    /// segment) with the cell `leaf_boundary`, searching each of the
    /// four directions from this node down.
    pub fn face_neighbors(&self, leaf_boundary: &Rectangle) -> (out: Vec<LeafRec>)
        requires
            crate::geometry::rect_wf(*leaf_boundary),
            wf(*self),
        ensures
            models_of(out@) == spec_neighbors(
                *self,
                *leaf_boundary,
                Direction::North,
                Seq::<Quadrant>::empty(),
            ) + spec_neighbors(*self, *leaf_boundary, Direction::East, Seq::<Quadrant>::empty())
                + spec_neighbors(
                *self,
                *leaf_boundary,
                Direction::South,
                Seq::<Quadrant>::empty(),
            ) + spec_neighbors(*self, *leaf_boundary, Direction::West, Seq::<Quadrant>::empty()),
    {
        let mut out = self.find_neighbors_recursive(leaf_boundary, Direction::North, Vec::new());
        let mut oe = self.find_neighbors_recursive(leaf_boundary, Direction::East, Vec::new());
        let mut os = self.find_neighbors_recursive(leaf_boundary, Direction::South, Vec::new());
        let mut ow = self.find_neighbors_recursive(leaf_boundary, Direction::West, Vec::new());
        out.append(&mut oe);
        out.append(&mut os);
        out.append(&mut ow);
        proof {
            assert(models_of(out@) =~= spec_neighbors(
                *self,
                *leaf_boundary,
                Direction::North,
                Seq::<Quadrant>::empty(),
            ) + spec_neighbors(*self, *leaf_boundary, Direction::East, Seq::<Quadrant>::empty())
                + spec_neighbors(
                *self,
                *leaf_boundary,
                Direction::South,
                Seq::<Quadrant>::empty(),
            ) + spec_neighbors(*self, *leaf_boundary, Direction::West, Seq::<Quadrant>::empty()));
        }
        out
    }

    /// Follows `path` from index `i` down and subdivides the leaf it
    /// ends at, if it ends at a leaf that is still below the depth
    /// cap; otherwise leaves the tree untouched. Used by the mutate
    /// phase of the balancing pass, one call per marked path.
    fn subdivide_at_path(&mut self, path: &Vec<Quadrant>, i: usize)
        requires
            wf(*old(self)),
            i <= path@.len(),
        ensures
            wf(*final(self)),
            points_in(*final(self)) == points_in(*old(self)),
            extends(*old(self), *final(self)),
            final(self).boundary == old(self).boundary,
            final(self).level == old(self).level,
            final(self).level_max == old(self).level_max,
            splittable_at(*old(self), path@.skip(i as int)) ==> potential(*final(self)) + 4
                == potential(*old(self)),
            splittable_at(*old(self), path@.skip(i as int)) ==> (subtree_at(
                *old(self),
                path@.skip(i as int),
            ) matches Some(s) && subtree_at(*final(self), path@.skip(i as int)) matches Some(ns)
                && crate::tree::subdivided(s, ns)),
            !splittable_at(*old(self), path@.skip(i as int)) ==> *final(self) == *old(self),
            forall|other: Seq<Quadrant>|
                #[trigger] diverges(path@.skip(i as int), other) ==> subtree_at(
                    *final(self),
                    other,
                ) == subtree_at(*old(self), other),
        decreases path@.len() - i,
    {
        if i == path.len() {
            proof {
                assert(path@.skip(i as int) =~= Seq::<Quadrant>::empty());
            }
            let splittable = match &self.node {
                Node::Leaf { .. } => self.level < self.level_max,
                Node::Children { .. } => false,
            };
            if splittable {
                self.subdivide();
            } else {
                proof {
                    lemma_extends_refl(*self);
                }
            }
        } else {
            let q = path[i];
            let ghost pre = *self;
            proof {
                assert(path@.skip(i as int) =~= seq![q] + path@.skip(i as int + 1));
            }
            match &mut self.node {
                Node::Leaf { .. } => {
                    proof {
                        lemma_extends_refl(*self);
                    }
                },
                Node::Children { nw, ne, sw, se } => {
                    match q {
                        Quadrant::Nw => {
                            proof {
                                lemma_subtree_step(pre, q, path@.skip(i as int + 1), **nw);
                            }
                            nw.subdivide_at_path(path, i + 1);
                            proof {
                                lemma_siblings_extend(pre, *self);
                                lemma_subtree_step(*self, q, path@.skip(i as int + 1), **nw);
                            }
                        },
                        Quadrant::Ne => {
                            proof {
                                lemma_subtree_step(pre, q, path@.skip(i as int + 1), **ne);
                            }
                            ne.subdivide_at_path(path, i + 1);
                            proof {
                                lemma_siblings_extend(pre, *self);
                                lemma_subtree_step(*self, q, path@.skip(i as int + 1), **ne);
                            }
                        },
                        Quadrant::Sw => {
                            proof {
                                lemma_subtree_step(pre, q, path@.skip(i as int + 1), **sw);
                            }
                            sw.subdivide_at_path(path, i + 1);
                            proof {
                                lemma_siblings_extend(pre, *self);
                                lemma_subtree_step(*self, q, path@.skip(i as int + 1), **sw);
                            }
                        },
                        Quadrant::Se => {
                            proof {
                                lemma_subtree_step(pre, q, path@.skip(i as int + 1), **se);
                            }
                            se.subdivide_at_path(path, i + 1);
                            proof {
                                lemma_siblings_extend(pre, *self);
                                lemma_subtree_step(*self, q, path@.skip(i as int + 1), **se);
                            }
                        },
                    }
                    proof {
                        assert forall|other: Seq<Quadrant>|
                            #[trigger] diverges(path@.skip(i as int), other) implies subtree_at(
                            *self,
                            other,
                        ) == subtree_at(pre, other) by {
                            if other.len() == 0 {
                                assert(false);
                            } else {
                                let qo = other[0];
                                let rest_o = other.skip(1);
                                assert(other =~= seq![qo] + rest_o);
                                match (pre.node, self.node) {
                                    (
                                        Node::Children { nw: p1, ne: p2, sw: p3, se: p4 },
                                        Node::Children { nw: c1, ne: c2, sw: c3, se: c4 },
                                    ) => {
                                        let pc = match qo {
                                            Quadrant::Nw => *p1,
                                            Quadrant::Ne => *p2,
                                            Quadrant::Sw => *p3,
                                            Quadrant::Se => *p4,
                                        };
                                        let cc = match qo {
                                            Quadrant::Nw => *c1,
                                            Quadrant::Ne => *c2,
                                            Quadrant::Sw => *c3,
                                            Quadrant::Se => *c4,
                                        };
                                        lemma_subtree_step(pre, qo, rest_o, pc);
                                        lemma_subtree_step(*self, qo, rest_o, cc);
                                        if qo == q {
                                            assert(diverges(path@.skip(i as int + 1), rest_o))
                                                by {
                                                let m = choose|m: int|
                                                    0 <= m < path@.skip(i as int).len() && m
                                                        < other.len() && path@.skip(i as int)[m]
                                                        != other[m];
                                                assert(m != 0);
                                                assert(path@.skip(i as int)[m] == path@.skip(
                                                    i as int + 1,
                                                )[m - 1]);
                                                assert(other[m] == rest_o[m - 1]);
                                            }
                                        } else {
                                            assert(pc == cc);
                                        }
                                    },
                                    _ => {},
                                }
                            }
                        }
                    }
                },
            }
        }
    }

    /// Performs one weak-balancing pass: collect every leaf, search
    /// its face neighbors over an unmodified snapshot of the tree,
    /// mark — by path, the stable node identity — every neighbor more
    /// than one level shallower than some leaf, and then subdivide the
    /// marked leaves in a second walk that starts only once the read
    /// phase is complete.
    ///
    /// Exactly the flagged leaves are subdivided: every flagged path
    /// roots a subdivision of the leaf that stood there, and every
    /// unflagged leaf is returned exactly as it was. When nothing is
    /// flagged the whole tree is returned exactly as it was.
    pub fn balance_pass_weakly(&mut self) -> (r: bool)
        requires
            wf(*old(self)),
        ensures
            wf(*final(self)),
            points_in(*final(self)) == points_in(*old(self)),
            final(self).boundary == old(self).boundary,
            final(self).level == old(self).level,
            final(self).level_max == old(self).level_max,
            r == has_violation(*old(self)),
            !r ==> *final(self) == *old(self),
            extends(*old(self), *final(self)),
            r ==> potential(*final(self)) < potential(*old(self)),
            forall|path: Seq<Quadrant>|
                #[trigger] flagged(*old(self), path) ==> (subtree_at(*old(self), path) matches Some(
                    s,
                ) && subtree_at(*final(self), path) matches Some(ns) && crate::tree::subdivided(
                    s,
                    ns,
                )),
            forall|path: Seq<Quadrant>|
                #[trigger] leaf_node_at(*old(self), path) && !flagged(*old(self), path)
                    ==> subtree_at(*final(self), path) == subtree_at(*old(self), path),
    {
        let leaves = self.get_all_leaves();
        let mut marks: Vec<Vec<Quadrant>> = Vec::new();
        let ghost t0 = *self;
        let mut i: usize = 0;
        while i < leaves.len()
            invariant
                wf(t0),
                *self == t0,
                i <= leaves.len(),
                models_of(leaves@) == root_leaves(t0),
                forall|k: int|
                    0 <= k < marks@.len() ==> splittable_at(t0, (#[trigger] marks@[k])@)
                        && flagged(t0, marks@[k]@),
                forall|k1: int, k2: int|
                    #![trigger marks@[k1], marks@[k2]]
                    0 <= k1 < k2 < marks@.len() ==> marks@[k1]@ != marks@[k2]@,
                forall|a: int, jj: int|
                    #[trigger] is_violation(t0, a, jj) && a < i ==> path_in(
                        marks@,
                        all_neighbors(t0, root_leaves(t0)[a].1)[jj].0,
                    ),
            decreases leaves.len() - i,
        {
            let leaf_boundary = leaves[i].boundary;
            let leaf_level = leaves[i].level;
            proof {
                assert(models_of(leaves@)[i as int] == (
                    leaves@[i as int].path@,
                    leaves@[i as int].boundary,
                    leaves@[i as int].level as int,
                ));
                lemma_leaves_sound(t0, Seq::<Quadrant>::empty(), i as int);
                let e = root_leaves(t0)[i as int];
                let rel = choose|rel: Seq<Quadrant>|
                    e.0 == Seq::<Quadrant>::empty() + rel && #[trigger] leaf_at(t0, rel, e.1, e.2);
                match subtree_at(t0, rel) {
                    Some(s) => {
                        crate::tree::lemma_subtree_wf(t0, rel, s);
                        assert(crate::geometry::rect_wf(leaf_boundary));
                        assert(leaf_level <= t0.level_max);
                    },
                    None => {},
                }
            }
            let nbrs = self.face_neighbors(&leaf_boundary);
            let ghost nmodels = all_neighbors(t0, leaf_boundary);
            let mut j: usize = 0;
            while j < nbrs.len()
                invariant
                    wf(t0),
                    *self == t0,
                    i < leaves.len(),
                    j <= nbrs.len(),
                    models_of(leaves@) == root_leaves(t0),
                    models_of(nbrs@) == nmodels,
                    nmodels == all_neighbors(t0, root_leaves(t0)[i as int].1),
                    leaf_boundary == root_leaves(t0)[i as int].1,
                    leaf_level as int == root_leaves(t0)[i as int].2,
                    leaf_level <= t0.level_max,
                    forall|k: int|
                        0 <= k < marks@.len() ==> splittable_at(t0, (#[trigger] marks@[k])@)
                            && flagged(t0, marks@[k]@),
                    forall|k1: int, k2: int|
                        #![trigger marks@[k1], marks@[k2]]
                        0 <= k1 < k2 < marks@.len() ==> marks@[k1]@ != marks@[k2]@,
                    forall|a: int, jj: int|
                        #[trigger] is_violation(t0, a, jj) && (a < i || (a == i && jj < j))
                            ==> path_in(marks@, all_neighbors(t0, root_leaves(t0)[a].1)[jj].0),
                decreases nbrs.len() - j,
            {
                let nlevel = nbrs[j].level;
                proof {
                    assert(models_of(nbrs@)[j as int] == (
                        nbrs@[j as int].path@,
                        nbrs@[j as int].boundary,
                        nbrs@[j as int].level as int,
                    ));
                    assert(models_of(nbrs@).len() == nbrs@.len());
                    assert(nmodels == all_neighbors(t0, leaf_boundary));
                    assert((j as int) < all_neighbors(t0, leaf_boundary).len());
                    assert(all_neighbors(t0, leaf_boundary)[j as int].2 == nlevel as int);
                    assert(all_neighbors(t0, leaf_boundary)[j as int].0 == nbrs@[j as int].path@);
                }
                if leaf_level >= 1 && nlevel < leaf_level - 1 {
                    proof {
                        assert(leaf_level as int > nlevel as int + 1);
                        assert(is_violation(t0, i as int, j as int));
                        lemma_all_neighbors_splittable(t0, leaf_boundary, j as int, leaf_level as int);
                        assert(splittable_at(t0, nbrs@[j as int].path@));
                        assert(flagged_by(t0, nbrs@[j as int].path@, i as int, j as int));
                        assert(flagged(t0, nbrs@[j as int].path@));
                    }
                    if !contains_path(&marks, &nbrs[j].path) {
                        let ghost before = marks@;
                        let copied = clone_path(&nbrs[j].path);
                        marks.push(copied);
                        proof {
                            assert(marks@[before.len() as int]@ == nbrs@[j as int].path@);
                            assert forall|a: int, jj: int|
                                #[trigger] is_violation(t0, a, jj) && (a < i || (a == i && jj < j
                                    + 1)) implies path_in(
                                marks@,
                                all_neighbors(t0, root_leaves(t0)[a].1)[jj].0,
                            ) by {
                                if a < i || (a == i && jj < j) {
                                    lemma_path_in_push(
                                        before,
                                        copied,
                                        all_neighbors(t0, root_leaves(t0)[a].1)[jj].0,
                                    );
                                } else {
                                    assert(marks@[before.len() as int]@ == all_neighbors(
                                        t0,
                                        root_leaves(t0)[a].1,
                                    )[jj].0);
                                }
                            }
                        }
                    } else {
                        proof {
                            assert(path_in(marks@, nbrs@[j as int].path@));
                        }
                    }
                } else {
                    proof {
                        assert(!is_violation(t0, i as int, j as int));
                    }
                }
                j += 1;
            }
            i += 1;
        }
        proof {
            assert(models_of(leaves@).len() == leaves@.len());
        }
        if marks.len() == 0 {
            proof {
                assert forall|a: int, jj: int| !#[trigger] is_violation(t0, a, jj) by {
                    if is_violation(t0, a, jj) {
                        assert(path_in(marks@, all_neighbors(t0, root_leaves(t0)[a].1)[jj].0));
                    }
                }
                assert(!has_violation(t0));
                assert forall|path: Seq<Quadrant>| !#[trigger] flagged(t0, path) by {
                    if flagged(t0, path) {
                        let (a, jj) = choose|a: int, jj: int| flagged_by(t0, path, a, jj);
                        assert(is_violation(t0, a, jj));
                    }
                }
                lemma_extends_refl(t0);
            }
            return false;
        }
        proof {
            assert(flagged(t0, marks@[0]@));
            let (a, jj) = choose|a: int, jj: int| flagged_by(t0, marks@[0]@, a, jj);
            assert(is_violation(t0, a, jj));
            assert(has_violation(t0));
            lemma_extends_refl(t0);
        }
        let ghost pstart = potential(t0);
        let mut k: usize = 0;
        while k < marks.len()
            invariant
                wf(*self),
                points_in(*self) == points_in(t0),
                self.boundary == t0.boundary,
                self.level == t0.level,
                self.level_max == t0.level_max,
                k <= marks.len(),
                marks@.len() > 0,
                pstart == potential(t0),
                extends(t0, *self),
                forall|m: int|
                    0 <= m < marks@.len() ==> splittable_at(t0, (#[trigger] marks@[m])@)
                        && flagged(t0, marks@[m]@),
                forall|k1: int, k2: int|
                    #![trigger marks@[k1], marks@[k2]]
                    0 <= k1 < k2 < marks@.len() ==> marks@[k1]@ != marks@[k2]@,
                forall|a: int, jj: int|
                    #[trigger] is_violation(t0, a, jj) ==> path_in(
                        marks@,
                        all_neighbors(t0, root_leaves(t0)[a].1)[jj].0,
                    ),
                forall|m: int|
                    0 <= m < k ==> (subtree_at(t0, (#[trigger] marks@[m])@) matches Some(s)
                        && subtree_at(*self, marks@[m]@) matches Some(ns)
                        && crate::tree::subdivided(s, ns)),
                forall|m: int|
                    k <= m < marks@.len() ==> subtree_at(*self, (#[trigger] marks@[m])@)
                        == subtree_at(t0, marks@[m]@),
                forall|path: Seq<Quadrant>|
                    #[trigger] leaf_node_at(t0, path) && !path_in(marks@, path) ==> subtree_at(
                        *self,
                        path,
                    ) == subtree_at(t0, path),
                k == 0 ==> *self == t0,
                k > 0 ==> potential(*self) < pstart,
            decreases marks.len() - k,
        {
            let ghost pre = *self;
            proof {
                assert(marks@[k as int]@.skip(0) =~= marks@[k as int]@);
                assert(subtree_at(pre, marks@[k as int]@) == subtree_at(t0, marks@[k as int]@));
                assert(splittable_at(pre, marks@[k as int]@));
            }
            self.subdivide_at_path(&marks[k], 0);
            proof {
                lemma_extends_trans(t0, pre, *self);
                if k == 0 {
                    assert(potential(*self) + 4 == pstart);
                }
                // Paths other than the processed one diverge from it,
                // so the frame of the subdivision leaves them alone.
                assert forall|m: int| 0 <= m < k + 1 implies (subtree_at(
                    t0,
                    (#[trigger] marks@[m])@,
                ) matches Some(s) && subtree_at(*self, marks@[m]@) matches Some(ns)
                    && crate::tree::subdivided(s, ns)) by {
                    if m < k {
                        lemma_distinct_leaf_paths_diverge(t0, marks@[k as int]@, marks@[m]@);
                        assert(diverges(marks@[k as int]@.skip(0), marks@[m]@));
                    }
                }
                assert forall|m: int| k + 1 <= m < marks@.len() implies subtree_at(
                    *self,
                    (#[trigger] marks@[m])@,
                ) == subtree_at(t0, marks@[m]@) by {
                    lemma_distinct_leaf_paths_diverge(t0, marks@[k as int]@, marks@[m]@);
                    assert(diverges(marks@[k as int]@.skip(0), marks@[m]@));
                }
                assert forall|path: Seq<Quadrant>|
                    #[trigger] leaf_node_at(t0, path) && !path_in(marks@, path) implies subtree_at(
                    *self,
                    path,
                ) == subtree_at(t0, path) by {
                    if path == marks@[k as int]@ {
                        assert(path_in(marks@, path));
                    } else {
                        lemma_distinct_leaf_paths_diverge(t0, marks@[k as int]@, path);
                        assert(diverges(marks@[k as int]@.skip(0), path));
                    }
                }
            }
            k += 1;
        }
        proof {
            assert forall|path: Seq<Quadrant>| #[trigger] flagged(t0, path) implies (subtree_at(
                t0,
                path,
            ) matches Some(s) && subtree_at(*self, path) matches Some(ns)
                && crate::tree::subdivided(s, ns)) by {
                let (a, jj) = choose|a: int, jj: int| flagged_by(t0, path, a, jj);
                assert(is_violation(t0, a, jj));
                assert(path_in(marks@, path));
                let m = choose|m: int| 0 <= m < marks@.len() && (#[trigger] marks@[m])@ == path;
            }
            assert forall|path: Seq<Quadrant>|
                #[trigger] leaf_node_at(t0, path) && !flagged(t0, path) implies subtree_at(
                *self,
                path,
            ) == subtree_at(t0, path) by {
                if path_in(marks@, path) {
                    let m = choose|m: int| 0 <= m < marks@.len() && (#[trigger] marks@[m])@ == path;
                    assert(flagged(t0, marks@[m]@));
                }
            }
        }
        true
    }

    /// Balances the quadtree to the weak (2:1) condition: repeats the
    /// balancing pass until a pass reports no change. Termination is
    /// guaranteed because every pass that changes anything strictly
    /// lowers the tree's growth potential.
    ///
    /// Law: on return no weak-balance violation remains, so running
    /// `weak_balance` again performs zero subdivisions; and on a tree
    /// that already has no violation, the tree is returned exactly as
    /// it was. Each pass subdivides exactly the flagged leaves, and by
    /// `lemma_not_adjacent_not_flagged` a leaf touching deeper cells at
    /// a corner alone is never flagged, so corner contact never causes
    /// refinement cascades.
    pub fn weak_balance(&mut self)
        requires
            wf(*old(self)),
        ensures
            wf(*final(self)),
            points_in(*final(self)) == points_in(*old(self)),
            final(self).boundary == old(self).boundary,
            final(self).level == old(self).level,
            final(self).level_max == old(self).level_max,
            !has_violation(*final(self)),
            !has_violation(*old(self)) ==> *final(self) == *old(self),
            extends(*old(self), *final(self)),
    {
        let mut changed = self.balance_pass_weakly();
        while changed
            invariant
                wf(*self),
                points_in(*self) == points_in(*old(self)),
                self.boundary == old(self).boundary,
                self.level == old(self).level,
                self.level_max == old(self).level_max,
                !changed ==> !has_violation(*self),
                !has_violation(*old(self)) ==> (*self == *old(self) && !changed),
                extends(*old(self), *self),
            decreases potential(*self), (if changed { 1int } else { 0int }),
        {
            let ghost mid = *self;
            changed = self.balance_pass_weakly();
            proof {
                lemma_extends_trans(*old(self), mid, *self);
            }
        }
    }
}

/// A neighbor reported against a leaf deeper by two or more levels is
/// itself a leaf strictly below the depth cap, so the mutate phase may
/// subdivide it.
proof fn lemma_all_neighbors_splittable(t: Quadtree, b: Rectangle, j: int, leaf_level: int)
    requires
        wf(t),
        0 <= j < all_neighbors(t, b).len(),
        leaf_level <= t.level_max,
        leaf_level > all_neighbors(t, b)[j].2 + 1,
    ensures
        splittable_at(t, all_neighbors(t, b)[j].0),
{
    let e = all_neighbors(t, b)[j];
    let sn = spec_neighbors(t, b, Direction::North, Seq::<Quadrant>::empty());
    let se_ = spec_neighbors(t, b, Direction::East, Seq::<Quadrant>::empty());
    let ss = spec_neighbors(t, b, Direction::South, Seq::<Quadrant>::empty());
    let sw_ = spec_neighbors(t, b, Direction::West, Seq::<Quadrant>::empty());
    if j < sn.len() {
        lemma_neighbors_sound(t, b, Direction::North, Seq::<Quadrant>::empty(), j);
    } else if j < sn.len() + se_.len() {
        lemma_neighbors_sound(t, b, Direction::East, Seq::<Quadrant>::empty(), j - sn.len());
    } else if j < sn.len() + se_.len() + ss.len() {
        lemma_neighbors_sound(
            t,
            b,
            Direction::South,
            Seq::<Quadrant>::empty(),
            j - sn.len() - se_.len(),
        );
    } else {
        lemma_neighbors_sound(
            t,
            b,
            Direction::West,
            Seq::<Quadrant>::empty(),
            j - sn.len() - se_.len() - ss.len(),
        );
    }
    let rel = choose|rel: Seq<Quadrant>|
        e.0 == Seq::<Quadrant>::empty() + rel && #[trigger] leaf_at(t, rel, e.1, e.2);
    assert(Seq::<Quadrant>::empty() + rel =~= rel);
    match subtree_at(t, rel) {
        Some(s) => {
            crate::tree::lemma_subtree_wf(t, rel, s);
            assert(s.level < s.level_max);
        },
        None => {},
    }
}

/// Every reported neighbor of the cell `b` names an actual leaf of the
/// tree and is genuinely face-adjacent to `b` in some direction.
proof fn lemma_all_neighbors_entry(t: Quadtree, b: Rectangle, j: int)
    requires
        wf(t),
        0 <= j < all_neighbors(t, b).len(),
    ensures
        ({
            let e = all_neighbors(t, b)[j];
            &&& exists|rel: Seq<Quadrant>|
                e.0 == Seq::<Quadrant>::empty() + rel && #[trigger] leaf_at(t, rel, e.1, e.2)
            &&& exists|d: Direction| face_adjacent(b, e.1, d)
        }),
{
    let sn = spec_neighbors(t, b, Direction::North, Seq::<Quadrant>::empty());
    let se_ = spec_neighbors(t, b, Direction::East, Seq::<Quadrant>::empty());
    let ss = spec_neighbors(t, b, Direction::South, Seq::<Quadrant>::empty());
    let sw_ = spec_neighbors(t, b, Direction::West, Seq::<Quadrant>::empty());
    let e = all_neighbors(t, b)[j];
    if j < sn.len() {
        lemma_neighbors_sound(t, b, Direction::North, Seq::<Quadrant>::empty(), j);
        lemma_neighbors_face_adjacent(t, b, Direction::North, Seq::<Quadrant>::empty(), j);
        assert(e == sn[j]);
        assert(face_adjacent(b, e.1, Direction::North));
    } else if j < sn.len() + se_.len() {
        lemma_neighbors_sound(t, b, Direction::East, Seq::<Quadrant>::empty(), j - sn.len());
        lemma_neighbors_face_adjacent(
            t,
            b,
            Direction::East,
            Seq::<Quadrant>::empty(),
            j - sn.len(),
        );
        assert(e == se_[j - sn.len()]);
        assert(face_adjacent(b, e.1, Direction::East));
    } else if j < sn.len() + se_.len() + ss.len() {
        lemma_neighbors_sound(
            t,
            b,
            Direction::South,
            Seq::<Quadrant>::empty(),
            j - sn.len() - se_.len(),
        );
        lemma_neighbors_face_adjacent(
            t,
            b,
            Direction::South,
            Seq::<Quadrant>::empty(),
            j - sn.len() - se_.len(),
        );
        assert(e == ss[j - sn.len() - se_.len()]);
        assert(face_adjacent(b, e.1, Direction::South));
    } else {
        lemma_neighbors_sound(
            t,
            b,
            Direction::West,
            Seq::<Quadrant>::empty(),
            j - sn.len() - se_.len() - ss.len(),
        );
        lemma_neighbors_face_adjacent(
            t,
            b,
            Direction::West,
            Seq::<Quadrant>::empty(),
            j - sn.len() - se_.len() - ss.len(),
        );
        assert(e == sw_[j - sn.len() - se_.len() - ss.len()]);
        assert(face_adjacent(b, e.1, Direction::West));
    }
}

/// Law (corner exclusion, per pass): a leaf that shares a positive-
/// length edge segment with no leaf more than one level deeper is
/// never flagged, so — by the balancing pass's own contract — the pass
/// leaves it exactly as it was. Contact at a corner alone therefore
/// never causes refinement.
pub proof fn lemma_not_adjacent_not_flagged(t: Quadtree, path: Seq<Quadrant>, b: Rectangle, l: int)
    requires
        wf(t),
        leaf_at(t, path, b, l),
        forall|pa: Seq<Quadrant>, ba: Rectangle, la: int, d: Direction|
            #![trigger leaf_at(t, pa, ba, la), face_adjacent(ba, b, d)]
            leaf_at(t, pa, ba, la) && face_adjacent(ba, b, d) ==> la <= l + 1,
    ensures
        !flagged(t, path),
{
    if flagged(t, path) {
        let (i, j) = choose|i: int, j: int| flagged_by(t, path, i, j);
        assert(is_violation(t, i, j));
        let lb = root_leaves(t)[i].1;
        let li = root_leaves(t)[i].2;
        let e = all_neighbors(t, lb)[j];
        assert(e.0 == path);
        lemma_all_neighbors_entry(t, lb, j);
        let rel = choose|rel: Seq<Quadrant>|
            e.0 == Seq::<Quadrant>::empty() + rel && #[trigger] leaf_at(t, rel, e.1, e.2);
        assert(Seq::<Quadrant>::empty() + rel =~= rel);
        assert(leaf_at(t, path, e.1, e.2));
        assert(e.1 == b && e.2 == l);
        lemma_leaves_sound(t, Seq::<Quadrant>::empty(), i);
        let rel_i = choose|rel_i: Seq<Quadrant>|
            root_leaves(t)[i].0 == Seq::<Quadrant>::empty() + rel_i && #[trigger] leaf_at(
                t,
                rel_i,
                lb,
                li,
            );
        let d = choose|d: Direction| face_adjacent(lb, e.1, d);
        assert(leaf_at(t, rel_i, lb, li) && face_adjacent(lb, b, d));
        assert(li <= l + 1);
        assert(false);
    }
}

} // verus!
