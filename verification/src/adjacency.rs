//! The geometric reading of weak balance: on a dyadically sized grid,
//! the face-neighbor search finds every genuinely face-adjacent leaf,
//! so a tree in which no balancing violation remains satisfies the 2:1
//! level bound between any two leaves that share a positive-length
//! edge segment.

use vstd::prelude::*;

use crate::balance::{
    all_neighbors, edge_overlaps, face_adjacent, has_violation, is_violation, leaf_at, root_leaves,
    spec_edge_leaves, spec_leaves, spec_neighbors,
};
use crate::geometry::{quadrant_rect, rect_wf, spec_center, Direction, Quadrant, Rectangle};
use crate::tree::{lemma_subtree_step, subtree_at, wf, Node, Quadtree};

verus! {

/// Two to the power `k`.
pub open spec fn two_to(k: nat) -> nat
    decreases k,
{
    if k == 0 {
        1
    } else {
        2 * two_to((k - 1) as nat)
    }
}

/// Every power of two is positive.
pub proof fn lemma_two_to_pos(k: nat)
    ensures
        two_to(k) >= 1,
    decreases k,
{
    if k > 0 {
        lemma_two_to_pos((k - 1) as nat);
    }
}

/// The extents of `b` are positive multiples of `2^k`: the cell can be
/// halved exactly `k` more times without leaving the integer grid.
pub open spec fn sized_for(b: Rectangle, k: nat) -> bool {
    exists|m: int, n: int|
        1 <= m && 1 <= n && #[trigger] grid_extents(b, k, m, n)
}

/// The extents of `b` are `m * 2^k` by `n * 2^k`.
pub open spec fn grid_extents(b: Rectangle, k: nat, m: int, n: int) -> bool {
    b.width == m * two_to(k) && b.height == n * two_to(k)
}

/// `inner` lies within `outer`.
pub open spec fn rect_inside(inner: Rectangle, outer: Rectangle) -> bool {
    &&& outer.origin.x <= inner.origin.x
    &&& inner.origin.x + inner.width <= outer.origin.x + outer.width
    &&& outer.origin.y <= inner.origin.y
    &&& inner.origin.y + inner.height <= outer.origin.y + outer.height
}

/// On a dyadically sized cell the two halves of each extent are equal
/// and positive, and each quadrant is dyadically sized one step down.
pub proof fn lemma_sized_child(b: Rectangle, k: nat, q: Quadrant)
    requires
        rect_wf(b),
        1 <= k,
        sized_for(b, k),
    ensures
        sized_for(quadrant_rect(b, q), (k - 1) as nat),
        quadrant_rect(b, q).width == b.width / 2,
        quadrant_rect(b, q).height == b.height / 2,
        b.width / 2 == b.width - b.width / 2,
        b.height / 2 == b.height - b.height / 2,
        b.width / 2 >= two_to((k - 1) as nat),
        b.height / 2 >= two_to((k - 1) as nat),
{
    let (mm, nn) = choose|m: int, n: int| 1 <= m && 1 <= n && #[trigger] grid_extents(b, k, m, n);
    lemma_two_to_pos((k - 1) as nat);
    let p = two_to((k - 1) as nat) as int;
    assert(two_to(k) == 2 * p);
    assert(b.width == (mm * p) * 2) by (nonlinear_arith)
        requires
            b.width == mm * (2 * p),
    ;
    assert(b.height == (nn * p) * 2) by (nonlinear_arith)
        requires
            b.height == nn * (2 * p),
    ;
    assert(b.width / 2 == mm * p);
    assert(b.height / 2 == nn * p);
    assert(mm * p >= 1 * p) by (nonlinear_arith)
        requires
            1 <= mm,
            0 < p,
    ;
    assert(nn * p >= 1 * p) by (nonlinear_arith)
        requires
            1 <= nn,
            0 < p,
    ;
    assert(grid_extents(quadrant_rect(b, q), (k - 1) as nat, mm, nn));
}

/// Each quadrant of a well-formed rectangle lies within it.
pub proof fn lemma_quadrant_inside(b: Rectangle, q: Quadrant)
    requires
        rect_wf(b),
    ensures
        rect_inside(quadrant_rect(b, q), b),
{
}

/// A leaf of a well-formed, dyadically sized tree lies within the
/// tree's boundary, is itself dyadically sized for its remaining depth,
/// and its level exceeds the tree's by the length of its path.
pub proof fn lemma_leaf_inside(t: Quadtree, path: Seq<Quadrant>, b: Rectangle, l: int)
    requires
        wf(t),
        sized_for(t.boundary, (t.level_max - t.level) as nat),
        leaf_at(t, path, b, l),
    ensures
        rect_inside(b, t.boundary),
        sized_for(b, (t.level_max - l) as nat),
        l == t.level + path.len(),
        t.level <= l <= t.level_max,
    decreases path.len(),
{
    if path.len() == 0 {
        assert(subtree_at(t, path) == Some(t));
    } else {
        match t.node {
            Node::Leaf { .. } => {},
            Node::Children { nw, ne, sw, se } => {
                let q = path[0];
                let c = match q {
                    Quadrant::Nw => *nw,
                    Quadrant::Ne => *ne,
                    Quadrant::Sw => *sw,
                    Quadrant::Se => *se,
                };
                let rest = path.skip(1);
                assert(path =~= seq![q] + rest);
                lemma_subtree_step(t, q, rest, c);
                lemma_sized_child(t.boundary, (t.level_max - t.level) as nat, q);
                lemma_quadrant_inside(t.boundary, q);
                lemma_leaf_inside(c, rest, b, l);
            },
        }
    }
}

/// Completeness of the leaf listing: every leaf of the tree appears in
/// `spec_leaves`, with its boundary and level.
pub proof fn lemma_leaves_complete(
    t: Quadtree,
    prefix: Seq<Quadrant>,
    path: Seq<Quadrant>,
    b: Rectangle,
    l: int,
)
    requires
        leaf_at(t, path, b, l),
    ensures
        exists|i: int|
            0 <= i < spec_leaves(t, prefix).len() && (#[trigger] spec_leaves(t, prefix)[i]).1 == b
                && spec_leaves(t, prefix)[i].2 == l,
    decreases path.len(),
{
    if path.len() == 0 {
        assert(subtree_at(t, path) == Some(t));
        assert(spec_leaves(t, prefix)[0].1 == b);
    } else {
        match t.node {
            Node::Leaf { .. } => {},
            Node::Children { nw, ne, sw, se } => {
                let q = path[0];
                let c = match q {
                    Quadrant::Nw => *nw,
                    Quadrant::Ne => *ne,
                    Quadrant::Sw => *sw,
                    Quadrant::Se => *se,
                };
                let rest = path.skip(1);
                assert(path =~= seq![q] + rest);
                lemma_subtree_step(t, q, rest, c);
                lemma_leaves_complete(c, prefix.push(q), rest, b, l);
                let snw = spec_leaves(*nw, prefix.push(Quadrant::Nw));
                let sne = spec_leaves(*ne, prefix.push(Quadrant::Ne));
                let ssw = spec_leaves(*sw, prefix.push(Quadrant::Sw));
                let sse = spec_leaves(*se, prefix.push(Quadrant::Se));
                let sub = spec_leaves(c, prefix.push(q));
                let i = choose|i: int|
                    0 <= i < sub.len() && (#[trigger] sub[i]).1 == b && sub[i].2 == l;
                let offset: int = match q {
                    Quadrant::Nw => 0,
                    Quadrant::Ne => snw.len() as int,
                    Quadrant::Sw => snw.len() as int + sne.len(),
                    Quadrant::Se => snw.len() as int + sne.len() + ssw.len(),
                };
                assert(spec_leaves(t, prefix)[offset + i].1 == b);
            },
        }
    }
}

/// Completeness of the edge walk: every leaf of the subtree that keeps
/// to the walked side (its `edge`-side coordinate is the subtree's) and
/// overlaps the target transversally with positive length is reported.
pub proof fn lemma_edge_walk_complete(
    t: Quadtree,
    edge: Direction,
    target: Rectangle,
    prefix: Seq<Quadrant>,
    path: Seq<Quadrant>,
    b: Rectangle,
    l: int,
)
    requires
        wf(t),
        sized_for(t.boundary, (t.level_max - t.level) as nat),
        leaf_at(t, path, b, l),
        crate::balance::side_coord(b, edge) == crate::balance::side_coord(t.boundary, edge),
        edge_overlaps(b, edge, target),
    ensures
        exists|j: int|
            0 <= j < spec_edge_leaves(t, edge, target, prefix).len() && (
            #[trigger] spec_edge_leaves(t, edge, target, prefix)[j]).1 == b && spec_edge_leaves(
                t,
                edge,
                target,
                prefix,
            )[j].2 == l,
    decreases t,
{
    lemma_leaf_inside(t, path, b, l);
    assert(edge_overlaps(t.boundary, edge, target));
    if path.len() == 0 {
        assert(subtree_at(t, path) == Some(t));
        assert(spec_edge_leaves(t, edge, target, prefix)[0].1 == b);
    } else {
        match t.node {
            Node::Leaf { .. } => {},
            Node::Children { nw, ne, sw, se } => {
                let q = path[0];
                let c = match q {
                    Quadrant::Nw => *nw,
                    Quadrant::Ne => *ne,
                    Quadrant::Sw => *sw,
                    Quadrant::Se => *se,
                };
                let rest = path.skip(1);
                assert(path =~= seq![q] + rest);
                lemma_subtree_step(t, q, rest, c);
                let k = (t.level_max - t.level) as nat;
                lemma_sized_child(t.boundary, k, q);
                lemma_two_to_pos((k - 1) as nat);
                lemma_leaf_inside(c, rest, b, l);
                // The leaf keeps to the walked side, so its quadrant is
                // one of the two children the walk visits.
                let (q1, q2) = match edge {
                    Direction::North => (Quadrant::Nw, Quadrant::Ne),
                    Direction::East => (Quadrant::Ne, Quadrant::Se),
                    Direction::South => (Quadrant::Sw, Quadrant::Se),
                    Direction::West => (Quadrant::Nw, Quadrant::Sw),
                };
                assert(q == q1 || q == q2);
                lemma_edge_walk_complete(c, edge, target, prefix.push(q), rest, b, l);
                let s1 = spec_edge_leaves(
                    (match q1 {
                        Quadrant::Nw => *nw,
                        Quadrant::Ne => *ne,
                        Quadrant::Sw => *sw,
                        Quadrant::Se => *se,
                    }),
                    edge,
                    target,
                    prefix.push(q1),
                );
                let sub = spec_edge_leaves(c, edge, target, prefix.push(q));
                let j = choose|j: int|
                    0 <= j < sub.len() && (#[trigger] sub[j]).1 == b && sub[j].2 == l;
                let offset: int = if q == q1 {
                    0
                } else {
                    s1.len() as int
                };
                assert(spec_edge_leaves(t, edge, target, prefix)[offset + j].1 == b);
            },
        }
    }
}

/// A dyadically sized rectangle has positive extents.
pub proof fn lemma_sized_pos(b: Rectangle, k: nat)
    requires
        sized_for(b, k),
    ensures
        b.width >= 1,
        b.height >= 1,
{
    let (mm, nn) = choose|m: int, n: int| 1 <= m && 1 <= n && #[trigger] grid_extents(b, k, m, n);
    lemma_two_to_pos(k);
    let p = two_to(k) as int;
    assert(mm * p >= 1 * p) by (nonlinear_arith)
        requires
            1 <= mm,
            0 < p,
    ;
    assert(nn * p >= 1 * p) by (nonlinear_arith)
        requires
            1 <= nn,
            0 < p,
    ;
}

/// Completeness of the face-neighbor search on a dyadically sized
/// grid: for any two leaves that are genuinely face-adjacent, the
/// search from the first in the direction of the second reports the
/// second, with its boundary and level.
pub proof fn lemma_search_complete(
    t: Quadtree,
    prefix: Seq<Quadrant>,
    pa: Seq<Quadrant>,
    ba: Rectangle,
    la: int,
    pb: Seq<Quadrant>,
    bb: Rectangle,
    lb: int,
    d: Direction,
)
    requires
        wf(t),
        sized_for(t.boundary, (t.level_max - t.level) as nat),
        leaf_at(t, pa, ba, la),
        leaf_at(t, pb, bb, lb),
        face_adjacent(ba, bb, d),
    ensures
        exists|j: int|
            0 <= j < spec_neighbors(t, ba, d, prefix).len() && (#[trigger] spec_neighbors(
                t,
                ba,
                d,
                prefix,
            )[j]).1 == bb && spec_neighbors(t, ba, d, prefix)[j].2 == lb,
    decreases t,
{
    lemma_leaf_inside(t, pa, ba, la);
    lemma_leaf_inside(t, pb, bb, lb);
    lemma_sized_pos(ba, (t.level_max - la) as nat);
    lemma_sized_pos(bb, (t.level_max - lb) as nat);
    match t.node {
        Node::Leaf { .. } => {
            // Both paths are empty, so both leaves are this node, and a
            // cell of positive extent is never face-adjacent to itself.
            assert(pa.len() == 0 && pb.len() == 0);
            assert(subtree_at(t, pa) == Some(t));
            assert(subtree_at(t, pb) == Some(t));
            assert(ba == t.boundary);
            assert(bb == t.boundary);
            assert(ba.width >= 1 && ba.height >= 1);
            assert(false);
        },
        Node::Children { nw, ne, sw, se } => {
            assert(pa.len() > 0 && pb.len() > 0);
            let k = (t.level_max - t.level) as nat;
            let c = spec_center(t.boundary);
            let qa = pa[0];
            let qb = pb[0];
            let ca = match qa {
                Quadrant::Nw => *nw,
                Quadrant::Ne => *ne,
                Quadrant::Sw => *sw,
                Quadrant::Se => *se,
            };
            let cb = match qb {
                Quadrant::Nw => *nw,
                Quadrant::Ne => *ne,
                Quadrant::Sw => *sw,
                Quadrant::Se => *se,
            };
            let rest_a = pa.skip(1);
            let rest_b = pb.skip(1);
            assert(pa =~= seq![qa] + rest_a);
            assert(pb =~= seq![qb] + rest_b);
            lemma_subtree_step(t, qa, rest_a, ca);
            lemma_subtree_step(t, qb, rest_b, cb);
            lemma_sized_child(t.boundary, k, qa);
            lemma_sized_child(t.boundary, k, qb);
            lemma_two_to_pos((k - 1) as nat);
            lemma_leaf_inside(ca, rest_a, ba, la);
            lemma_leaf_inside(cb, rest_b, bb, lb);
            let tn = ba.origin.y >= c.y;
            let tw = ba.origin.x < c.x;
            // The origin comparisons identify the quadrant each leaf
            // lies in, because every cell has positive extents and lies
            // wholly within one quadrant.
            assert(tn <==> (qa == Quadrant::Nw || qa == Quadrant::Ne));
            assert(tw <==> (qa == Quadrant::Nw || qa == Quadrant::Sw));
            let bn = qb == Quadrant::Nw || qb == Quadrant::Ne;
            let bw = qb == Quadrant::Nw || qb == Quadrant::Sw;
            let crossing = match d {
                Direction::North => !tn && ba.origin.y + ba.height == c.y,
                Direction::South => tn && ba.origin.y == c.y,
                Direction::East => tw && ba.origin.x + ba.width == c.x,
                Direction::West => !tw && ba.origin.x == c.x,
            };
            // In the horizontal directions the neighbor shares a's
            // vertical half; in the vertical ones its horizontal half.
            match d {
                Direction::East | Direction::West => {
                    assert(bn <==> tn);
                },
                Direction::North | Direction::South => {
                    assert(bw <==> tw);
                },
            }
            if crossing {
                let (q2, ed) = match d {
                    Direction::North => (
                        if tw {
                            Quadrant::Nw
                        } else {
                            Quadrant::Ne
                        },
                        Direction::South,
                    ),
                    Direction::South => (
                        if tw {
                            Quadrant::Sw
                        } else {
                            Quadrant::Se
                        },
                        Direction::North,
                    ),
                    Direction::East => (
                        if tn {
                            Quadrant::Ne
                        } else {
                            Quadrant::Se
                        },
                        Direction::West,
                    ),
                    Direction::West => (
                        if tn {
                            Quadrant::Nw
                        } else {
                            Quadrant::Sw
                        },
                        Direction::East,
                    ),
                };
                // The neighbor lies just across the center line, in the
                // abutting quadrant the walk visits.
                assert(qb == q2);
                assert(crate::balance::side_coord(bb, ed) == crate::balance::side_coord(
                    cb.boundary,
                    ed,
                ));
                lemma_edge_walk_complete(cb, ed, ba, prefix.push(q2), rest_b, bb, lb);
                assert(spec_neighbors(t, ba, d, prefix) == spec_edge_leaves(
                    cb,
                    ed,
                    ba,
                    prefix.push(q2),
                ));
            } else {
                // Both leaves lie in the same quadrant; descend.
                assert(qb == qa);
                lemma_search_complete(
                    ca,
                    prefix.push(qa),
                    rest_a,
                    ba,
                    la,
                    rest_b,
                    bb,
                    lb,
                    d,
                );
                assert(spec_neighbors(t, ba, d, prefix) == spec_neighbors(
                    ca,
                    ba,
                    d,
                    prefix.push(qa),
                ));
            }
        },
    }
}

/// One side of the invariant: with no violation left, a leaf is at
/// most one level deeper than any leaf genuinely face-adjacent to it.
proof fn lemma_face_bound_one_sided(
    t: Quadtree,
    pa: Seq<Quadrant>,
    ba: Rectangle,
    la: int,
    pb: Seq<Quadrant>,
    bb: Rectangle,
    lb: int,
    d: Direction,
)
    requires
        wf(t),
        sized_for(t.boundary, (t.level_max - t.level) as nat),
        !has_violation(t),
        leaf_at(t, pa, ba, la),
        leaf_at(t, pb, bb, lb),
        face_adjacent(ba, bb, d),
    ensures
        la <= lb + 1,
{
    if la > lb + 1 {
        lemma_leaves_complete(t, Seq::<Quadrant>::empty(), pa, ba, la);
        let i = choose|i: int|
            0 <= i < root_leaves(t).len() && (#[trigger] root_leaves(t)[i]).1 == ba
                && root_leaves(t)[i].2 == la;
        lemma_search_complete(t, Seq::<Quadrant>::empty(), pa, ba, la, pb, bb, lb, d);
        let j = choose|j: int|
            0 <= j < spec_neighbors(t, ba, d, Seq::<Quadrant>::empty()).len() && (
            #[trigger] spec_neighbors(t, ba, d, Seq::<Quadrant>::empty())[j]).1 == bb
                && spec_neighbors(t, ba, d, Seq::<Quadrant>::empty())[j].2 == lb;
        let sn = spec_neighbors(t, ba, Direction::North, Seq::<Quadrant>::empty());
        let se_ = spec_neighbors(t, ba, Direction::East, Seq::<Quadrant>::empty());
        let ss = spec_neighbors(t, ba, Direction::South, Seq::<Quadrant>::empty());
        let offset: int = match d {
            Direction::North => 0,
            Direction::East => sn.len() as int,
            Direction::South => sn.len() as int + se_.len(),
            Direction::West => sn.len() as int + se_.len() + ss.len(),
        };
        assert(all_neighbors(t, ba)[offset + j].2 == lb);
        assert(is_violation(t, i, offset + j));
        assert(false);
    }
}

/// Law: the weak-balance invariant, read geometrically. In a
/// well-formed tree on a dyadically sized grid in which no balancing
/// violation remains — which is what `weak_balance` ensures of the
/// tree it returns — any two leaves that share an edge segment of
/// positive length differ in level by at most one.
pub proof fn lemma_weak_balance_face_invariant(
    t: Quadtree,
    pa: Seq<Quadrant>,
    ba: Rectangle,
    la: int,
    pb: Seq<Quadrant>,
    bb: Rectangle,
    lb: int,
    d: Direction,
)
    requires
        wf(t),
        sized_for(t.boundary, (t.level_max - t.level) as nat),
        !has_violation(t),
        leaf_at(t, pa, ba, la),
        leaf_at(t, pb, bb, lb),
        face_adjacent(ba, bb, d),
    ensures
        la <= lb + 1,
        lb <= la + 1,
{
    lemma_face_bound_one_sided(t, pa, ba, la, pb, bb, lb, d);
    let back = crate::dual::opposite(d);
    assert(face_adjacent(bb, ba, back));
    lemma_face_bound_one_sided(t, pb, bb, lb, pa, ba, la, back);
}

} // verus!
