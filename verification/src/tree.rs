//! The quadtree itself: the recursive node structure, construction,
//! point insertion, subdivision and refinement, with the structural
//! invariants the balancing and query passes rely on.

use vstd::multiset::Multiset;
use vstd::prelude::*;

use crate::geometry::{
    lemma_quadrant_rect_wf, lemma_quadrants_partition, quadrant_of, quadrant_rect, rect_wf,
    spec_center, spec_contains, Point, Quadrant, Rectangle,
};

verus! {

broadcast use vstd::seq_lib::group_to_multiset_ensures;

/// The state of one tree node: either a leaf holding points, or an
/// internal node holding exactly four child trees, one per quadrant.
#[derive(Debug)]
pub enum Node {
    /// A leaf node that stores a list of points.
    Leaf { points: Vec<Point> },
    /// An internal node containing four children quadtrees.
    Children { nw: Box<Quadtree>, ne: Box<Quadtree>, sw: Box<Quadtree>, se: Box<Quadtree> },
}

/// A quadtree node wrapper: its boundary, its depth (`level`, root is
/// 0), the depth cap (`level_max`, shared by every node of one tree),
/// and the node state.
#[derive(Debug)]
pub struct Quadtree {
    pub boundary: Rectangle,
    pub level: usize,
    pub level_max: usize,
    pub node: Node,
}

/// The relation between a parent and the child standing in quadrant
/// `q`: the child owns that quadrant of the parent's boundary, sits one
/// level deeper, and inherits the depth cap.
pub open spec fn child_wf(t: Quadtree, c: Quadtree, q: Quadrant) -> bool {
    &&& c.boundary == quadrant_rect(t.boundary, q)
    &&& c.level == t.level + 1
    &&& c.level_max == t.level_max
}

/// Well-formedness of a tree: the boundary is well-formed, the level
/// never exceeds the cap, leaf points lie inside their boundary, and a
/// subdivided node sits strictly below the cap with four children that
/// exactly tile it, recursively well-formed.
pub open spec fn wf(t: Quadtree) -> bool
    decreases t,
{
    &&& rect_wf(t.boundary)
    &&& t.level <= t.level_max
    &&& match t.node {
        Node::Leaf { points } => forall|i: int|
            0 <= i < points@.len() ==> spec_contains(t.boundary, #[trigger] points@[i]),
        Node::Children { nw, ne, sw, se } => {
            &&& t.level < t.level_max
            &&& child_wf(t, *nw, Quadrant::Nw)
            &&& child_wf(t, *ne, Quadrant::Ne)
            &&& child_wf(t, *sw, Quadrant::Sw)
            &&& child_wf(t, *se, Quadrant::Se)
            &&& wf(*nw)
            &&& wf(*ne)
            &&& wf(*sw)
            &&& wf(*se)
        },
    }
}

/// All points stored in the tree, as a multiset: insertion order within
/// a leaf is irrelevant, and subdivision redistributes points without
/// losing or duplicating any.
pub open spec fn points_in(t: Quadtree) -> Multiset<Point>
    decreases t,
{
    match t.node {
        Node::Leaf { points } => points@.to_multiset(),
        Node::Children { nw, ne, sw, se } => points_in(*nw).add(points_in(*ne)).add(
            points_in(*sw),
        ).add(points_in(*se)),
    }
}

/// How a tree changes when `p` is inserted: the shape is untouched, and
/// exactly one leaf — reached by descending through the quadrant the
/// center comparisons name — has `p` appended to its point list.
pub open spec fn inserted(o: Quadtree, n: Quadtree, p: Point) -> bool
    decreases o,
{
    &&& n.boundary == o.boundary
    &&& n.level == o.level
    &&& n.level_max == o.level_max
    &&& match (o.node, n.node) {
        (Node::Leaf { points: po }, Node::Leaf { points: pn }) => pn@ == po@.push(p),
        (
            Node::Children { nw: onw, ne: one, sw: osw, se: ose },
            Node::Children { nw, ne, sw, se },
        ) => {
            let q = quadrant_of(o.boundary, p);
            &&& (q == Quadrant::Nw ==> inserted(*onw, *nw, p) && ne == one && sw == osw && se
                == ose)
            &&& (q == Quadrant::Ne ==> inserted(*one, *ne, p) && nw == onw && sw == osw && se
                == ose)
            &&& (q == Quadrant::Sw ==> inserted(*osw, *sw, p) && nw == onw && ne == one && se
                == ose)
            &&& (q == Quadrant::Se ==> inserted(*ose, *se, p) && nw == onw && ne == one && sw
                == osw)
        },
        _ => false,
    }
}

/// The predicate selecting the points of boundary `b` that the center
/// comparisons assign to quadrant `q`.
pub open spec fn quadrant_pred(b: Rectangle, q: Quadrant) -> spec_fn(Point) -> bool {
    |p: Point| quadrant_of(b, p) == q
}

/// The child of a subdivision standing in quadrant `q`: an empty tree
/// one level deeper whose leaf received exactly the parent's points
/// falling in that quadrant, in their original relative order.
pub open spec fn quadrant_leaf(o: Quadtree, pts: Seq<Point>, q: Quadrant, c: Quadtree) -> bool {
    &&& c.boundary == quadrant_rect(o.boundary, q)
    &&& c.level == o.level + 1
    &&& c.level_max == o.level_max
    &&& c.node matches Node::Leaf { points } && points@ == pts.filter(
        quadrant_pred(o.boundary, q),
    )
}

/// How a leaf changes under `subdivide`: it becomes an internal node
/// whose four children tile its boundary and share out its points by
/// the center comparisons.
pub open spec fn subdivided(o: Quadtree, n: Quadtree) -> bool {
    &&& n.boundary == o.boundary
    &&& n.level == o.level
    &&& n.level_max == o.level_max
    &&& match (o.node, n.node) {
        (Node::Leaf { points }, Node::Children { nw, ne, sw, se }) => {
            &&& quadrant_leaf(o, points@, Quadrant::Nw, *nw)
            &&& quadrant_leaf(o, points@, Quadrant::Ne, *ne)
            &&& quadrant_leaf(o, points@, Quadrant::Sw, *sw)
            &&& quadrant_leaf(o, points@, Quadrant::Se, *se)
        },
        _ => false,
    }
}

/// An insertion only appends to one leaf, so the new tree extends the
/// old one.
pub proof fn lemma_inserted_extends(o: Quadtree, n: Quadtree, p: Point)
    requires
        inserted(o, n, p),
    ensures
        extends(o, n),
    decreases o,
{
    match (o.node, n.node) {
        (
            Node::Children { nw: onw, ne: one, sw: osw, se: ose },
            Node::Children { nw, ne, sw, se },
        ) => {
            let q = quadrant_of(o.boundary, p);
            match q {
                Quadrant::Nw => lemma_inserted_extends(*onw, *nw, p),
                Quadrant::Ne => lemma_inserted_extends(*one, *ne, p),
                Quadrant::Sw => lemma_inserted_extends(*osw, *sw, p),
                Quadrant::Se => lemma_inserted_extends(*ose, *se, p),
            }
            lemma_extends_refl(*onw);
            lemma_extends_refl(*one);
            lemma_extends_refl(*osw);
            lemma_extends_refl(*ose);
        },
        _ => {},
    }
}

/// Refinement is monotonic: `n` extends `o` when it keeps `o`'s
/// boundary, levels and every subdivided node — a node that has
/// children never reverts to a leaf, and existing children are only
/// ever extended in turn.
pub open spec fn extends(o: Quadtree, n: Quadtree) -> bool
    decreases o,
{
    &&& n.boundary == o.boundary
    &&& n.level == o.level
    &&& n.level_max == o.level_max
    &&& match o.node {
        Node::Leaf { .. } => true,
        Node::Children { nw: onw, ne: one, sw: osw, se: ose } => {
            n.node matches Node::Children { nw, ne, sw, se } && extends(*onw, *nw) && extends(
                *one,
                *ne,
            ) && extends(*osw, *sw) && extends(*ose, *se)
        },
    }
}

/// Every tree extends itself.
pub proof fn lemma_extends_refl(t: Quadtree)
    ensures
        extends(t, t),
    decreases t,
{
    match t.node {
        Node::Leaf { .. } => {},
        Node::Children { nw, ne, sw, se } => {
            lemma_extends_refl(*nw);
            lemma_extends_refl(*ne);
            lemma_extends_refl(*sw);
            lemma_extends_refl(*se);
        },
    }
}

/// Extension is transitive.
pub proof fn lemma_extends_trans(a: Quadtree, b: Quadtree, c: Quadtree)
    requires
        extends(a, b),
        extends(b, c),
    ensures
        extends(a, c),
    decreases a,
{
    match (a.node, b.node, c.node) {
        (
            Node::Children { nw: anw, ne: ane, sw: asw, se: ase },
            Node::Children { nw: bnw, ne: bne, sw: bsw, se: bse },
            Node::Children { nw: cnw, ne: cne, sw: csw, se: cse },
        ) => {
            lemma_extends_trans(*anw, *bnw, *cnw);
            lemma_extends_trans(*ane, *bne, *cne);
            lemma_extends_trans(*asw, *bsw, *csw);
            lemma_extends_trans(*ase, *bse, *cse);
        },
        _ => {},
    }
}

/// Law: after any subdivide, the four children's boundaries exactly
/// tile the parent's — every point of the parent lies in at least one
/// child, no point lies in two, and points outside the parent lie in
/// none.
pub proof fn lemma_subdivide_partition(o: Quadtree, n: Quadtree, p: Point)
    requires
        rect_wf(o.boundary),
        subdivided(o, n),
    ensures
        n.node matches Node::Children { nw, ne, sw, se } ==> {
            &&& (spec_contains(n.boundary, p) <==> (spec_contains(nw.boundary, p)
                || spec_contains(ne.boundary, p) || spec_contains(sw.boundary, p)
                || spec_contains(se.boundary, p)))
            &&& !(spec_contains(nw.boundary, p) && spec_contains(ne.boundary, p))
            &&& !(spec_contains(nw.boundary, p) && spec_contains(sw.boundary, p))
            &&& !(spec_contains(nw.boundary, p) && spec_contains(se.boundary, p))
            &&& !(spec_contains(ne.boundary, p) && spec_contains(sw.boundary, p))
            &&& !(spec_contains(ne.boundary, p) && spec_contains(se.boundary, p))
            &&& !(spec_contains(sw.boundary, p) && spec_contains(se.boundary, p))
        },
{
    lemma_quadrants_partition(o.boundary, p);
}

/// A tree is refined when no leaf both holds points and sits below the
/// depth cap: every populated leaf has been driven down to `level_max`.
pub open spec fn refined(t: Quadtree) -> bool
    decreases t,
{
    match t.node {
        Node::Leaf { points } => points@.len() == 0 || t.level >= t.level_max,
        Node::Children { nw, ne, sw, se } => refined(*nw) && refined(*ne) && refined(*sw)
            && refined(*se),
    }
}

/// The number of descendants a single leaf with `k` levels of slack
/// below the depth cap could still acquire: subdividing once creates 4
/// children, each with `k - 1` levels of slack.
pub open spec fn slack(k: nat) -> nat
    decreases k,
{
    if k == 0 {
        0
    } else {
        4 + 4 * slack((k - 1) as nat)
    }
}

/// The tree's growth potential: the summed slack of its leaves. Every
/// subdivision lowers it by exactly 4, and it is bounded below by 0,
/// so repeated balancing passes terminate.
pub open spec fn potential(t: Quadtree) -> nat
    decreases t,
{
    match t.node {
        Node::Leaf { .. } => slack((t.level_max - t.level) as nat),
        Node::Children { nw, ne, sw, se } => potential(*nw) + potential(*ne) + potential(*sw)
            + potential(*se),
    }
}

/// The subtree reached from `t` by following `path`, one quadrant
/// choice per subdivided node, or `None` where the path leaves the
/// tree.
pub open spec fn subtree_at(t: Quadtree, path: Seq<Quadrant>) -> Option<Quadtree>
    decreases path.len(),
{
    if path.len() == 0 {
        Some(t)
    } else {
        match t.node {
            Node::Leaf { .. } => None,
            Node::Children { nw, ne, sw, se } => {
                let c = match path[0] {
                    Quadrant::Nw => *nw,
                    Quadrant::Ne => *ne,
                    Quadrant::Sw => *sw,
                    Quadrant::Se => *se,
                };
                subtree_at(c, path.skip(1))
            },
        }
    }
}

/// Following one quadrant step into a subdivided node and then a
/// relative path is following the combined path.
pub proof fn lemma_subtree_step(t: Quadtree, q: Quadrant, rel: Seq<Quadrant>, c: Quadtree)
    requires
        t.node matches Node::Children { nw, ne, sw, se } && c == (match q {
            Quadrant::Nw => *nw,
            Quadrant::Ne => *ne,
            Quadrant::Sw => *sw,
            Quadrant::Se => *se,
        }),
    ensures
        subtree_at(t, seq![q] + rel) == subtree_at(c, rel),
{
    let path = seq![q] + rel;
    assert(path[0] == q);
    assert(path.skip(1) =~= rel);
}

/// Two paths diverge when they disagree at some index both have:
/// neither is then a prefix of the other, so they lead into disjoint
/// subtrees.
pub open spec fn diverges(a: Seq<Quadrant>, b: Seq<Quadrant>) -> bool {
    exists|m: int| 0 <= m < a.len() && m < b.len() && a[m] != b[m]
}

/// Two distinct paths that both reach a leaf diverge: a leaf has no
/// descendants, so neither path can be a prefix of the other.
pub proof fn lemma_distinct_leaf_paths_diverge(t: Quadtree, p1: Seq<Quadrant>, p2: Seq<Quadrant>)
    requires
        subtree_at(t, p1) matches Some(s1) && s1.node is Leaf,
        subtree_at(t, p2) matches Some(s2) && s2.node is Leaf,
        p1 != p2,
    ensures
        diverges(p1, p2),
    decreases p1.len(),
{
    if p1.len() == 0 {
        assert(subtree_at(t, p1) == Some(t));
        if p2.len() == 0 {
            assert(p1 =~= p2);
        }
        assert(subtree_at(t, p2) is None);
    } else if p2.len() == 0 {
        assert(subtree_at(t, p2) == Some(t));
        assert(subtree_at(t, p1) is None);
    } else {
        if p1[0] != p2[0] {
            assert(0 < p1.len() && 0 < p2.len() && p1[0] != p2[0]);
        } else {
            match t.node {
                Node::Leaf { .. } => {},
                Node::Children { nw, ne, sw, se } => {
                    let q = p1[0];
                    let c = match q {
                        Quadrant::Nw => *nw,
                        Quadrant::Ne => *ne,
                        Quadrant::Sw => *sw,
                        Quadrant::Se => *se,
                    };
                    assert(p1 =~= seq![q] + p1.skip(1));
                    assert(p2 =~= seq![q] + p2.skip(1));
                    lemma_subtree_step(t, q, p1.skip(1), c);
                    lemma_subtree_step(t, q, p2.skip(1), c);
                    if p1.skip(1) == p2.skip(1) {
                        assert(p1 =~= p2);
                    }
                    lemma_distinct_leaf_paths_diverge(c, p1.skip(1), p2.skip(1));
                    let m = choose|m: int|
                        0 <= m < p1.skip(1).len() && m < p2.skip(1).len() && p1.skip(1)[m] != p2.skip(
                            1,
                        )[m];
                    assert(p1[m + 1] != p2[m + 1]);
                },
            }
        }
    }
}

/// The path leads to a leaf that refinement leaves alone: one that is
/// empty, or one that has reached the depth cap.
pub open spec fn settled_leaf_at(t: Quadtree, path: Seq<Quadrant>) -> bool {
    subtree_at(t, path) matches Some(s) && s.node matches Node::Leaf { points } && (points@.len()
        == 0 || s.level >= s.level_max)
}

/// Every subtree of a well-formed tree is well-formed, and inherits
/// the tree's depth cap.
pub proof fn lemma_subtree_wf(t: Quadtree, path: Seq<Quadrant>, s: Quadtree)
    requires
        wf(t),
        subtree_at(t, path) == Some(s),
    ensures
        wf(s),
        s.level_max == t.level_max,
    decreases path.len(),
{
    if path.len() > 0 {
        match t.node {
            Node::Leaf { .. } => {},
            Node::Children { nw, ne, sw, se } => {
                let c = match path[0] {
                    Quadrant::Nw => *nw,
                    Quadrant::Ne => *ne,
                    Quadrant::Sw => *sw,
                    Quadrant::Se => *se,
                };
                lemma_subtree_wf(c, path.skip(1), s);
            },
        }
    }
}

/// Law: the depth cap is respected — every node reachable in a
/// well-formed tree has `level <= level_max`.
pub proof fn lemma_depth_cap(t: Quadtree, path: Seq<Quadrant>, s: Quadtree)
    requires
        wf(t),
        subtree_at(t, path) == Some(s),
    ensures
        s.level <= s.level_max,
{
    lemma_subtree_wf(t, path, s);
}

/// Law: insertion fidelity — an insertion adds exactly the inserted
/// point to the tree's contents, so inserting N points in-bounds and
/// summing the leaf point counts afterwards yields exactly N.
pub proof fn lemma_inserted_points(o: Quadtree, n: Quadtree, p: Point)
    requires
        inserted(o, n, p),
    ensures
        points_in(n) == points_in(o).insert(p),
    decreases o,
{
    match (o.node, n.node) {
        (Node::Leaf { points: po }, Node::Leaf { points: pn }) => {
            assert(pn@.to_multiset() == po@.to_multiset().insert(p));
        },
        (
            Node::Children { nw: onw, ne: one, sw: osw, se: ose },
            Node::Children { nw, ne, sw, se },
        ) => {
            let q = quadrant_of(o.boundary, p);
            match q {
                Quadrant::Nw => lemma_inserted_points(*onw, *nw, p),
                Quadrant::Ne => lemma_inserted_points(*one, *ne, p),
                Quadrant::Sw => lemma_inserted_points(*osw, *sw, p),
                Quadrant::Se => lemma_inserted_points(*ose, *se, p),
            }
            assert(points_in(n) =~= points_in(o).insert(p));
        },
        _ => {},
    }
}

/// Appending an element to a sequence extends its filtered view by
/// that element exactly when the predicate accepts it.
pub proof fn lemma_filter_push<A>(s: Seq<A>, pred: spec_fn(A) -> bool, e: A)
    ensures
        s.push(e).filter(pred) == if pred(e) {
            s.filter(pred).push(e)
        } else {
            s.filter(pred)
        },
{
    reveal(Seq::filter);
    assert(s.push(e).drop_last() =~= s);
    assert(s.push(e).last() == e);
}

/// A sequence's multiset splits into the multisets of its four
/// quadrant filters: the center comparisons assign each point to
/// exactly one quadrant.
pub proof fn lemma_filter_quadrants(pts: Seq<Point>, b: Rectangle)
    ensures
        points_partition(pts, b),
    decreases pts.len(),
{
    reveal(Seq::filter);
    let fnw = quadrant_pred(b, Quadrant::Nw);
    let fne = quadrant_pred(b, Quadrant::Ne);
    let fsw = quadrant_pred(b, Quadrant::Sw);
    let fse = quadrant_pred(b, Quadrant::Se);
    if pts.len() > 0 {
        let rest = pts.drop_last();
        let e = pts.last();
        lemma_filter_quadrants(rest, b);
        assert(pts.filter(fnw) == if fnw(e) {
            rest.filter(fnw).push(e)
        } else {
            rest.filter(fnw)
        });
        assert(pts.filter(fne) == if fne(e) {
            rest.filter(fne).push(e)
        } else {
            rest.filter(fne)
        });
        assert(pts.filter(fsw) == if fsw(e) {
            rest.filter(fsw).push(e)
        } else {
            rest.filter(fsw)
        });
        assert(pts.filter(fse) == if fse(e) {
            rest.filter(fse).push(e)
        } else {
            rest.filter(fse)
        });
        assert(rest.push(e) =~= pts);
        assert(rest.push(e).to_multiset() == rest.to_multiset().insert(e));
        assert(pts.filter(fnw).to_multiset().add(pts.filter(fne).to_multiset()).add(
            pts.filter(fsw).to_multiset(),
        ).add(pts.filter(fse).to_multiset()) =~= pts.to_multiset());
    } else {
        assert(pts.filter(fnw).to_multiset().add(pts.filter(fne).to_multiset()).add(
            pts.filter(fsw).to_multiset(),
        ).add(pts.filter(fse).to_multiset()) =~= pts.to_multiset());
    }
}

/// The four quadrant filters of `pts` over boundary `b` jointly carry
/// the same multiset of points as `pts` itself.
pub open spec fn points_partition(pts: Seq<Point>, b: Rectangle) -> bool {
    pts.filter(quadrant_pred(b, Quadrant::Nw)).to_multiset().add(
        pts.filter(quadrant_pred(b, Quadrant::Ne)).to_multiset(),
    ).add(pts.filter(quadrant_pred(b, Quadrant::Sw)).to_multiset()).add(
        pts.filter(quadrant_pred(b, Quadrant::Se)).to_multiset(),
    ) == pts.to_multiset()
}

impl Quadtree {
    /// Creates a new, empty quadtree root with the given boundary and
    /// depth cap.
    ///
    /// Any well-formed boundary is accepted. For the geometric reading
    /// of weak balance to apply in full — the 2:1 bound between leaves
    /// that share a positive-length edge segment — pick extents that
    /// are positive multiples of two to the power `level_max`, so that
    /// every subdivision halves a cell exactly and no cell degenerates
    /// to zero extent.
    pub fn new(boundary: Rectangle, level_max: usize) -> (t: Quadtree)
        requires
            rect_wf(boundary),
        ensures
            t.boundary == boundary,
            t.level == 0,
            t.level_max == level_max,
            t.node matches Node::Leaf { points } && points@ == Seq::<Point>::empty(),
            wf(t),
            points_in(t) == Multiset::<Point>::empty(),
    {
        let t = Self::new_with_level(boundary, 0, level_max);
        proof {
            assert(Seq::<Point>::empty().to_multiset() =~= Multiset::<Point>::empty());
        }
        t
    }

    /// Internal constructor that also sets the level.
    fn new_with_level(boundary: Rectangle, level: usize, level_max: usize) -> (t: Quadtree)
        requires
            rect_wf(boundary),
            level <= level_max,
        ensures
            t.boundary == boundary,
            t.level == level,
            t.level_max == level_max,
            t.node matches Node::Leaf { points } && points@ == Seq::<Point>::empty(),
            wf(t),
    {
        Quadtree { boundary, level, level_max, node: Node::Leaf { points: Vec::new() } }
    }

    /// Inserts a point into the quadtree.
    ///
    /// Returns `false`, leaving the tree untouched, when the point
    /// lies outside the boundary. Otherwise descends through the
    /// quadrant the center comparisons name, appends the point to the
    /// leaf it reaches, and returns `true`. Insertion never subdivides;
    /// growing the structure is `refine`'s job.
    pub fn insert(&mut self, point: Point) -> (r: bool)
        requires
            wf(*old(self)),
        ensures
            r == spec_contains(old(self).boundary, point),
            r ==> inserted(*old(self), *final(self), point),
            !r ==> *final(self) == *old(self),
            extends(*old(self), *final(self)),
            wf(*final(self)),
            points_in(*final(self)) == if r {
                points_in(*old(self)).insert(point)
            } else {
                points_in(*old(self))
            },
        decreases *old(self),
    {
        if !self.boundary.contains(&point) {
            proof {
                lemma_extends_refl(*self);
            }
            return false;
        }
        proof {
            lemma_quadrants_partition(self.boundary, point);
        }
        match &mut self.node {
            Node::Leaf { points } => {
                points.push(point);
                proof {
                    assert(points_in(*self) == points_in(*old(self)).insert(point));
                }
                true
            },
            Node::Children { nw, ne, sw, se } => {
                let center_x = self.boundary.origin.x + self.boundary.width / 2;
                let center_y = self.boundary.origin.y + self.boundary.height / 2;
                let r = if point.x < center_x {
                    if point.y < center_y {
                        sw.insert(point)
                    } else {
                        nw.insert(point)
                    }
                } else {
                    if point.y < center_y {
                        se.insert(point)
                    } else {
                        ne.insert(point)
                    }
                };
                proof {
                    lemma_inserted_points(*old(self), *self, point);
                    lemma_inserted_extends(*old(self), *self, point);
                }
                r
            },
        }
    }
    /// Subdivides a leaf into four children.
    ///
    /// Valid only on a leaf strictly below the depth cap; callers
    /// guard with the depth check before calling. The leaf's points
    /// move into the four freshly constructed children, one level
    /// deeper, each point going to the quadrant the center comparisons
    /// name. The west/south children take the floored half of each
    /// extent and the east/north children the remainder, so the four
    /// children exactly tile the parent.
    pub fn subdivide(&mut self)
        requires
            wf(*old(self)),
            old(self).node is Leaf,
            old(self).level < old(self).level_max,
        ensures
            subdivided(*old(self), *final(self)),
            extends(*old(self), *final(self)),
            wf(*final(self)),
            points_in(*final(self)) == points_in(*old(self)),
            potential(*final(self)) + 4 == potential(*old(self)),
    {
        let mut taken = Node::Leaf { points: Vec::new() };
        core::mem::swap(&mut self.node, &mut taken);
        let points = match taken {
            Node::Leaf { points } => points,
            Node::Children { .. } => Vec::new(),
        };
        let ghost b = self.boundary;
        let ghost all = points@;

        let x = self.boundary.origin.x;
        let y = self.boundary.origin.y;
        let half_width = self.boundary.width / 2;
        let half_height = self.boundary.height / 2;
        let rem_width = self.boundary.width - half_width;
        let rem_height = self.boundary.height - half_height;
        let child_level = self.level + 1;

        let nw_boundary = Rectangle {
            origin: Point { x, y: y + half_height },
            width: half_width,
            height: rem_height,
        };
        let ne_boundary = Rectangle {
            origin: Point { x: x + half_width, y: y + half_height },
            width: rem_width,
            height: rem_height,
        };
        let sw_boundary = Rectangle { origin: Point { x, y }, width: half_width, height: half_height };
        let se_boundary = Rectangle {
            origin: Point { x: x + half_width, y },
            width: rem_width,
            height: half_height,
        };
        proof {
            assert(nw_boundary == quadrant_rect(b, Quadrant::Nw));
            assert(ne_boundary == quadrant_rect(b, Quadrant::Ne));
            assert(sw_boundary == quadrant_rect(b, Quadrant::Sw));
            assert(se_boundary == quadrant_rect(b, Quadrant::Se));
            lemma_quadrant_rect_wf(b, Quadrant::Nw);
            lemma_quadrant_rect_wf(b, Quadrant::Ne);
            lemma_quadrant_rect_wf(b, Quadrant::Sw);
            lemma_quadrant_rect_wf(b, Quadrant::Se);
        }

        let mut nw_pts: Vec<Point> = Vec::new();
        let mut ne_pts: Vec<Point> = Vec::new();
        let mut sw_pts: Vec<Point> = Vec::new();
        let mut se_pts: Vec<Point> = Vec::new();
        let center_x = x + half_width;
        let center_y = y + half_height;

        let mut i: usize = 0;
        while i < points.len()
            invariant
                i <= points.len(),
                points@ == all,
                rect_wf(b),
                center_x == spec_center(b).x,
                center_y == spec_center(b).y,
                forall|j: int| 0 <= j < all.len() ==> spec_contains(b, #[trigger] all[j]),
                nw_pts@ == all.take(i as int).filter(quadrant_pred(b, Quadrant::Nw)),
                ne_pts@ == all.take(i as int).filter(quadrant_pred(b, Quadrant::Ne)),
                sw_pts@ == all.take(i as int).filter(quadrant_pred(b, Quadrant::Sw)),
                se_pts@ == all.take(i as int).filter(quadrant_pred(b, Quadrant::Se)),
                forall|j: int|
                    0 <= j < nw_pts@.len() ==> spec_contains(
                        quadrant_rect(b, Quadrant::Nw),
                        #[trigger] nw_pts@[j],
                    ),
                forall|j: int|
                    0 <= j < ne_pts@.len() ==> spec_contains(
                        quadrant_rect(b, Quadrant::Ne),
                        #[trigger] ne_pts@[j],
                    ),
                forall|j: int|
                    0 <= j < sw_pts@.len() ==> spec_contains(
                        quadrant_rect(b, Quadrant::Sw),
                        #[trigger] sw_pts@[j],
                    ),
                forall|j: int|
                    0 <= j < se_pts@.len() ==> spec_contains(
                        quadrant_rect(b, Quadrant::Se),
                        #[trigger] se_pts@[j],
                    ),
            decreases points.len() - i,
        {
            let p = points[i];
            proof {
                lemma_quadrants_partition(b, p);
            }
            if p.x < center_x {
                if p.y < center_y {
                    sw_pts.push(p);
                } else {
                    nw_pts.push(p);
                }
            } else {
                if p.y < center_y {
                    se_pts.push(p);
                } else {
                    ne_pts.push(p);
                }
            }
            proof {
                assert(all.take(i as int + 1) =~= all.take(i as int).push(p));
                lemma_filter_push(all.take(i as int), quadrant_pred(b, Quadrant::Nw), p);
                lemma_filter_push(all.take(i as int), quadrant_pred(b, Quadrant::Ne), p);
                lemma_filter_push(all.take(i as int), quadrant_pred(b, Quadrant::Sw), p);
                lemma_filter_push(all.take(i as int), quadrant_pred(b, Quadrant::Se), p);
            }
            i += 1;
        }
        proof {
            assert(all.take(points@.len() as int) =~= all);
        }

        let level_max = self.level_max;
        self.node = Node::Children {
            nw: Box::new(
                Quadtree {
                    boundary: nw_boundary,
                    level: child_level,
                    level_max,
                    node: Node::Leaf { points: nw_pts },
                },
            ),
            ne: Box::new(
                Quadtree {
                    boundary: ne_boundary,
                    level: child_level,
                    level_max,
                    node: Node::Leaf { points: ne_pts },
                },
            ),
            sw: Box::new(
                Quadtree {
                    boundary: sw_boundary,
                    level: child_level,
                    level_max,
                    node: Node::Leaf { points: sw_pts },
                },
            ),
            se: Box::new(
                Quadtree {
                    boundary: se_boundary,
                    level: child_level,
                    level_max,
                    node: Node::Leaf { points: se_pts },
                },
            ),
        };
        proof {
            lemma_filter_quadrants(all, b);
            assert(points_in(*old(self)) == all.to_multiset());
            let t = *self;
            match t.node {
                Node::Children { nw, ne, sw, se } => {
                    assert(wf(*nw));
                    assert(wf(*ne));
                    assert(wf(*sw));
                    assert(wf(*se));
                    assert(points_in(*nw) == all.filter(
                        quadrant_pred(b, Quadrant::Nw),
                    ).to_multiset());
                    assert(points_in(*ne) == all.filter(
                        quadrant_pred(b, Quadrant::Ne),
                    ).to_multiset());
                    assert(points_in(*sw) == all.filter(
                        quadrant_pred(b, Quadrant::Sw),
                    ).to_multiset());
                    assert(points_in(*se) == all.filter(
                        quadrant_pred(b, Quadrant::Se),
                    ).to_multiset());
                    let k = (old(self).level_max - old(self).level) as nat;
                    assert(slack(k) == 4 + 4 * slack((k - 1) as nat));
                    assert(potential(*nw) == slack((k - 1) as nat));
                    assert(potential(*ne) == slack((k - 1) as nat));
                    assert(potential(*sw) == slack((k - 1) as nat));
                    assert(potential(*se) == slack((k - 1) as nat));
                    assert(potential(*old(self)) == slack(k));
                    assert(potential(t) == potential(*nw) + potential(*ne) + potential(*sw)
                        + potential(*se));
                },
                Node::Leaf { .. } => {},
            }
        }
    }

    /// Refines the quadtree: every leaf that holds points and sits
    /// below the depth cap is subdivided, recursively, until every
    /// populated leaf has reached `level_max`.
    ///
    /// Refinement is idempotent: on a tree that is already refined it
    /// changes nothing, so a second call right after a first returns
    /// the tree exactly as the first left it.
    pub fn refine(&mut self)
        requires
            wf(*old(self)),
        ensures
            wf(*final(self)),
            points_in(*final(self)) == points_in(*old(self)),
            refined(*final(self)),
            refined(*old(self)) ==> *final(self) == *old(self),
            extends(*old(self), *final(self)),
            forall|path: Seq<Quadrant>|
                #[trigger] settled_leaf_at(*old(self), path) ==> subtree_at(*final(self), path)
                    == subtree_at(*old(self), path),
            final(self).boundary == old(self).boundary,
            final(self).level == old(self).level,
            final(self).level_max == old(self).level_max,
        decreases old(self).level_max - old(self).level,
    {
        if let Node::Leaf { points } = &self.node {
            if points.len() > 0 && self.level < self.level_max {
                self.subdivide();
            }
        }
        let ghost mid = *self;
        match &mut self.node {
            Node::Children { nw, ne, sw, se } => {
                nw.refine();
                ne.refine();
                sw.refine();
                se.refine();
                proof {
                    assert(points_in(*self) == points_in(mid));
                    assert(extends(mid, *self));
                    assert forall|path: Seq<Quadrant>|
                        #[trigger] settled_leaf_at(mid, path) implies subtree_at(*self, path)
                        == subtree_at(mid, path) by {
                        if path.len() == 0 {
                            assert(subtree_at(mid, path) == Some(mid));
                            assert(false);
                        } else {
                            let q = path[0];
                            let rest = path.skip(1);
                            assert(path =~= seq![q] + rest);
                            match (mid.node, self.node) {
                                (
                                    Node::Children { nw: m1, ne: m2, sw: m3, se: m4 },
                                    Node::Children { nw: c1, ne: c2, sw: c3, se: c4 },
                                ) => {
                                    match q {
                                        Quadrant::Nw => {
                                            lemma_subtree_step(mid, q, rest, *m1);
                                            lemma_subtree_step(*self, q, rest, *c1);
                                            assert(settled_leaf_at(*m1, rest));
                                        },
                                        Quadrant::Ne => {
                                            lemma_subtree_step(mid, q, rest, *m2);
                                            lemma_subtree_step(*self, q, rest, *c2);
                                            assert(settled_leaf_at(*m2, rest));
                                        },
                                        Quadrant::Sw => {
                                            lemma_subtree_step(mid, q, rest, *m3);
                                            lemma_subtree_step(*self, q, rest, *c3);
                                            assert(settled_leaf_at(*m3, rest));
                                        },
                                        Quadrant::Se => {
                                            lemma_subtree_step(mid, q, rest, *m4);
                                            lemma_subtree_step(*self, q, rest, *c4);
                                            assert(settled_leaf_at(*m4, rest));
                                        },
                                    }
                                },
                                _ => {},
                            }
                        }
                    }
                }
            },
            Node::Leaf { .. } => {},
        }
        proof {
            if old(self).node is Children {
                assert(extends(*old(self), *self));
                assert(mid == *old(self));
            } else if !refined(*old(self)) {
                // The old tree was a populated leaf below the cap: it
                // has no settled leaf at any path, so the clause is
                // vacuous.
                assert forall|path: Seq<Quadrant>|
                    #[trigger] settled_leaf_at(*old(self), path) implies subtree_at(*self, path)
                    == subtree_at(*old(self), path) by {
                    if path.len() == 0 {
                        assert(subtree_at(*old(self), path) == Some(*old(self)));
                        assert(false);
                    } else {
                        assert(subtree_at(*old(self), path) is None);
                        assert(false);
                    }
                }
            }
        }
    }
}

} // verus!
