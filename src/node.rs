//! The nodes of the quadtree: the model of a subtree, its invariant, and
//! insertion, lookup, range query and aggregation on a subtree.
use vstd::prelude::*;
use vstd::multiset::Multiset;
use crate::body::{Aggregate, Body, mass_weight, moment_x_weight, moment_y_weight};
use vstd::arithmetic::power2::{pow2, lemma_pow2_unfold};
use crate::geometry::{
    cell_at, lemma_same_cell_same_quadrant, Position, Rect, TOP_LEFT, TOP_RIGHT, BOTTOM_LEFT,
    BOTTOM_RIGHT,
};

verus! {


/// Why an insertion failed.
#[derive(Clone, Copy, Debug, PartialEq, Eq, Structural)]
pub enum InsertError {
    /// The body lies outside the tree's bounds.
    OutOfBounds,
    /// Placing the body would need a node deeper than the depth limit.
    DepthExceeded,
    /// The bounds given to a new tree have no area.
    InvalidRect,
}

/// One region of the plane. A leaf holds at most one body, by its index; an
/// internal node holds none and owns up to four children, one per quadrant
/// of its rectangle.
#[derive(Debug)]
pub struct Node {
    pub occupant: Option<usize>,
    pub rect: Rect,
    pub top_left: Option<Box<Node>>,
    pub top_right: Option<Box<Node>>,
    pub bottom_left: Option<Box<Node>>,
    pub bottom_right: Option<Box<Node>>,
}

/// Whether two points in `rect`, a node `depth` levels below the root,
/// fall in different quadrants of some node no deeper than `max` levels,
/// whose children can then hold them apart.
pub open spec fn separable(rect: Rect, depth: int, max: int, a: Position, b: Position) -> bool
    decreases max - depth,
{
    if depth >= max {
        false
    } else if rect.quadrant_of(a) != rect.quadrant_of(b) {
        true
    } else {
        separable(rect.quadrant_rect(rect.quadrant_of(a)), depth + 1, max, a, b)
    }
}

impl Node {
    pub open spec fn child(self, i: int) -> Option<Box<Node>> {
        if i == 0 {
            self.top_left
        } else if i == 1 {
            self.top_right
        } else if i == 2 {
            self.bottom_left
        } else {
            self.bottom_right
        }
    }

    pub open spec fn with_child(self, i: int, c: Option<Box<Node>>) -> Node {
        if i == 0 {
            Node { top_left: c, ..self }
        } else if i == 1 {
            Node { top_right: c, ..self }
        } else if i == 2 {
            Node { bottom_left: c, ..self }
        } else {
            Node { bottom_right: c, ..self }
        }
    }

    pub open spec fn is_leaf(self) -> bool {
        &&& self.top_left is None
        &&& self.top_right is None
        &&& self.bottom_left is None
        &&& self.bottom_right is None
    }

    /// The indices of the bodies in the subtree, in pre-order.
    pub open spec fn ids(self) -> Seq<usize>
        decreases self,
    {
        Node::occupant_ids(self.occupant) + Node::opt_ids(self.top_left) + Node::opt_ids(
            self.top_right,
        ) + Node::opt_ids(self.bottom_left) + Node::opt_ids(self.bottom_right)
    }

    pub open spec fn occupant_ids(o: Option<usize>) -> Seq<usize> {
        match o {
            Some(a) => seq![a],
            None => Seq::empty(),
        }
    }

    pub open spec fn opt_ids(o: Option<Box<Node>>) -> Seq<usize>
        decreases o,
    {
        match o {
            Some(c) => c.ids(),
            None => Seq::empty(),
        }
    }

    /// The invariant of a subtree whose root lies `depth` levels below the
    /// tree's root, in a tree of at most `max` levels below its root, over
    /// the body store `bodies`: the rectangle is well formed; an occupant is
    /// a stored body whose position the rectangle contains, at a leaf; each
    /// child covers its quadrant, holds at least one body and the invariant
    /// one level deeper; and a node is split only where it holds two bodies
    /// or more. So the shape of a tree follows from the bodies it holds.
    pub open spec fn wf(self, bodies: Seq<Body>, depth: int, max: int) -> bool
        decreases self,
    {
        &&& self.rect.wf()
        &&& 0 <= depth <= max
        &&& (self.occupant matches Some(a) ==> {
            &&& self.is_leaf()
            &&& a < bodies.len()
            &&& self.rect.contains_spec(bodies[a as int].position)
        })
        &&& (!self.is_leaf() ==> self.ids().len() >= 2)
        &&& Node::opt_wf(self.top_left, self.rect.quadrant_rect(0), bodies, depth + 1, max)
        &&& Node::opt_wf(self.top_right, self.rect.quadrant_rect(1), bodies, depth + 1, max)
        &&& Node::opt_wf(self.bottom_left, self.rect.quadrant_rect(2), bodies, depth + 1, max)
        &&& Node::opt_wf(self.bottom_right, self.rect.quadrant_rect(3), bodies, depth + 1, max)
    }

    pub open spec fn opt_wf(
        o: Option<Box<Node>>,
        r: Rect,
        bodies: Seq<Body>,
        depth: int,
        max: int,
    ) -> bool
        decreases o,
    {
        match o {
            Some(c) => c.rect == r && c.ids().len() >= 1 && c.wf(bodies, depth, max),
            None => true,
        }
    }

    /// Whether a body at `p` can be placed in the subtree: the walk that
    /// follows `p` ends at an empty leaf, at an empty child slot no deeper
    /// than `max`, or at a leaf whose occupant `p` can be held apart from.
    pub open spec fn can_place(self, bodies: Seq<Body>, depth: int, max: int, p: Position) -> bool
        decreases self,
    {
        if self.is_leaf() {
            match self.occupant {
                Some(a) => separable(self.rect, depth, max, bodies[a as int].position, p),
                None => true,
            }
        } else {
            let q = self.rect.quadrant_of(p);
            if q == 0 {
                Node::opt_can_place(self.top_left, bodies, depth + 1, max, p)
            } else if q == 1 {
                Node::opt_can_place(self.top_right, bodies, depth + 1, max, p)
            } else if q == 2 {
                Node::opt_can_place(self.bottom_left, bodies, depth + 1, max, p)
            } else {
                Node::opt_can_place(self.bottom_right, bodies, depth + 1, max, p)
            }
        }
    }

    pub open spec fn opt_can_place(
        o: Option<Box<Node>>,
        bodies: Seq<Body>,
        depth: int,
        max: int,
        p: Position,
    ) -> bool
        decreases o,
    {
        match o {
            Some(c) => c.can_place(bodies, depth, max, p),
            None => depth <= max,
        }
    }

    /// The occupant of the node that a walk from here reaches by following
    /// the quadrant of `p` at each internal node: the leaf that holds `p`'s
    /// cell, or `None` where that cell's slot is empty.
    pub open spec fn locate(self, p: Position) -> Option<usize>
        decreases self,
    {
        if self.is_leaf() {
            self.occupant
        } else {
            let q = self.rect.quadrant_of(p);
            if q == 0 {
                Node::opt_locate(self.top_left, p)
            } else if q == 1 {
                Node::opt_locate(self.top_right, p)
            } else if q == 2 {
                Node::opt_locate(self.bottom_left, p)
            } else {
                Node::opt_locate(self.bottom_right, p)
            }
        }
    }

    pub open spec fn opt_locate(o: Option<Box<Node>>, p: Position) -> Option<usize>
        decreases o,
    {
        match o {
            Some(c) => c.locate(p),
            None => None,
        }
    }

    /// The sum of `f` over the bodies of the subtree.
    pub open spec fn weight(self, bodies: Seq<Body>, f: spec_fn(Body) -> int) -> int
        decreases self,
    {
        (match self.occupant {
            Some(a) => f(bodies[a as int]),
            None => 0,
        }) + Node::opt_weight(self.top_left, bodies, f) + Node::opt_weight(
            self.top_right,
            bodies,
            f,
        ) + Node::opt_weight(self.bottom_left, bodies, f) + Node::opt_weight(
            self.bottom_right,
            bodies,
            f,
        )
    }

    pub open spec fn opt_weight(
        o: Option<Box<Node>>,
        bodies: Seq<Body>,
        f: spec_fn(Body) -> int,
    ) -> int
        decreases o,
    {
        match o {
            Some(c) => c.weight(bodies, f),
            None => 0,
        }
    }

    /// Every body of the subtree is one of the first `n` of the store.
    pub open spec fn ids_below(self, n: nat) -> bool {
        forall|id: usize| #[trigger] self.ids().contains(id) ==> id < n
    }

    pub fn new(occupant: Option<usize>, rect: Rect) -> (r: Node)
        ensures
            r.occupant == occupant,
            r.rect == rect,
            r.is_leaf(),
    {
        Node {
            occupant,
            rect,
            top_left: None,
            top_right: None,
            bottom_left: None,
            bottom_right: None,
        }
    }

    pub fn is_leaf_node(&self) -> (r: bool)
        ensures
            r == self.is_leaf(),
    {
        self.top_left.is_none() && self.top_right.is_none() && self.bottom_left.is_none()
            && self.bottom_right.is_none()
    }

    fn take_child(&mut self, i: usize) -> (r: Option<Box<Node>>)
        requires
            i < 4,
        ensures
            r == old(self).child(i as int),
            *final(self) == old(self).with_child(i as int, None),
    {
        if i == TOP_LEFT {
            self.top_left.take()
        } else if i == TOP_RIGHT {
            self.top_right.take()
        } else if i == BOTTOM_LEFT {
            self.bottom_left.take()
        } else {
            self.bottom_right.take()
        }
    }

    fn put_child(&mut self, i: usize, c: Option<Box<Node>>)
        requires
            i < 4,
        ensures
            *final(self) == old(self).with_child(i as int, c),
    {
        if i == TOP_LEFT {
            self.top_left = c;
        } else if i == TOP_RIGHT {
            self.top_right = c;
        } else if i == BOTTOM_LEFT {
            self.bottom_left = c;
        } else {
            self.bottom_right = c;
        }
    }
}

/// The multiset of a subtree's bodies is its occupant and those of its
/// four children.
pub proof fn lemma_ids_multiset(n: Node)
    ensures
        n.ids().to_multiset() == Node::occupant_ids(n.occupant).to_multiset().add(
            Node::opt_ids(n.top_left).to_multiset(),
        ).add(Node::opt_ids(n.top_right).to_multiset()).add(
            Node::opt_ids(n.bottom_left).to_multiset(),
        ).add(Node::opt_ids(n.bottom_right).to_multiset()),
{
    broadcast use {
        vstd::seq_lib::group_to_multiset_ensures,
        vstd::multiset::group_multiset_axioms,
        vstd::seq_lib::lemma_multiset_commutative,
    };

}

/// What the invariant says of each child slot, and how a walk through an
/// internal node goes on in the child of its quadrant.
pub proof fn lemma_child(n: Node, bodies: Seq<Body>, depth: int, max: int, i: int, p: Position)
    requires
        n.wf(bodies, depth, max),
        0 <= i < 4,
    ensures
        Node::opt_wf(n.child(i), n.rect.quadrant_rect(i), bodies, depth + 1, max),
        n.with_child(i, n.child(i)) == n,
        forall|c: Option<Box<Node>>|
            #[trigger] n.with_child(i, None).with_child(i, c) == n.with_child(i, c),
        forall|c: Option<Box<Node>>| #[trigger] n.with_child(i, c).child(i) == c,
        !n.is_leaf() ==> (n.can_place(bodies, depth, max, p) == Node::opt_can_place(
            n.child(n.rect.quadrant_of(p)),
            bodies,
            depth + 1,
            max,
            p,
        )),
        !n.is_leaf() ==> n.occupant is None,
{
}

/// Replacing a child of an internal node by one that holds the same bodies
/// and one more keeps the invariant and adds that body to the subtree.
pub proof fn lemma_with_child(
    n: Node,
    bodies: Seq<Body>,
    depth: int,
    max: int,
    i: int,
    c: Option<Box<Node>>,
    id: usize,
)
    requires
        n.wf(bodies, depth, max),
        !n.is_leaf(),
        0 <= i < 4,
        Node::opt_wf(c, n.rect.quadrant_rect(i), bodies, depth + 1, max),
        Node::opt_ids(c).to_multiset() == Node::opt_ids(n.child(i)).to_multiset().insert(id),
    ensures
        n.with_child(i, c).wf(bodies, depth, max),
        n.with_child(i, c).ids().to_multiset() == n.ids().to_multiset().insert(id),
        n.with_child(i, c).rect == n.rect,
        !n.with_child(i, c).is_leaf() || c is None,
{
    broadcast use {
        vstd::seq_lib::group_to_multiset_ensures,
        vstd::multiset::group_multiset_axioms,
        vstd::seq_lib::lemma_multiset_commutative,
    };

    lemma_ids_multiset(n);
    lemma_ids_multiset(n.with_child(i, c));
    assert(n.with_child(i, c).ids().to_multiset() =~= n.ids().to_multiset().insert(id));
    assert(n.with_child(i, c).ids().to_multiset().len() == n.ids().to_multiset().len() + 1);
    assert(n.with_child(i, c).ids().len() == n.ids().len() + 1);
}

/// A subtree that holds the bodies `a` and `b`, in `rect`, `depth` levels
/// below the root, split as far as needed to hold them apart.
fn build_pair(rect: Rect, depth: usize, max: usize, a: usize, b: usize, bodies: &Vec<Body>) -> (r:
    Result<Node, InsertError>)
    requires
        rect.wf(),
        depth <= max,
        a < bodies@.len(),
        b < bodies@.len(),
        rect.contains_spec(bodies@[a as int].position),
        rect.contains_spec(bodies@[b as int].position),
    ensures
        r is Ok <==> separable(
            rect,
            depth as int,
            max as int,
            bodies@[a as int].position,
            bodies@[b as int].position,
        ),
        r matches Ok(n) ==> {
            &&& n.rect == rect
            &&& n.occupant is None
            &&& n.wf(bodies@, depth as int, max as int)
            &&& n.ids().to_multiset() == Multiset::<usize>::empty().insert(a).insert(b)
            &&& n.ids().len() == 2
        },
        r matches Err(e) ==> e == InsertError::DepthExceeded,
    decreases max - depth,
{
    broadcast use {
        vstd::seq_lib::group_to_multiset_ensures,
        vstd::multiset::group_multiset_axioms,
        vstd::seq_lib::lemma_multiset_commutative,
    };

    if depth >= max {
        return Err(InsertError::DepthExceeded);
    }
    let pa = bodies[a].position;
    let pb = bodies[b].position;
    let qa = rect.quadrant(pa);
    let qb = rect.quadrant(pb);
    let quads = rect.split();
    proof {
        crate::geometry::lemma_quadrants_partition(rect, pa);
        crate::geometry::lemma_quadrants_partition(rect, pb);
        crate::geometry::lemma_quadrant_inside(rect, qa as int, pa);
        crate::geometry::lemma_quadrant_inside(rect, qb as int, pb);
    }
    let mut n = Node::new(None, rect);
    if qa != qb {
        let ca = Node::new(Some(a), quads[qa]);
        let cb = Node::new(Some(b), quads[qb]);
        assert(ca.ids() =~= seq![a]);
        assert(cb.ids() =~= seq![b]);
        assert(ca.wf(bodies@, depth + 1, max as int));
        assert(cb.wf(bodies@, depth + 1, max as int));
        n.put_child(qa, Some(Box::new(ca)));
        n.put_child(qb, Some(Box::new(cb)));
        proof {
            lemma_ids_multiset(n);
            assert(seq![a].to_multiset() =~= Multiset::<usize>::empty().insert(a)) by {
                assert(seq![a] =~= Seq::<usize>::empty().push(a));
            }
            assert(seq![b].to_multiset() =~= Multiset::<usize>::empty().insert(b)) by {
                assert(seq![b] =~= Seq::<usize>::empty().push(b));
            }
            assert(n.ids().to_multiset() =~= Multiset::<usize>::empty().insert(a).insert(b));
            assert(n.ids().len() == n.ids().to_multiset().len());
        }
        Ok(n)
    } else {
        match build_pair(quads[qa], depth + 1, max, a, b, bodies) {
            Ok(c) => {
                n.put_child(qa, Some(Box::new(c)));
                proof {
                    lemma_ids_multiset(n);
                    assert(n.ids().to_multiset() =~= c.ids().to_multiset());
                }
                Ok(n)
            },
            Err(e) => Err(e),
        }
    }
}

impl Node {
    /// Places body `id` in the subtree, whose root lies `depth` levels below
    /// the tree's root. An empty leaf takes it; a leaf with an occupant is
    /// split until the two fall in different quadrants, the occupant moving
    /// down; an internal node passes it to the child of its quadrant,
    /// creating that child if it is missing. Where that would need a node
    /// deeper than `max`, the subtree is left as it was.
    pub fn insert_body(&mut self, bodies: &Vec<Body>, id: usize, depth: usize, max: usize) -> (r:
        Result<(), InsertError>)
        requires
            old(self).wf(bodies@, depth as int, max as int),
            id < bodies@.len(),
            old(self).rect.contains_spec(bodies@[id as int].position),
        ensures
            r is Ok <==> old(self).can_place(
                bodies@,
                depth as int,
                max as int,
                bodies@[id as int].position,
            ),
            r is Ok ==> final(self).wf(bodies@, depth as int, max as int),
            r is Ok ==> final(self).ids().to_multiset() == old(self).ids().to_multiset().insert(id),
            r is Ok ==> final(self).ids().len() == old(self).ids().len() + 1,
            r is Ok ==> final(self).rect == old(self).rect,
            r is Err ==> r == Err::<(), InsertError>(InsertError::DepthExceeded),
            r is Err ==> *final(self) == *old(self),
        decreases *old(self),
    {
        broadcast use {
            vstd::seq_lib::group_to_multiset_ensures,
            vstd::multiset::group_multiset_axioms,
            vstd::seq_lib::lemma_multiset_commutative,
        };

        let p = bodies[id].position;
        if self.is_leaf_node() {
            match self.occupant {
                None => {
                    self.occupant = Some(id);
                    proof {
                        lemma_ids_multiset(*old(self));
                        lemma_ids_multiset(*self);
                        assert(seq![id] =~= Seq::<usize>::empty().push(id));
                    }
                    Ok(())
                },
                Some(a) => {
                    match build_pair(self.rect, depth, max, a, id, bodies) {
                        Ok(n) => {
                            proof {
                                lemma_ids_multiset(*old(self));
                                assert(seq![a] =~= Seq::<usize>::empty().push(a));
                                assert(old(self).ids() =~= seq![a]);
                            }
                            *self = n;
                            Ok(())
                        },
                        Err(e) => Err(e),
                    }
                },
            }
        } else {
            let q = self.rect.quadrant(p);
            proof {
                crate::geometry::lemma_quadrants_partition(self.rect, p);
                crate::geometry::lemma_quadrant_inside(self.rect, q as int, p);
                lemma_child(*old(self), bodies@, depth as int, max as int, q as int, p);
            }
            let slot = self.take_child(q);
            match slot {
                None => {
                    if depth >= max {
                        Err(InsertError::DepthExceeded)
                    } else {
                        let quads = self.rect.split();
                        let c = Node::new(Some(id), quads[q]);
                        assert(c.ids() =~= seq![id]);
                        assert(seq![id] =~= Seq::<usize>::empty().push(id));
                        assert(c.wf(bodies@, depth + 1, max as int));
                        self.put_child(q, Some(Box::new(c)));
                        proof {
                            lemma_with_child(
                                *old(self),
                                bodies@,
                                depth as int,
                                max as int,
                                q as int,
                                Some(Box::new(c)),
                                id,
                            );
                        }
                        Ok(())
                    }
                },
                Some(mut c) => {
                    let r = (&mut *c).insert_body(bodies, id, depth + 1, max);
                    self.put_child(q, Some(c));
                    proof {
                        if r is Ok {
                            lemma_with_child(
                                *old(self),
                                bodies@,
                                depth as int,
                                max as int,
                                q as int,
                                Some(c),
                                id,
                            );
                        }
                    }
                    r
                },
            }
        }
    }
}

/// Every body of a subtree is a stored body that lies in the subtree's
/// rectangle.
pub proof fn lemma_ids_inside(n: Node, bodies: Seq<Body>, depth: int, max: int)
    requires
        n.wf(bodies, depth, max),
    ensures
        forall|id: usize|
            #[trigger] n.ids().contains(id) ==> id < bodies.len() && n.rect.contains_spec(
                bodies[id as int].position,
            ),
    decreases n,
{
    broadcast use vstd::seq_lib::group_seq_properties;

    let r = n.rect;
    if let Some(c) = n.top_left {
        lemma_ids_inside(*c, bodies, depth + 1, max);
    }
    if let Some(c) = n.top_right {
        lemma_ids_inside(*c, bodies, depth + 1, max);
    }
    if let Some(c) = n.bottom_left {
        lemma_ids_inside(*c, bodies, depth + 1, max);
    }
    if let Some(c) = n.bottom_right {
        lemma_ids_inside(*c, bodies, depth + 1, max);
    }
    assert forall|id: usize| #[trigger] n.ids().contains(id) implies id < bodies.len()
        && r.contains_spec(bodies[id as int].position) by {
        let o = Node::occupant_ids(n.occupant);
        let s0 = Node::opt_ids(n.top_left);
        let s1 = Node::opt_ids(n.top_right);
        let s2 = Node::opt_ids(n.bottom_left);
        let s3 = Node::opt_ids(n.bottom_right);
        assert(n.ids() == o + s0 + s1 + s2 + s3);
        if o.contains(id) {
            assert(o[0] == id);
        } else {
            let p = bodies[id as int].position;
            if s0.contains(id) {
                assert(n.top_left.unwrap().ids().contains(id));
                crate::geometry::lemma_quadrant_inside(r, 0, p);
            } else if s1.contains(id) {
                assert(n.top_right.unwrap().ids().contains(id));
                crate::geometry::lemma_quadrant_inside(r, 1, p);
            } else if s2.contains(id) {
                assert(n.bottom_left.unwrap().ids().contains(id));
                crate::geometry::lemma_quadrant_inside(r, 2, p);
            } else {
                assert(s3.contains(id));
                assert(n.bottom_right.unwrap().ids().contains(id));
                crate::geometry::lemma_quadrant_inside(r, 3, p);
            }
        }
    }
}

/// No body of a subtree lies in a region that its rectangle does not meet.
pub proof fn lemma_filter_outside(n: Node, bodies: Seq<Body>, depth: int, max: int, region: Rect)
    requires
        n.wf(bodies, depth, max),
        !n.rect.intersects_spec(region),
    ensures
        n.ids().filter(in_region(bodies, region)) == Seq::<usize>::empty(),
{
    broadcast use vstd::seq_lib::group_filter_ensures;

    let pred = in_region(bodies, region);
    lemma_ids_inside(n, bodies, depth, max);
    let f = n.ids().filter(pred);
    if f.len() > 0 {
        assert(f.contains(f[0]));
        n.ids().lemma_filter_contains_rev(pred, f[0]);
        crate::geometry::lemma_disjoint_excludes(n.rect, region, bodies[f[0] as int].position);
    }
    assert(f =~= Seq::<usize>::empty());
}

/// Filtering a subtree's bodies filters its occupant and then each child.
pub proof fn lemma_filter_split(n: Node, pred: spec_fn(usize) -> bool)
    ensures
        n.ids().filter(pred) == Node::occupant_ids(n.occupant).filter(pred) + Node::opt_ids(
            n.top_left,
        ).filter(pred) + Node::opt_ids(n.top_right).filter(pred) + Node::opt_ids(
            n.bottom_left,
        ).filter(pred) + Node::opt_ids(n.bottom_right).filter(pred),
        n.occupant matches Some(a) ==> Node::occupant_ids(n.occupant).filter(pred) == (if pred(a) {
            seq![a]
        } else {
            Seq::<usize>::empty()
        }),
        n.occupant is None ==> Node::occupant_ids(n.occupant).filter(pred) == Seq::<usize>::empty(),
        forall|o: Option<Box<Node>>|
            o is None ==> #[trigger] Node::opt_ids(o).filter(pred) == Seq::<usize>::empty(),
{
    broadcast use Seq::filter_distributes_over_add;

    reveal_with_fuel(Seq::filter, 2);
    let o = Node::occupant_ids(n.occupant);
    if let Some(a) = n.occupant {
        assert(o.drop_last() =~= Seq::<usize>::empty());
        if pred(a) {
            assert(o.filter(pred) =~= seq![a]);
        } else {
            assert(o.filter(pred) =~= Seq::<usize>::empty());
        }
    }
}

/// The bodies of each child are bodies of the parent, and there are no
/// more of them.
pub proof fn lemma_children_below(n: Node, k: nat)
    requires
        n.ids_below(k),
    ensures
        n.occupant matches Some(a) ==> a < k,
        n.top_left matches Some(c) ==> c.ids_below(k) && c.ids().len() <= n.ids().len(),
        n.top_right matches Some(c) ==> c.ids_below(k) && c.ids().len() <= n.ids().len(),
        n.bottom_left matches Some(c) ==> c.ids_below(k) && c.ids().len() <= n.ids().len(),
        n.bottom_right matches Some(c) ==> c.ids_below(k) && c.ids().len() <= n.ids().len(),
{
    broadcast use vstd::seq_lib::lemma_seq_concat_contains_all_elements;

    let o = Node::occupant_ids(n.occupant);
    let s0 = Node::opt_ids(n.top_left);
    let s1 = Node::opt_ids(n.top_right);
    let s2 = Node::opt_ids(n.bottom_left);
    let s3 = Node::opt_ids(n.bottom_right);
    assert(n.ids() == o + s0 + s1 + s2 + s3);
    if let Some(a) = n.occupant {
        assert(o[0] == a);
        assert(o.contains(a));
        assert(n.ids().contains(a));
    }
    if let Some(c) = n.top_left {
        assert(s0 == c.ids());
        assert forall|id: usize| #[trigger] c.ids().contains(id) implies id < k by {
            assert(n.ids().contains(id));
        }
    }
    if let Some(c) = n.top_right {
        assert(s1 == c.ids());
        assert forall|id: usize| #[trigger] c.ids().contains(id) implies id < k by {
            assert(n.ids().contains(id));
        }
    }
    if let Some(c) = n.bottom_left {
        assert(s2 == c.ids());
        assert forall|id: usize| #[trigger] c.ids().contains(id) implies id < k by {
            assert(n.ids().contains(id));
        }
    }
    if let Some(c) = n.bottom_right {
        assert(s3 == c.ids());
        assert forall|id: usize| #[trigger] c.ids().contains(id) implies id < k by {
            assert(n.ids().contains(id));
        }
    }
}

/// Where `f` of each stored body lies within `[-bound, bound]`, its sum
/// over a subtree lies within the number of the subtree's bodies times
/// that.
pub proof fn lemma_weight_bound(n: Node, bodies: Seq<Body>, f: spec_fn(Body) -> int, bound: int)
    requires
        n.ids_below(bodies.len()),
        0 <= bound,
        forall|i: int| 0 <= i < bodies.len() ==> -bound <= #[trigger] f(bodies[i]) <= bound,
    ensures
        -(n.ids().len() * bound) <= n.weight(bodies, f) <= n.ids().len() * bound,
    decreases n,
{
    broadcast use vstd::seq_lib::lemma_seq_concat_contains_all_elements;

    let o = Node::occupant_ids(n.occupant);
    let s0 = Node::opt_ids(n.top_left);
    let s1 = Node::opt_ids(n.top_right);
    let s2 = Node::opt_ids(n.bottom_left);
    let s3 = Node::opt_ids(n.bottom_right);
    assert(n.ids() == o + s0 + s1 + s2 + s3);
    lemma_children_below(n, bodies.len());
    if let Some(c) = n.top_left {
        lemma_weight_bound(*c, bodies, f, bound);
    }
    if let Some(c) = n.top_right {
        lemma_weight_bound(*c, bodies, f, bound);
    }
    if let Some(c) = n.bottom_left {
        lemma_weight_bound(*c, bodies, f, bound);
    }
    if let Some(c) = n.bottom_right {
        lemma_weight_bound(*c, bodies, f, bound);
    }
    let w0 = Node::opt_weight(n.top_left, bodies, f);
    let w1 = Node::opt_weight(n.top_right, bodies, f);
    let w2 = Node::opt_weight(n.bottom_left, bodies, f);
    let w3 = Node::opt_weight(n.bottom_right, bodies, f);
    let wo = n.weight(bodies, f) - w0 - w1 - w2 - w3;
    if let Some(a) = n.occupant {
        assert(o.len() == 1);
        assert(wo == f(bodies[a as int]));
    } else {
        assert(o.len() == 0);
    }
    assert(-(o.len() * bound) <= wo <= o.len() * bound);
    assert(n.ids().len() * bound == o.len() * bound + s0.len() * bound + s1.len() * bound
        + s2.len() * bound + s3.len() * bound) by (nonlinear_arith)
        requires
            n.ids().len() == o.len() + s0.len() + s1.len() + s2.len() + s3.len(),
    ;
}

/// The three weights of a subtree within the bounds that its number of
/// bodies gives.
pub proof fn lemma_weight_bounds(n: Node, bodies: Seq<Body>)
    requires
        n.ids_below(bodies.len()),
    ensures
        0 <= n.weight(bodies, mass_weight()) <= n.ids().len() * mass_limit(),
        -(n.ids().len() * moment_limit()) <= n.weight(bodies, moment_x_weight()) <= n.ids().len()
            * moment_limit(),
        -(n.ids().len() * moment_limit()) <= n.weight(bodies, moment_y_weight()) <= n.ids().len()
            * moment_limit(),
{
    assert forall|i: int| 0 <= i < bodies.len() implies -moment_limit()
        <= #[trigger] moment_x_weight()(bodies[i]) <= moment_limit() by {
        let b = bodies[i];
        assert(b.mass * b.position.0 <= moment_limit() && b.mass * b.position.0 >= -moment_limit())
            by (nonlinear_arith)
            requires
                0 <= b.mass < mass_limit(),
                i32::MIN <= b.position.0 <= i32::MAX,
        ;
    }
    assert forall|i: int| 0 <= i < bodies.len() implies -moment_limit()
        <= #[trigger] moment_y_weight()(bodies[i]) <= moment_limit() by {
        let b = bodies[i];
        assert(b.mass * b.position.1 <= moment_limit() && b.mass * b.position.1 >= -moment_limit())
            by (nonlinear_arith)
            requires
                0 <= b.mass < mass_limit(),
                i32::MIN <= b.position.1 <= i32::MAX,
        ;
    }
    lemma_weight_bound(n, bodies, mass_weight(), mass_limit());
    lemma_weight_bound(n, bodies, moment_x_weight(), moment_limit());
    lemma_weight_bound(n, bodies, moment_y_weight(), moment_limit());
    lemma_weight_nonneg(n, bodies);
}

/// Masses are never negative, nor their sum over a subtree.
pub proof fn lemma_weight_nonneg(n: Node, bodies: Seq<Body>)
    ensures
        0 <= n.weight(bodies, mass_weight()),
    decreases n,
{
    if let Some(c) = n.top_left {
        lemma_weight_nonneg(*c, bodies);
    }
    if let Some(c) = n.top_right {
        lemma_weight_nonneg(*c, bodies);
    }
    if let Some(c) = n.bottom_left {
        lemma_weight_nonneg(*c, bodies);
    }
    if let Some(c) = n.bottom_right {
        lemma_weight_nonneg(*c, bodies);
    }
}

/// Five sums, each within its share of `n * bound` where the shares add
/// up to at most a store's length, add up within `i128` at every step.
pub proof fn lemma_partial_sums(
    w0: int,
    w1: int,
    w2: int,
    w3: int,
    w4: int,
    l0: int,
    l1: int,
    l2: int,
    l3: int,
    l4: int,
    bound: int,
)
    requires
        0 <= l0 && 0 <= l1 && 0 <= l2 && 0 <= l3 && 0 <= l4,
        l0 + l1 + l2 + l3 + l4 <= usize::MAX,
        0 <= bound <= moment_limit(),
        -(l0 * bound) <= w0 <= l0 * bound,
        -(l1 * bound) <= w1 <= l1 * bound,
        -(l2 * bound) <= w2 <= l2 * bound,
        -(l3 * bound) <= w3 <= l3 * bound,
        -(l4 * bound) <= w4 <= l4 * bound,
    ensures
        i128::MIN <= w0 + w1 <= i128::MAX,
        i128::MIN <= w0 + w1 + w2 <= i128::MAX,
        i128::MIN <= w0 + w1 + w2 + w3 <= i128::MAX,
        i128::MIN <= w0 + w1 + w2 + w3 + w4 <= i128::MAX,
{
    assert((l0 + l1 + l2 + l3 + l4) * bound == l0 * bound + l1 * bound + l2 * bound + l3 * bound
        + l4 * bound) by (nonlinear_arith);
    assert((l0 + l1 + l2 + l3 + l4) * bound <= usize::MAX * moment_limit()) by (nonlinear_arith)
        requires
            0 <= l0 + l1 + l2 + l3 + l4 <= usize::MAX,
            0 <= bound <= moment_limit(),
    ;
    assert(0 <= l0 * bound && 0 <= l1 * bound && 0 <= l2 * bound && 0 <= l3 * bound && 0 <= l4
        * bound) by (nonlinear_arith)
        requires
            0 <= l0 && 0 <= l1 && 0 <= l2 && 0 <= l3 && 0 <= l4 && 0 <= bound,
    ;
}

/// The largest mass of a body, plus one.
pub open spec fn mass_limit() -> int {
    0x1_0000_0000
}

/// A bound on the moment of one body.
pub open spec fn moment_limit() -> int {
    0x8000_0000_0000_0000
}

/// The invariant does not depend on bodies appended to the store.
pub proof fn lemma_wf_extend(n: Node, bodies: Seq<Body>, b: Body, depth: int, max: int)
    requires
        n.wf(bodies, depth, max),
    ensures
        n.wf(bodies.push(b), depth, max),
    decreases n,
{
    if let Some(c) = n.top_left {
        lemma_wf_extend(*c, bodies, b, depth + 1, max);
    }
    if let Some(c) = n.top_right {
        lemma_wf_extend(*c, bodies, b, depth + 1, max);
    }
    if let Some(c) = n.bottom_left {
        lemma_wf_extend(*c, bodies, b, depth + 1, max);
    }
    if let Some(c) = n.bottom_right {
        lemma_wf_extend(*c, bodies, b, depth + 1, max);
    }
}

/// Nor does whether a position can be placed.
pub proof fn lemma_can_place_extend(
    n: Node,
    bodies: Seq<Body>,
    b: Body,
    depth: int,
    max: int,
    p: Position,
)
    requires
        n.wf(bodies, depth, max),
    ensures
        n.can_place(bodies.push(b), depth, max, p) == n.can_place(bodies, depth, max, p),
    decreases n,
{
    if let Some(c) = n.top_left {
        lemma_can_place_extend(*c, bodies, b, depth + 1, max, p);
    }
    if let Some(c) = n.top_right {
        lemma_can_place_extend(*c, bodies, b, depth + 1, max, p);
    }
    if let Some(c) = n.bottom_left {
        lemma_can_place_extend(*c, bodies, b, depth + 1, max, p);
    }
    if let Some(c) = n.bottom_right {
        lemma_can_place_extend(*c, bodies, b, depth + 1, max, p);
    }
}

/// Whether the store's body `id` lies in `region`.
pub open spec fn in_region(bodies: Seq<Body>, region: Rect) -> spec_fn(usize) -> bool {
    |id: usize| region.contains_spec(bodies[id as int].position)
}

impl Node {
    /// Walks from this node towards `p`, following the quadrant that holds
    /// `p` at each internal node, and returns the occupant where it stops.
    pub(crate) fn find(
        &self,
        p: Position,
        Ghost(bodies): Ghost<Seq<Body>>,
        Ghost(depth): Ghost<int>,
        Ghost(max): Ghost<int>,
    ) -> (r: Option<usize>)
        requires
            self.wf(bodies, depth, max),
        ensures
            r == self.locate(p),
        decreases self,
    {
        if self.is_leaf_node() {
            self.occupant
        } else {
            let q = self.rect.quadrant(p);
            let c = if q == TOP_LEFT {
                &self.top_left
            } else if q == TOP_RIGHT {
                &self.top_right
            } else if q == BOTTOM_LEFT {
                &self.bottom_left
            } else {
                &self.bottom_right
            };
            proof {
                lemma_child(*self, bodies, depth, max, q as int, p);
            }
            match c {
                Some(c) => c.find(p, Ghost(bodies), Ghost(depth + 1), Ghost(max)),
                None => None,
            }
        }
    }
}

impl Node {
    /// Appends to `out`, in pre-order, the bodies of the subtree that lie
    /// in `region`, skipping every subtree whose rectangle does not meet it.
    pub(crate) fn query(
        &self,
        bodies: &Vec<Body>,
        region: &Rect,
        out: &mut Vec<usize>,
        Ghost(depth): Ghost<int>,
        Ghost(max): Ghost<int>,
    )
        requires
            self.wf(bodies@, depth, max),
        ensures
            final(out)@ == old(out)@ + self.ids().filter(in_region(bodies@, *region)),
        decreases self,
    {
        let ghost pred = in_region(bodies@, *region);
        if !self.rect.intersects(region) {
            proof {
                lemma_filter_outside(*self, bodies@, depth, max, *region);
                assert(out@ + self.ids().filter(pred) =~= out@);
            }
            return ;
        }
        proof {
            lemma_filter_split(*self, pred);
        }
        let ghost start = out@;
        let ghost f_occ = Node::occupant_ids(self.occupant).filter(pred);
        let ghost f0 = Node::opt_ids(self.top_left).filter(pred);
        let ghost f1 = Node::opt_ids(self.top_right).filter(pred);
        let ghost f2 = Node::opt_ids(self.bottom_left).filter(pred);
        let ghost f3 = Node::opt_ids(self.bottom_right).filter(pred);
        if let Some(a) = self.occupant {
            let pos = bodies[a].position;
            if region.contains(pos) {
                out.push(a);
            }
        }
        assert(out@ =~= start + f_occ);
        if let Some(c) = &self.top_left {
            c.query(bodies, region, out, Ghost(depth + 1), Ghost(max));
        }
        assert(out@ =~= start + f_occ + f0);
        if let Some(c) = &self.top_right {
            c.query(bodies, region, out, Ghost(depth + 1), Ghost(max));
        }
        assert(out@ =~= start + f_occ + f0 + f1);
        if let Some(c) = &self.bottom_left {
            c.query(bodies, region, out, Ghost(depth + 1), Ghost(max));
        }
        assert(out@ =~= start + f_occ + f0 + f1 + f2);
        if let Some(c) = &self.bottom_right {
            c.query(bodies, region, out, Ghost(depth + 1), Ghost(max));
        }
        assert(out@ =~= start + f_occ + f0 + f1 + f2 + f3);
        assert(f_occ + f0 + f1 + f2 + f3 =~= self.ids().filter(pred));
    }
}

/// The aggregate of one body.
fn body_aggregate(b: &Body) -> (r: Aggregate)
    ensures
        r.mass == mass_weight()(*b),
        r.moment_x == moment_x_weight()(*b),
        r.moment_y == moment_y_weight()(*b),
        0 <= r.mass < mass_limit(),
        -moment_limit() <= r.moment_x <= moment_limit(),
        -moment_limit() <= r.moment_y <= moment_limit(),
{
    let m = b.mass as i128;
    proof {
        assert(m * b.position.0 <= moment_limit() && m * b.position.0 >= -moment_limit())
            by (nonlinear_arith)
            requires
                0 <= m < mass_limit(),
                i32::MIN <= b.position.0 <= i32::MAX,
        ;
        assert(m * b.position.1 <= moment_limit() && m * b.position.1 >= -moment_limit())
            by (nonlinear_arith)
            requires
                0 <= m < mass_limit(),
                i32::MIN <= b.position.1 <= i32::MAX,
        ;
    }
    Aggregate {
        mass: m,
        moment_x: m * b.position.0 as i128,
        moment_y: m * b.position.1 as i128,
    }
}

impl Node {
    /// The mass and the first moments of the subtree's bodies, summed after
    /// the occupant's and the children's: the aggregate that a Barnes-Hut
    /// force pass reads at each node.
    #[verifier::rlimit(40)]
    pub fn aggregate(&self, bodies: &Vec<Body>) -> (r: Aggregate)
        requires
            self.ids_below(bodies@.len()),
            self.ids().len() <= bodies@.len(),
        ensures
            r.mass == self.weight(bodies@, mass_weight()),
            r.moment_x == self.weight(bodies@, moment_x_weight()),
            r.moment_y == self.weight(bodies@, moment_y_weight()),
        decreases self,
    {
        let ghost bs = bodies@;
        let stored = bodies.len();
        proof {
            lemma_children_below(*self, bs.len());
            assert(self.ids().len() <= stored);
        }
        let mut acc = Aggregate { mass: 0, moment_x: 0, moment_y: 0 };
        if let Some(a) = self.occupant {
            acc = body_aggregate(&bodies[a]);
        }
        let g0 = Node::opt_aggregate(&self.top_left, bodies);
        let g1 = Node::opt_aggregate(&self.top_right, bodies);
        let g2 = Node::opt_aggregate(&self.bottom_left, bodies);
        let g3 = Node::opt_aggregate(&self.bottom_right, bodies);
        proof {
            let lo = Node::occupant_ids(self.occupant).len() as int;
            let l0 = Node::opt_ids(self.top_left).len() as int;
            let l1 = Node::opt_ids(self.top_right).len() as int;
            let l2 = Node::opt_ids(self.bottom_left).len() as int;
            let l3 = Node::opt_ids(self.bottom_right).len() as int;
            assert(self.ids().len() == lo + l0 + l1 + l2 + l3);
            if let Some(a) = self.occupant {
                assert(lo == 1);
            }
            lemma_partial_sums(
                acc.mass as int,
                g0.mass as int,
                g1.mass as int,
                g2.mass as int,
                g3.mass as int,
                lo,
                l0,
                l1,
                l2,
                l3,
                mass_limit(),
            );
            lemma_partial_sums(
                acc.moment_x as int,
                g0.moment_x as int,
                g1.moment_x as int,
                g2.moment_x as int,
                g3.moment_x as int,
                lo,
                l0,
                l1,
                l2,
                l3,
                moment_limit(),
            );
            lemma_partial_sums(
                acc.moment_y as int,
                g0.moment_y as int,
                g1.moment_y as int,
                g2.moment_y as int,
                g3.moment_y as int,
                lo,
                l0,
                l1,
                l2,
                l3,
                moment_limit(),
            );
        }
        Aggregate {
            mass: acc.mass + g0.mass + g1.mass + g2.mass + g3.mass,
            moment_x: acc.moment_x + g0.moment_x + g1.moment_x + g2.moment_x + g3.moment_x,
            moment_y: acc.moment_y + g0.moment_y + g1.moment_y + g2.moment_y + g3.moment_y,
        }
    }

    fn opt_aggregate(o: &Option<Box<Node>>, bodies: &Vec<Body>) -> (r: Aggregate)
        requires
            Node::opt_ids(*o).len() <= bodies@.len(),
            o matches Some(c) ==> c.ids_below(bodies@.len()),
        ensures
            r.mass == Node::opt_weight(*o, bodies@, mass_weight()),
            r.moment_x == Node::opt_weight(*o, bodies@, moment_x_weight()),
            r.moment_y == Node::opt_weight(*o, bodies@, moment_y_weight()),
            o matches Some(c) ==> {
                &&& 0 <= r.mass <= c.ids().len() * mass_limit()
                &&& -(c.ids().len() * moment_limit()) <= r.moment_x <= c.ids().len()
                    * moment_limit()
                &&& -(c.ids().len() * moment_limit()) <= r.moment_y <= c.ids().len()
                    * moment_limit()
            },
            o is None ==> r.mass == 0 && r.moment_x == 0 && r.moment_y == 0,
        decreases o,
    {
        match o {
            Some(c) => {
                proof {
                    lemma_weight_bounds(**c, bodies@);
                }
                c.aggregate(bodies)
            },
            None => Aggregate { mass: 0, moment_x: 0, moment_y: 0 },
        }
    }
}

/// The sum of `f` over the bodies whose ids `ids` lists.
pub open spec fn sum_over(ids: Seq<usize>, bodies: Seq<Body>, f: spec_fn(Body) -> int) -> int
    decreases ids.len(),
{
    if ids.len() == 0 {
        0
    } else {
        f(bodies[ids[0] as int]) + sum_over(ids.drop_first(), bodies, f)
    }
}

/// A sum over two lists one after the other is the two sums added.
pub proof fn lemma_sum_concat(
    a: Seq<usize>,
    b: Seq<usize>,
    bodies: Seq<Body>,
    f: spec_fn(Body) -> int,
)
    ensures
        sum_over(a + b, bodies, f) == sum_over(a, bodies, f) + sum_over(b, bodies, f),
    decreases a.len(),
{
    if a.len() == 0 {
        assert(a + b =~= b);
    } else {
        assert((a + b).drop_first() =~= a.drop_first() + b);
        lemma_sum_concat(a.drop_first(), b, bodies, f);
    }
}

/// Taking one id out of the list takes its term out of the sum.
pub proof fn lemma_sum_remove(s: Seq<usize>, i: int, bodies: Seq<Body>, f: spec_fn(Body) -> int)
    requires
        0 <= i < s.len(),
    ensures
        sum_over(s, bodies, f) == f(bodies[s[i] as int]) + sum_over(s.remove(i), bodies, f),
{
    let a = s.take(i);
    let b = s.skip(i + 1);
    let one = seq![s[i]];
    assert(s =~= a + (one + b));
    assert(s.remove(i) =~= a + b);
    lemma_sum_concat(a, one + b, bodies, f);
    lemma_sum_concat(one, b, bodies, f);
    lemma_sum_concat(a, b, bodies, f);
    assert(one.drop_first() =~= Seq::<usize>::empty());
    reveal_with_fuel(sum_over, 2);
}

/// Sums over two lists of the same ids, in any order, agree.
pub proof fn lemma_sum_permutation(
    s: Seq<usize>,
    t: Seq<usize>,
    bodies: Seq<Body>,
    f: spec_fn(Body) -> int,
)
    requires
        s.to_multiset() == t.to_multiset(),
    ensures
        sum_over(s, bodies, f) == sum_over(t, bodies, f),
    decreases s.len(),
{
    broadcast use {
        vstd::seq_lib::group_to_multiset_ensures,
        vstd::multiset::group_multiset_axioms,
    };

    if s.len() == 0 {
        assert(t.to_multiset().len() == 0);
        assert(t.len() == 0);
    } else {
        let x = s[0];
        assert(s.to_multiset().count(x) > 0);
        assert(t.contains(x));
        let i = choose|i: int| 0 <= i < t.len() && t[i] == x;
        assert(s =~= s.drop_first().insert(0, x));
        assert(s.remove(0) =~= s.drop_first());
        assert(s.drop_first().to_multiset() =~= s.to_multiset().remove(x));
        assert(t.remove(i).to_multiset() =~= t.to_multiset().remove(x));
        lemma_sum_permutation(s.drop_first(), t.remove(i), bodies, f);
        lemma_sum_remove(t, i, bodies, f);
    }
}

/// The weight of a subtree is the sum over its bodies.
pub proof fn lemma_weight_is_sum(n: Node, bodies: Seq<Body>, f: spec_fn(Body) -> int)
    ensures
        n.weight(bodies, f) == sum_over(n.ids(), bodies, f),
    decreases n,
{
    let o = Node::occupant_ids(n.occupant);
    let s0 = Node::opt_ids(n.top_left);
    let s1 = Node::opt_ids(n.top_right);
    let s2 = Node::opt_ids(n.bottom_left);
    let s3 = Node::opt_ids(n.bottom_right);
    if let Some(c) = n.top_left {
        lemma_weight_is_sum(*c, bodies, f);
    }
    if let Some(c) = n.top_right {
        lemma_weight_is_sum(*c, bodies, f);
    }
    if let Some(c) = n.bottom_left {
        lemma_weight_is_sum(*c, bodies, f);
    }
    if let Some(c) = n.bottom_right {
        lemma_weight_is_sum(*c, bodies, f);
    }
    reveal_with_fuel(sum_over, 2);
    if let Some(a) = n.occupant {
        assert(o.drop_first() =~= Seq::<usize>::empty());
    }
    lemma_sum_concat(o, s0, bodies, f);
    lemma_sum_concat(o + s0, s1, bodies, f);
    lemma_sum_concat(o + s0 + s1, s2, bodies, f);
    lemma_sum_concat(o + s0 + s1 + s2, s3, bodies, f);
}

/// The bodies of a child are bodies of its parent, and a leaf holds just
/// its occupant.
pub proof fn lemma_child_ids(n: Node)
    ensures
        n.is_leaf() ==> n.ids() == Node::occupant_ids(n.occupant),
        forall|i: int, x: usize|
            0 <= i < 4 && n.child(i) is Some && #[trigger] n.child(i).unwrap().ids().contains(x)
                ==> n.ids().contains(x),
{
    broadcast use vstd::seq_lib::lemma_seq_concat_contains_all_elements;

    let o = Node::occupant_ids(n.occupant);
    let s0 = Node::opt_ids(n.top_left);
    let s1 = Node::opt_ids(n.top_right);
    let s2 = Node::opt_ids(n.bottom_left);
    let s3 = Node::opt_ids(n.bottom_right);
    assert(n.ids() == o + s0 + s1 + s2 + s3);
    if n.is_leaf() {
        assert(n.ids() =~= o);
    }
    assert forall|i: int, x: usize|
        0 <= i < 4 && n.child(i) is Some && #[trigger] n.child(i).unwrap().ids().contains(
            x,
        ) implies n.ids().contains(x) by {
        let c = n.child(i).unwrap();
        if i == 0 {
            assert(s0.contains(x));
        } else if i == 1 {
            assert(s1.contains(x));
        } else if i == 2 {
            assert(s2.contains(x));
        } else {
            assert(s3.contains(x));
        }
    }
}

/// A body of an internal node lies in one of its children, the one of the
/// quadrant of its position.
pub proof fn lemma_body_in_child(n: Node, bodies: Seq<Body>, depth: int, max: int, a: usize)
    requires
        n.wf(bodies, depth, max),
        !n.is_leaf(),
        n.ids().contains(a),
    ensures
        n.child(n.rect.quadrant_of(bodies[a as int].position)) matches Some(c) && c.ids().contains(
            a,
        ),
{
    broadcast use vstd::seq_lib::lemma_seq_concat_contains_all_elements;

    let p = bodies[a as int].position;
    let o = Node::occupant_ids(n.occupant);
    let s0 = Node::opt_ids(n.top_left);
    let s1 = Node::opt_ids(n.top_right);
    let s2 = Node::opt_ids(n.bottom_left);
    let s3 = Node::opt_ids(n.bottom_right);
    assert(n.ids() == o + s0 + s1 + s2 + s3);
    assert(n.occupant is None);
    assert(!o.contains(a));
    crate::geometry::lemma_quadrants_partition(n.rect, p);
    if s0.contains(a) {
        let c = *n.top_left.unwrap();
        assert(c.ids().contains(a));
        lemma_ids_inside(c, bodies, depth + 1, max);
        assert(n.rect.quadrant_rect(0).contains_spec(p));
    } else if s1.contains(a) {
        let c = *n.top_right.unwrap();
        assert(c.ids().contains(a));
        lemma_ids_inside(c, bodies, depth + 1, max);
        assert(n.rect.quadrant_rect(1).contains_spec(p));
    } else if s2.contains(a) {
        let c = *n.bottom_left.unwrap();
        assert(c.ids().contains(a));
        lemma_ids_inside(c, bodies, depth + 1, max);
        assert(n.rect.quadrant_rect(2).contains_spec(p));
    } else {
        assert(s3.contains(a));
        let c = *n.bottom_right.unwrap();
        assert(c.ids().contains(a));
        lemma_ids_inside(c, bodies, depth + 1, max);
        assert(n.rect.quadrant_rect(3).contains_spec(p));
    }
}

/// The walk towards a body's position ends at the leaf that holds it.
pub proof fn lemma_locate_finds(n: Node, bodies: Seq<Body>, depth: int, max: int, a: usize)
    requires
        n.wf(bodies, depth, max),
        n.ids().contains(a),
    ensures
        n.locate(bodies[a as int].position) == Some(a),
    decreases n,
{
    lemma_child_ids(n);
    let p = bodies[a as int].position;
    if n.is_leaf() {
        let o = Node::occupant_ids(n.occupant);
        assert(o.contains(a));
        assert(n.occupant == Some(a));
    } else {
        lemma_body_in_child(n, bodies, depth, max, a);
        let q = n.rect.quadrant_of(p);
        lemma_child(n, bodies, depth, max, q, p);
        let c = n.child(q).unwrap();
        lemma_locate_finds(*c, bodies, depth + 1, max, a);
    }
}

/// Two bodies at one position are never held apart.
pub proof fn lemma_separable_same(rect: Rect, depth: int, max: int, p: Position)
    ensures
        !separable(rect, depth, max, p, p),
    decreases max - depth,
{
    if depth < max {
        lemma_separable_same(rect.quadrant_rect(rect.quadrant_of(p)), depth + 1, max, p);
    }
}

/// A body cannot be placed where a stored body has the same position.
pub proof fn lemma_same_position_blocks(n: Node, bodies: Seq<Body>, depth: int, max: int, a: usize)
    requires
        n.wf(bodies, depth, max),
        n.ids().contains(a),
    ensures
        !n.can_place(bodies, depth, max, bodies[a as int].position),
    decreases n,
{
    lemma_child_ids(n);
    let p = bodies[a as int].position;
    if n.is_leaf() {
        let o = Node::occupant_ids(n.occupant);
        assert(o.contains(a));
        assert(n.occupant == Some(a));
        lemma_separable_same(n.rect, depth, max, p);
    } else {
        lemma_body_in_child(n, bodies, depth, max, a);
        let q = n.rect.quadrant_of(p);
        lemma_child(n, bodies, depth, max, q, p);
        let c = n.child(q).unwrap();
        lemma_same_position_blocks(*c, bodies, depth + 1, max, a);
    }
}

/// A rectangle at most `2^k` wide and high, `k >= 1`, has quadrants at
/// most `2^(k-1)` wide and high.
pub proof fn lemma_quadrant_halves(r: Rect, k: nat, i: int)
    requires
        r.wf(),
        k >= 1,
        r.w <= pow2(k),
        r.h <= pow2(k),
        0 <= i < 4,
    ensures
        r.quadrant_rect(i).w <= pow2((k - 1) as nat),
        r.quadrant_rect(i).h <= pow2((k - 1) as nat),
{
    lemma_pow2_unfold(k);
}

/// Two distinct points of a rectangle at most `2^(max - depth)` wide and
/// high are held apart within the depth limit.
pub proof fn lemma_separable_distinct(rect: Rect, depth: int, max: int, a: Position, b: Position)
    requires
        rect.wf(),
        0 <= depth <= max,
        rect.contains_spec(a),
        rect.contains_spec(b),
        a != b,
        rect.w <= pow2((max - depth) as nat),
        rect.h <= pow2((max - depth) as nat),
    ensures
        separable(rect, depth, max, a, b),
    decreases max - depth,
{
    if depth >= max {
        assert(pow2(0) == 1) by {
            vstd::arithmetic::power2::lemma_pow2(0);
            vstd::arithmetic::power::lemma_pow0(2);
        }
        assert(false);
    } else if rect.quadrant_of(a) == rect.quadrant_of(b) {
        let q = rect.quadrant_of(a);
        crate::geometry::lemma_quadrants_partition(rect, a);
        crate::geometry::lemma_quadrants_partition(rect, b);
        crate::geometry::lemma_quadrant_inside(rect, q, a);
        lemma_quadrant_halves(rect, (max - depth) as nat, q);
        lemma_separable_distinct(rect.quadrant_rect(q), depth + 1, max, a, b);
    }
}

/// Within a rectangle at most `2^(max - depth)` wide and high, a position
/// that no body of the subtree has can always be placed.
pub proof fn lemma_distinct_can_place(n: Node, bodies: Seq<Body>, depth: int, max: int, p: Position)
    requires
        n.wf(bodies, depth, max),
        n.rect.contains_spec(p),
        n.rect.w <= pow2((max - depth) as nat),
        n.rect.h <= pow2((max - depth) as nat),
        forall|a: usize| #[trigger] n.ids().contains(a) ==> bodies[a as int].position != p,
    ensures
        n.can_place(bodies, depth, max, p),
    decreases n,
{
    lemma_child_ids(n);
    lemma_ids_inside(n, bodies, depth, max);
    if n.is_leaf() {
        if let Some(a) = n.occupant {
            let o = Node::occupant_ids(n.occupant);
            assert(o[0] == a);
            assert(o.contains(a));
            lemma_separable_distinct(n.rect, depth, max, bodies[a as int].position, p);
        }
    } else {
        let q = n.rect.quadrant_of(p);
        crate::geometry::lemma_quadrants_partition(n.rect, p);
        lemma_child(n, bodies, depth, max, q, p);
        assert(depth + 1 <= max) by {
            if n.top_left is Some {
                lemma_child(n, bodies, depth, max, 0, p);
            } else if n.top_right is Some {
                lemma_child(n, bodies, depth, max, 1, p);
            } else if n.bottom_left is Some {
                lemma_child(n, bodies, depth, max, 2, p);
            } else {
                lemma_child(n, bodies, depth, max, 3, p);
            }
        }
        if let Some(c) = n.child(q) {
            lemma_quadrant_halves(n.rect, (max - depth) as nat, q);
            assert(((max - depth) - 1) as nat == (max - (depth + 1)) as nat);
            assert forall|a: usize| #[trigger] c.ids().contains(a) implies bodies[a as int].position
                != p by {
                assert(n.ids().contains(a));
            }
            lemma_distinct_can_place(*c, bodies, depth + 1, max, p);
        }
    }
}

/// Two points of a rectangle `depth` levels down are held apart within
/// the depth limit exactly when their cells at the depth limit differ.
pub proof fn lemma_separable_iff_cells(rect: Rect, depth: int, max: int, a: Position, b: Position)
    requires
        rect.wf(),
        0 <= depth <= max,
        rect.contains_spec(a),
        rect.contains_spec(b),
    ensures
        separable(rect, depth, max, a, b) <==> cell_at(rect, a, (max - depth) as nat) != cell_at(
            rect,
            b,
            (max - depth) as nat,
        ),
    decreases max - depth,
{
    let k = (max - depth) as nat;
    if depth < max {
        let qa = rect.quadrant_of(a);
        if qa != rect.quadrant_of(b) {
            if cell_at(rect, a, k) == cell_at(rect, b, k) {
                lemma_same_cell_same_quadrant(rect, a, b, k);
            }
        } else {
            crate::geometry::lemma_quadrants_partition(rect, a);
            crate::geometry::lemma_quadrants_partition(rect, b);
            crate::geometry::lemma_quadrant_inside(rect, qa, a);
            assert((k - 1) as nat == (max - (depth + 1)) as nat);
            lemma_separable_iff_cells(rect.quadrant_rect(qa), depth + 1, max, a, b);
        }
    }
}

/// Whether a body of the subtree has the cell of `p` at the depth limit.
pub open spec fn shares_cell(
    n: Node,
    bodies: Seq<Body>,
    depth: int,
    max: int,
    p: Position,
) -> bool {
    let k = (max - depth) as nat;
    exists|a: usize|
        #[trigger] n.ids().contains(a) && cell_at(n.rect, bodies[a as int].position, k) == cell_at(
            n.rect,
            p,
            k,
        )
}

/// A position of the subtree's rectangle can be placed exactly when no
/// body of the subtree has its cell at the depth limit.
pub proof fn lemma_can_place_iff_cell_free(
    n: Node,
    bodies: Seq<Body>,
    depth: int,
    max: int,
    p: Position,
)
    requires
        n.wf(bodies, depth, max),
        n.rect.contains_spec(p),
    ensures
        n.can_place(bodies, depth, max, p) <==> !shares_cell(n, bodies, depth, max, p),
    decreases n,
{
    lemma_child_ids(n);
    lemma_ids_inside(n, bodies, depth, max);
    let k = (max - depth) as nat;
    if n.is_leaf() {
        if let Some(a) = n.occupant {
            let o = Node::occupant_ids(n.occupant);
            assert(o[0] == a);
            assert(o.contains(a));
            lemma_separable_iff_cells(n.rect, depth, max, bodies[a as int].position, p);
            assert forall|x: usize| #[trigger] n.ids().contains(x) implies x == a by {}
        } else {
            assert(n.ids().len() == 0);
        }
    } else {
        let q = n.rect.quadrant_of(p);
        crate::geometry::lemma_quadrants_partition(n.rect, p);
        crate::geometry::lemma_quadrant_inside(n.rect, q, p);
        lemma_child(n, bodies, depth, max, q, p);
        assert(depth + 1 <= max) by {
            if n.top_left is Some {
                lemma_child(n, bodies, depth, max, 0, p);
            } else if n.top_right is Some {
                lemma_child(n, bodies, depth, max, 1, p);
            } else if n.bottom_left is Some {
                lemma_child(n, bodies, depth, max, 2, p);
            } else {
                lemma_child(n, bodies, depth, max, 3, p);
            }
        }
        let qr = n.rect.quadrant_rect(q);
        assert((k - 1) as nat == (max - (depth + 1)) as nat);
        assert(cell_at(n.rect, p, k) == cell_at(qr, p, (k - 1) as nat));
        // a body with the cell of `p` lies in the child of `p`'s quadrant
        assert forall|a: usize|
            #[trigger] n.ids().contains(a) && cell_at(n.rect, bodies[a as int].position, k)
                == cell_at(n.rect, p, k) implies n.child(q) is Some && n.child(
            q,
        ).unwrap().ids().contains(a) && cell_at(qr, bodies[a as int].position, (k - 1) as nat)
            == cell_at(qr, p, (k - 1) as nat) by {
            let pa = bodies[a as int].position;
            lemma_same_cell_same_quadrant(n.rect, pa, p, k);
            lemma_body_in_child(n, bodies, depth, max, a);
        }
        if let Some(c) = n.child(q) {
            lemma_can_place_iff_cell_free(*c, bodies, depth + 1, max, p);
            // and a body of that child with the cell of `p` is one of the node
            assert forall|a: usize|
                #[trigger] c.ids().contains(a) && cell_at(
                    qr,
                    bodies[a as int].position,
                    (k - 1) as nat,
                ) == cell_at(qr, p, (k - 1) as nat) implies n.ids().contains(a) && cell_at(
                n.rect,
                bodies[a as int].position,
                k,
            ) == cell_at(n.rect, p, k) by {
                let pa = bodies[a as int].position;
                lemma_ids_inside(*c, bodies, depth + 1, max);
                crate::geometry::lemma_quadrants_partition(n.rect, pa);
                assert(n.ids().contains(a));
            }
        }
    }
}

} // verus!
