//! The quadtree: a body store and the root node over a bounding rectangle.
use vstd::prelude::*;
use crate::body::{Aggregate, Body, mass_weight, moment_x_weight, moment_y_weight};
use crate::geometry::{cell_at, Position, Rect};
use vstd::arithmetic::power2::pow2;
use crate::node::{
    in_region, sum_over, shares_cell, lemma_can_place_iff_cell_free, lemma_distinct_can_place,
    lemma_ids_inside, lemma_locate_finds,
    lemma_same_position_blocks, InsertError, Node,
};

verus! {

/// The depth limit that a simulation uses unless it asks for another.
pub const DEFAULT_MAX_DEPTH: usize = 8;

/// How many bodies the store makes room for when a tree is made.
pub const DEFAULT_CAPACITY: usize = 100;

/// A quadtree over a fixed bounding rectangle. It owns the bodies, in the
/// order of insertion, and the nodes, which refer to bodies by index.
#[derive(Debug)]
pub struct QuadTree {
    root: Node,
    bodies: Vec<Body>,
    max_depth: usize,
}

impl QuadTree {
    pub closed spec fn root_node(self) -> Node {
        self.root
    }

    /// The bodies, in the order of insertion; a body's index is its id.
    pub closed spec fn body_seq(self) -> Seq<Body> {
        self.bodies@
    }

    pub closed spec fn depth_limit(self) -> int {
        self.max_depth as int
    }

    pub open spec fn bounds_spec(self) -> Rect {
        self.root_node().rect
    }

    /// The root covers the bounds and holds the node invariant with no node
    /// deeper than the limit, and each stored body is in the tree exactly
    /// once.
    pub open spec fn wf(self) -> bool {
        &&& self.root_node().wf(self.body_seq(), 0, self.depth_limit())
        &&& self.root_node().ids().len() == self.body_seq().len()
        &&& forall|id: usize| #[trigger]
            self.root_node().ids().to_multiset().count(id) == if id < self.body_seq().len() {
                1nat
            } else {
                0nat
            }
    }

    /// Whether a body at `p` can be inserted: `p` is within bounds and the
    /// walk towards it ends where it can be placed within the depth limit.
    pub open spec fn can_insert(self, p: Position) -> bool {
        &&& self.bounds_spec().contains_spec(p)
        &&& self.root_node().can_place(self.body_seq(), 0, self.depth_limit(), p)
    }

    /// The ids that a range query over `region` yields: those of the bodies
    /// in `region`, in pre-order of the nodes that hold them.
    pub open spec fn query_spec(self, region: Rect) -> Seq<usize> {
        self.root_node().ids().filter(in_region(self.body_seq(), region))
    }

    /// An empty tree over `bounds`, whose nodes lie at most `max_depth`
    /// levels below the root. Bounds with no area, or whose far edges leave
    /// `i32`, are refused.
    pub fn new(bounds: Rect, max_depth: usize) -> (r: Result<QuadTree, InsertError>)
        ensures
            r is Err <==> !(bounds.wf() && bounds.w > 0 && bounds.h > 0),
            r matches Err(e) ==> e == InsertError::InvalidRect,
            r matches Ok(t) ==> {
                &&& t.wf()
                &&& t.bounds_spec() == bounds
                &&& t.depth_limit() == max_depth
                &&& t.body_seq() == Seq::<Body>::empty()
                &&& t.root_node().is_leaf()
                &&& t.root_node().occupant is None
            },
    {
        if bounds.w <= 0 || bounds.h <= 0 || bounds.x as i64 + bounds.w as i64 > i32::MAX as i64
            || bounds.y as i64 + bounds.h as i64 > i32::MAX as i64 {
            return Err(InsertError::InvalidRect);
        }
        let t = QuadTree {
            root: Node::new(None, bounds),
            bodies: Vec::with_capacity(DEFAULT_CAPACITY),
            max_depth,
        };
        proof {
            broadcast use {
                vstd::seq_lib::group_to_multiset_ensures,
                vstd::multiset::group_multiset_axioms,
            };

            assert(t.root.ids() =~= Seq::<usize>::empty());
        }
        Ok(t)
    }

    pub fn bounds(&self) -> (r: Rect)
        ensures
            r == self.bounds_spec(),
    {
        self.root.rect
    }

    pub fn max_depth(&self) -> (r: usize)
        ensures
            r == self.depth_limit(),
    {
        self.max_depth
    }

    /// The root node, from which a force pass can walk the tree.
    pub fn root(&self) -> (r: &Node)
        ensures
            *r == self.root_node(),
    {
        &self.root
    }

    /// The body store, indexed by id.
    pub fn bodies(&self) -> (r: &Vec<Body>)
        ensures
            r@ == self.body_seq(),
    {
        &self.bodies
    }

    /// The number of bodies stored.
    pub fn len(&self) -> (r: usize)
        ensures
            r == self.body_seq().len(),
    {
        self.bodies.len()
    }

    /// The body with id `id`, if there is one.
    pub fn body(&self, id: usize) -> (r: Option<Body>)
        ensures
            id < self.body_seq().len() ==> r == Some(self.body_seq()[id as int]),
            id >= self.body_seq().len() ==> r is None,
    {
        if id < self.bodies.len() {
            Some(self.bodies[id])
        } else {
            None
        }
    }

    /// Stores `body` and places it in the tree; returns its id, the number
    /// of bodies stored before it. A body outside the bounds is refused with
    /// `OutOfBounds`; one that could only be placed deeper than the limit,
    /// with `DepthExceeded`. On failure the tree is left as it was.
    pub fn insert(&mut self, body: Body) -> (r: Result<usize, InsertError>)
        requires
            old(self).wf(),
            body.mass > 0,
        ensures
            final(self).wf(),
            r is Ok <==> old(self).can_insert(body.position),
            r == Err::<usize, InsertError>(InsertError::OutOfBounds) <==> !old(
                self,
            ).bounds_spec().contains_spec(body.position),
            r is Err ==> final(self).root_node() == old(self).root_node() && final(self).body_seq()
                == old(self).body_seq() && final(self).depth_limit() == old(self).depth_limit(),
            r matches Err(e) ==> e != InsertError::InvalidRect,
            r matches Ok(id) ==> {
                &&& id == old(self).body_seq().len()
                &&& final(self).body_seq() == old(self).body_seq().push(body)
                &&& final(self).root_node().ids().to_multiset() == old(
                    self,
                ).root_node().ids().to_multiset().insert(id)
                &&& final(self).bounds_spec() == old(self).bounds_spec()
                &&& final(self).depth_limit() == old(self).depth_limit()
            },
    {
        if !self.root.rect.contains(body.position) {
            return Err(InsertError::OutOfBounds);
        }
        let id = self.bodies.len();
        let ghost old_bodies = self.bodies@;
        self.bodies.push(body);
        proof {
            crate::node::lemma_wf_extend(self.root, old_bodies, body, 0, self.max_depth as int);
            crate::node::lemma_can_place_extend(
                self.root,
                old_bodies,
                body,
                0,
                self.max_depth as int,
                body.position,
            );
        }
        match self.root.insert_body(&self.bodies, id, 0, self.max_depth) {
            Ok(()) => {
                proof {
                    broadcast use {
                        vstd::seq_lib::group_to_multiset_ensures,
                        vstd::multiset::group_multiset_axioms,
                    };

                    let ms = self.root.ids().to_multiset();
                    assert(self.root.ids().len() == ms.len());
                    assert(old(self).root.ids().len() == old(self).root.ids().to_multiset().len());
                }
                Ok(id)
            },
            Err(e) => {
                self.bodies.pop();
                proof {
                    assert(self.bodies@ =~= old_bodies);
                }
                Err(e)
            },
        }
    }

    /// The occupant of the node that a walk from the root reaches by
    /// following the quadrant of `p` at each level.
    pub fn find(&self, p: Position) -> (r: Option<usize>)
        requires
            self.wf(),
        ensures
            r == self.root_node().locate(p),
    {
        self.root.find(p, Ghost(self.bodies@), Ghost(0), Ghost(self.max_depth as int))
    }

    /// The ids of the bodies that lie in `region`, each once, skipping the
    /// subtrees whose rectangles do not meet it.
    pub fn query_range(&self, region: &Rect) -> (r: Vec<usize>)
        requires
            self.wf(),
        ensures
            r@ == self.query_spec(*region),
    {
        let mut out: Vec<usize> = Vec::new();
        self.root.query(&self.bodies, region, &mut out, Ghost(0), Ghost(self.max_depth as int));
        assert(out@ =~= self.query_spec(*region));
        out
    }

    /// The total mass and first moments of all the bodies, summed over the
    /// nodes from the leaves up.
    pub fn aggregate(&self) -> (r: Aggregate)
        requires
            self.wf(),
        ensures
            r.mass == self.root_node().weight(self.body_seq(), mass_weight()),
            r.moment_x == self.root_node().weight(self.body_seq(), moment_x_weight()),
            r.moment_y == self.root_node().weight(self.body_seq(), moment_y_weight()),
            r.mass == sum_over(first_ids(self.body_seq().len()), self.body_seq(), mass_weight()),
            r.moment_x == sum_over(
                first_ids(self.body_seq().len()),
                self.body_seq(),
                moment_x_weight(),
            ),
            r.moment_y == sum_over(
                first_ids(self.body_seq().len()),
                self.body_seq(),
                moment_y_weight(),
            ),
    {
        let stored = self.bodies.len();
        proof {
            assert(self.body_seq().len() == stored);
            crate::node::lemma_ids_inside(self.root, self.bodies@, 0, self.max_depth as int);
            lemma_root_weight_is_store_total(*self, mass_weight());
            lemma_root_weight_is_store_total(*self, moment_x_weight());
            lemma_root_weight_is_store_total(*self, moment_y_weight());
        }
        self.root.aggregate(&self.bodies)
    }
}

/// Each stored body is in the tree.
proof fn lemma_stored_in_tree(t: QuadTree, id: usize)
    requires
        t.wf(),
        id < t.body_seq().len(),
    ensures
        t.root_node().ids().contains(id),
{
    broadcast use vstd::seq_lib::group_to_multiset_ensures;

    assert(t.root_node().ids().to_multiset().count(id) == 1);
}

/// The walk from the root that follows, at each level, the quadrant that
/// holds a stored body's position ends at the leaf whose occupant is that
/// body.
pub proof fn lemma_walk_finds_every_body(t: QuadTree, id: usize)
    requires
        t.wf(),
        id < t.body_seq().len(),
    ensures
        t.root_node().locate(t.body_seq()[id as int].position) == Some(id),
{
    lemma_stored_in_tree(t, id);
    lemma_locate_finds(t.root_node(), t.body_seq(), 0, t.depth_limit(), id);
}

/// A body at the very position of a stored body lies within bounds and
/// cannot be inserted, whatever the depth limit: `insert` refuses it with
/// `DepthExceeded` and leaves the tree as it was.
pub proof fn lemma_coincident_position_refused(t: QuadTree, id: usize)
    requires
        t.wf(),
        id < t.body_seq().len(),
    ensures
        t.bounds_spec().contains_spec(t.body_seq()[id as int].position),
        !t.can_insert(t.body_seq()[id as int].position),
{
    lemma_stored_in_tree(t, id);
    lemma_ids_inside(t.root_node(), t.body_seq(), 0, t.depth_limit());
    lemma_same_position_blocks(t.root_node(), t.body_seq(), 0, t.depth_limit(), id);
}

/// Where the bounds are at most `2^max_depth` wide and high, a body within
/// bounds at a position that no stored body has can always be inserted;
/// since the bounds and the limit never change, so can any number of
/// bodies at distinct positions.
pub proof fn lemma_distinct_position_accepted(t: QuadTree, p: Position)
    requires
        t.wf(),
        t.bounds_spec().contains_spec(p),
        t.bounds_spec().w <= pow2(t.depth_limit() as nat),
        t.bounds_spec().h <= pow2(t.depth_limit() as nat),
        forall|id: int| 0 <= id < t.body_seq().len() ==> #[trigger] t.body_seq()[id].position != p,
    ensures
        t.can_insert(p),
{
    let n = t.root_node();
    lemma_ids_inside(n, t.body_seq(), 0, t.depth_limit());
    assert forall|a: usize| #[trigger] n.ids().contains(a) implies t.body_seq()[a as int].position
        != p by {
        assert(a < t.body_seq().len());
    }
    lemma_distinct_can_place(n, t.body_seq(), 0, t.depth_limit(), p);
}

/// A body within bounds is refused, with `DepthExceeded`, exactly when a
/// stored body lies in its cell at the depth limit: the cell that
/// `max_depth` splits of the bounds, each time into the quadrant that
/// holds the position, leave around it. So bodies whose cells at the depth
/// limit are pairwise distinct are all accepted, in any order.
pub proof fn lemma_insert_refused_iff_shared_cell(t: QuadTree, p: Position)
    requires
        t.wf(),
        t.bounds_spec().contains_spec(p),
    ensures
        !t.can_insert(p) <==> exists|i: usize|
            i < t.body_seq().len() && cell_at(
                t.bounds_spec(),
                #[trigger] t.body_seq()[i as int].position,
                t.depth_limit() as nat,
            ) == cell_at(t.bounds_spec(), p, t.depth_limit() as nat),
{
    let n = t.root_node();
    let b = t.body_seq();
    let d = t.depth_limit() as nat;
    lemma_can_place_iff_cell_free(n, b, 0, t.depth_limit(), p);
    lemma_ids_inside(n, b, 0, t.depth_limit());
    assert((t.depth_limit() - 0) as nat == d);
    if shares_cell(n, b, 0, t.depth_limit(), p) {
        let a = choose|a: usize|
            #[trigger] n.ids().contains(a) && cell_at(n.rect, b[a as int].position, d) == cell_at(
                n.rect,
                p,
                d,
            );
        assert(a < b.len());
    }
    assert forall|i: usize|
        i < b.len() && cell_at(t.bounds_spec(), #[trigger] b[i as int].position, d) == cell_at(
            t.bounds_spec(),
            p,
            d,
        ) implies shares_cell(n, b, 0, t.depth_limit(), p) by {
        lemma_stored_in_tree(t, i);
        assert(n.ids().contains(i));
    }
}

/// A range query over a region that holds no stored body yields nothing.
pub proof fn lemma_query_disjoint_is_empty(t: QuadTree, region: Rect)
    requires
        t.wf(),
        forall|id: int|
            0 <= id < t.body_seq().len() ==> !region.contains_spec(
                #[trigger] t.body_seq()[id].position,
            ),
    ensures
        t.query_spec(region) == Seq::<usize>::empty(),
{
    broadcast use vstd::seq_lib::group_filter_ensures;

    let n = t.root_node();
    let pred = in_region(t.body_seq(), region);
    let f = n.ids().filter(pred);
    lemma_ids_inside(n, t.body_seq(), 0, t.depth_limit());
    if f.len() > 0 {
        assert(f.contains(f[0]));
        n.ids().lemma_filter_contains_rev(pred, f[0]);
        assert(pred(f[0]));
        assert(!region.contains_spec(t.body_seq()[f[0] as int].position));
    }
    assert(f =~= Seq::<usize>::empty());
}

/// A filter that every element passes keeps the sequence whole.
proof fn lemma_filter_keeps_all(s: Seq<usize>, pred: spec_fn(usize) -> bool)
    requires
        forall|x: usize| #[trigger] s.contains(x) ==> pred(x),
    ensures
        s.filter(pred) == s,
    decreases s.len(),
{
    reveal(Seq::filter);
    if s.len() > 0 {
        let d = s.drop_last();
        assert forall|x: usize| #[trigger] d.contains(x) implies pred(x) by {
            let i = choose|i: int| 0 <= i < d.len() && d[i] == x;
            assert(s[i] == x);
            assert(s.contains(x));
        }
        lemma_filter_keeps_all(d, pred);
        assert(s.contains(s.last()));
        assert(d.push(s.last()) =~= s);
    }
}

/// A range query over the whole bounds yields the id of every stored body
/// exactly once, and no other.
pub proof fn lemma_query_bounds_yields_all(t: QuadTree)
    requires
        t.wf(),
    ensures
        forall|id: usize| #[trigger]
            t.query_spec(t.bounds_spec()).to_multiset().count(id) == if id < t.body_seq().len() {
                1nat
            } else {
                0nat
            },
{
    let n = t.root_node();
    lemma_ids_inside(n, t.body_seq(), 0, t.depth_limit());
    lemma_filter_keeps_all(n.ids(), in_region(t.body_seq(), t.bounds_spec()));
}

/// The ids `0, 1, ..., n - 1`.
pub open spec fn first_ids(n: nat) -> Seq<usize> {
    Seq::new(n, |i: int| i as usize)
}

/// Whatever shape the tree has, the root's weight is the sum over the whole
/// store: its aggregate mass is the total mass, its moments the total
/// moments.
pub proof fn lemma_root_weight_is_store_total(t: QuadTree, f: spec_fn(Body) -> int)
    requires
        t.wf(),
        t.body_seq().len() <= usize::MAX,
    ensures
        t.root_node().weight(t.body_seq(), f) == sum_over(
            first_ids(t.body_seq().len()),
            t.body_seq(),
            f,
        ),
{
    broadcast use {
        vstd::seq_lib::group_to_multiset_ensures,
        vstd::multiset::group_multiset_axioms,
    };

    let n = t.body_seq().len();
    let r = first_ids(n);
    assert(r.no_duplicates());
    r.lemma_multiset_has_no_duplicates();
    assert forall|id: usize| #[trigger] r.to_multiset().count(id) == if id < n {
        1nat
    } else {
        0nat
    } by {
        if id < n {
            assert(r[id as int] == id);
            assert(r.contains(id));
        } else {
            assert(!r.contains(id));
        }
    }
    assert(t.root_node().ids().to_multiset() =~= r.to_multiset());
    crate::node::lemma_weight_is_sum(t.root_node(), t.body_seq(), f);
    crate::node::lemma_sum_permutation(t.root_node().ids(), r, t.body_seq(), f);
}

} // verus!
