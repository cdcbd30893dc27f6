//! The quadrant tree: a region of the plane that splits into four equal
//! quadrants wherever a point is routed through it, down to a fixed depth.

use vstd::prelude::*;
use crate::single::{difference, equal, less, quotient, sum, Number, Single};

verus! {

/// A pair of numbers: a point, a centre, or a width and a height.
pub type Pair = (Number, Number);

/// The numbers that a pair of patterns stands for.
pub open spec fn pair(p: (Single, Single)) -> Pair {
    (p.0@, p.1@)
}

/// The quadrant of a region centred at `center` that `point` is routed to:
/// 0 north-west, 1 north-east, 2 south-west, 3 south-east. West and north are
/// strict, so a point on a midline goes east or south.
pub open spec fn quadrant(point: Pair, center: Pair) -> int {
    if less(point.0, center.0) {
        if less(point.1, center.1) {
            0
        } else {
            2
        }
    } else {
        if less(point.1, center.1) {
            1
        } else {
            3
        }
    }
}

/// The centre of quadrant `q` of the region with the given centre and shape:
/// a quarter of the shape away from the centre along each axis.
pub open spec fn child_center(center: Pair, shape: Pair, q: int) -> Pair {
    let dx = quotient(shape.0, 4);
    let dy = quotient(shape.1, 4);
    (
        if q % 2 == 0 {
            difference(center.0, dx)
        } else {
            sum(center.0, dx)
        },
        if q < 2 {
            difference(center.1, dy)
        } else {
            sum(center.1, dy)
        },
    )
}

/// The shape of each quadrant: half the region's width and height.
pub open spec fn child_shape(shape: Pair) -> Pair {
    (quotient(shape.0, 2), quotient(shape.1, 2))
}

/// What a renderer draws for one node: its geometry and its distance from the
/// root.
pub ghost struct Outline {
    pub center: Pair,
    pub shape: Pair,
    pub depth: nat,
}

/// The tree as a value: each node with its geometry, its depth bound and its
/// children, none for a leaf and four, in quadrant order, once it is split.
pub ghost struct Quad {
    pub center: Pair,
    pub shape: Pair,
    pub children: Seq<Quad>,
    pub max_depth: nat,
}

impl Quad {
    /// An unsplit node.
    pub open spec fn leaf(center: Pair, shape: Pair, max_depth: nat) -> Quad {
        Quad { center, shape, children: Seq::empty(), max_depth }
    }

    /// The four unsplit quadrants of this node.
    pub open spec fn quarters(self) -> Seq<Quad> {
        Seq::new(
            4,
            |q: int| Quad::leaf(child_center(self.center, self.shape, q), child_shape(self.shape), self.max_depth),
        )
    }

    /// This node with four fresh quadrants in place of whatever it had below.
    pub open spec fn split(self) -> Quad {
        Quad { children: self.quarters(), ..self }
    }

    /// The height of child `q`, or 0 where there is no such child.
    pub open spec fn child_height(self, q: int) -> nat
        decreases self, 0nat,
    {
        if 0 <= q < self.children.len() {
            self.children[q].height()
        } else {
            0
        }
    }

    /// The number of levels below this node, going by its first four
    /// children.
    pub open spec fn height(self) -> nat
        decreases self, 1nat,
    {
        if self.children.len() == 0 {
            0
        } else {
            let north = if self.child_height(0) >= self.child_height(1) {
                self.child_height(0)
            } else {
                self.child_height(1)
            };
            let south = if self.child_height(2) >= self.child_height(3) {
                self.child_height(2)
            } else {
                self.child_height(3)
            };
            1 + if north >= south {
                north
            } else {
                south
            }
        }
    }

    /// The tree after `point` has been routed into this node at `depth`. At
    /// the depth bound nothing changes. Above it a leaf is split first, and
    /// the quadrant that the point falls in receives the point one level
    /// down; the other three stay as they are.
    pub open spec fn inserted_at(self, point: Pair, depth: nat) -> Quad
        decreases self.height(), self.max_depth - depth,
    {
        if depth >= self.max_depth {
            self
        } else {
            let node = if self.children.len() == 0 {
                self.split()
            } else {
                self
            };
            let q = quadrant(point, self.center);
            if q < node.children.len() {
                Quad { children: node.children.update(q, node.children[q].inserted_at(point, depth + 1)), ..node }
            } else {
                node
            }
        }
    }

    /// The tree after `point` has been inserted at the root.
    pub open spec fn inserted(self, point: Pair) -> Quad {
        self.inserted_at(point, 0)
    }

    /// The nodes in drawing order, for a node that lies `depth` levels below
    /// the root: the four quadrants first, each with all that is below it,
    /// then the node itself, so that a parent is drawn over its children.
    pub open spec fn post_order(self, depth: nat) -> Seq<Outline>
        decreases self,
    {
        let below = if self.children.len() == 4 {
            self.children[0].post_order(depth + 1) + self.children[1].post_order(depth + 1)
                + self.children[2].post_order(depth + 1) + self.children[3].post_order(depth + 1)
        } else {
            Seq::empty()
        };
        below.push(Outline { center: self.center, shape: self.shape, depth })
    }

    /// Every split node has exactly four children, child `q` covers quadrant
    /// `q` of its parent, and all nodes share one depth bound.
    pub open spec fn well_formed(self) -> bool
        decreases self,
    {
        self.children.len() == 0 || (self.children.len() == 4 && forall|q: int|
            0 <= q < 4 ==> {
                &&& (#[trigger] self.children[q]).center == child_center(self.center, self.shape, q)
                &&& self.children[q].shape == child_shape(self.shape)
                &&& self.children[q].max_depth == self.max_depth
                &&& self.children[q].well_formed()
            })
    }
}

/// A freshly split node is well-formed, whatever it was before.
pub proof fn lemma_split_well_formed(t: Quad)
    ensures
        t.split().well_formed(),
{
    assert forall|i: int| 0 <= i < 4 implies (#[trigger] t.quarters()[i]).well_formed() by {}
}

/// Routing a point leaves the geometry and the depth bound of the node that
/// receives it as they were.
pub proof fn lemma_inserted_keeps_root(t: Quad, point: Pair, depth: nat)
    ensures
        t.inserted_at(point, depth).center == t.center,
        t.inserted_at(point, depth).shape == t.shape,
        t.inserted_at(point, depth).max_depth == t.max_depth,
        depth < t.max_depth && (t.children.len() == 0 || t.children.len() == 4)
            ==> t.inserted_at(point, depth).children.len() == 4,
        depth >= t.max_depth ==> t.inserted_at(point, depth) == t,
{
}

/// Insertion keeps a well-formed tree well-formed: whatever is split is split
/// into its four exact quadrants.
pub proof fn lemma_inserted_well_formed(t: Quad, point: Pair, depth: nat)
    requires
        t.well_formed(),
    ensures
        t.inserted_at(point, depth).well_formed(),
    decreases t.height(), t.max_depth - depth,
{
    if depth < t.max_depth {
        let node = if t.children.len() == 0 {
            t.split()
        } else {
            t
        };
        let q = quadrant(point, t.center);
        let child = node.children[q];
        let after = t.inserted_at(point, depth);
        assert(node.well_formed()) by {
            lemma_split_well_formed(t);
        }
        assert(t.children.len() == 0 || t.child_height(q) == t.children[q].height());
        lemma_inserted_well_formed(child, point, depth + 1);
        lemma_inserted_keeps_root(child, point, depth + 1);
        assert(after.children == node.children.update(q, child.inserted_at(point, depth + 1)));
        assert forall|i: int| 0 <= i < 4 implies {
            &&& (#[trigger] after.children[i]).center == child_center(after.center, after.shape, i)
            &&& after.children[i].shape == child_shape(after.shape)
            &&& after.children[i].max_depth == after.max_depth
            &&& after.children[i].well_formed()
        } by {
            if i != q {
                assert(after.children[i] == node.children[i]);
            }
        }
    }
}

/// The heights of the four quadrants of a split node are below its own.
pub proof fn lemma_child_heights(t: Quad)
    requires
        t.children.len() == 4,
    ensures
        forall|q: int| 0 <= q < 4 ==> (#[trigger] t.children[q]).height() < t.height(),
{
    assert forall|q: int| 0 <= q < 4 implies (#[trigger] t.children[q]).height() < t.height() by {
        assert(t.child_height(q) == t.children[q].height());
    }
}

/// Insertion never grows a well-formed tree beyond its depth bound: a tree
/// that reaches no deeper than the bound before, reaches no deeper after.
pub proof fn lemma_inserted_height(t: Quad, point: Pair, depth: nat)
    requires
        t.well_formed(),
        depth + t.height() <= t.max_depth,
    ensures
        depth + t.inserted_at(point, depth).height() <= t.max_depth,
    decreases t.height(), t.max_depth - depth,
{
    if depth < t.max_depth {
        let node = if t.children.len() == 0 {
            t.split()
        } else {
            t
        };
        let q = quadrant(point, t.center);
        let child = node.children[q];
        let after = t.inserted_at(point, depth);
        lemma_child_heights(node);
        if t.children.len() == 0 {
            assert forall|i: int| 0 <= i < 4 implies (#[trigger] node.children[i]).height() == 0 by {}
        }
        lemma_inserted_height(child, point, depth + 1);
        assert(after.children == node.children.update(q, child.inserted_at(point, depth + 1)));
        assert forall|i: int| 0 <= i < 4 implies depth + 1 + (#[trigger] after.child_height(i))
            <= t.max_depth by {
            if i != q {
                assert(after.children[i] == node.children[i]);
            }
        }
    }
}

/// Inserting a point a second time changes nothing: the first insertion has
/// already split every node on the point's way.
pub proof fn lemma_inserted_twice(t: Quad, point: Pair, depth: nat)
    ensures
        t.inserted_at(point, depth).inserted_at(point, depth) == t.inserted_at(point, depth),
    decreases t.height(), t.max_depth - depth,
{
    if depth < t.max_depth {
        let node = if t.children.len() == 0 {
            t.split()
        } else {
            t
        };
        let q = quadrant(point, t.center);
        let after = t.inserted_at(point, depth);
        if q < node.children.len() {
            let child = node.children[q];
            assert(t.children.len() == 0 || t.child_height(q) == t.children[q].height());
            lemma_inserted_twice(child, point, depth + 1);
            let grown = child.inserted_at(point, depth + 1);
            assert(after.children == node.children.update(q, grown));
            assert(after.children.update(q, grown.inserted_at(point, depth + 1)) =~= after.children);
        }
    }
}

/// Idempotence of insertion at the root.
pub proof fn lemma_insert_idempotent(t: Quad, point: Pair)
    ensures
        t.inserted(point).inserted(point) == t.inserted(point),
{
    lemma_inserted_twice(t, point, 0);
}

/// A point whose first coordinate equals the centre's is routed east.
pub proof fn lemma_midline_routes_east(point: Pair, center: Pair)
    requires
        equal(point.0, center.0),
    ensures
        quadrant(point, center) == 1 || quadrant(point, center) == 3,
{
}

/// A point west of the centre whose second coordinate equals the centre's is
/// routed south.
pub proof fn lemma_midline_routes_south(point: Pair, center: Pair)
    requires
        less(point.0, center.0),
        equal(point.1, center.1),
    ensures
        quadrant(point, center) == 2,
{
}

/// With a depth bound of 0 no insertion, nor any number of them, splits
/// anything.
pub proof fn lemma_depth_zero_never_splits(t: Quad, points: Seq<Pair>)
    requires
        t.max_depth == 0,
    ensures
        points.fold_left(t, |tree: Quad, p: Pair| tree.inserted(p)) == t,
    decreases points.len(),
{
    if points.len() > 0 {
        lemma_depth_zero_never_splits(t, points.drop_last());
    }
}

/// One node as a renderer needs it: its geometry and its depth, the root's
/// being 0.
#[derive(Clone, Copy, Debug)]
pub struct Cell {
    pub center: (Single, Single),
    pub shape: (Single, Single),
    pub depth: usize,
}

impl View for Cell {
    type V = Outline;

    open spec fn view(&self) -> Outline {
        Outline { center: pair(self.center), shape: pair(self.shape), depth: self.depth as nat }
    }
}

/// What a list of cells stands for.
pub open spec fn outlines(cells: Seq<Cell>) -> Seq<Outline> {
    cells.map_values(|c: Cell| c@)
}

/// The four quadrants of a split node, each owned by it.
pub struct Children {
    pub nw: Box<Octree>,
    pub ne: Box<Octree>,
    pub sw: Box<Octree>,
    pub se: Box<Octree>,
}

/// A node of the tree: a region of the plane, split into four or not.
pub struct Octree {
    /// The midpoint of the region.
    pub center: (Single, Single),
    /// The full width and height of the region.
    pub shape: (Single, Single),
    /// The quadrants, once the node is split.
    pub children: Option<Children>,
    /// The depth at which routing stops, the same in every node of a tree.
    pub max_depth: usize,
}

impl View for Octree {
    type V = Quad;

    open spec fn view(&self) -> Quad {
        self.model()
    }
}

impl Children {
    /// The four quadrants as values of the model, in quadrant order.
    pub open spec fn models(self) -> Seq<Quad>
        decreases self, 0nat,
    {
        seq![self.nw.model(), self.ne.model(), self.sw.model(), self.se.model()]
    }
}

impl Octree {
    /// The tree as a value of the model.
    pub open spec fn model(self) -> Quad
        decreases self, 1nat,
    {
        Quad {
            center: pair(self.center),
            shape: pair(self.shape),
            children: match self.children {
                None => Seq::empty(),
                Some(c) => c.models(),
            },
            max_depth: self.max_depth as nat,
        }
    }

    /// A leaf that covers the region of the given centre and shape.
    pub fn new(center: (Single, Single), shape: (Single, Single), max_depth: usize) -> (r: Self)
        ensures
            r.center == center,
            r.shape == shape,
            r.max_depth == max_depth,
            r.children is None,
            r@ == Quad::leaf(pair(center), pair(shape), max_depth as nat),
            r@.well_formed(),
    {
        Octree { center, shape, children: None, max_depth }
    }

    /// Routes `point` into the tree from the root, splitting every leaf on
    /// its way down to the depth bound.
    pub fn insert(&mut self, point: (Single, Single))
        ensures
            final(self).center == old(self).center,
            final(self).shape == old(self).shape,
            final(self).max_depth == old(self).max_depth,
            final(self)@ == old(self)@.inserted(pair(point)),
            old(self)@.well_formed() ==> final(self)@.well_formed(),
            old(self)@.well_formed() && old(self)@.height() <= old(self).max_depth
                ==> final(self)@.height() <= old(self).max_depth,
            old(self).max_depth == 0 ==> final(self)@ == old(self)@,
    {
        proof {
            if self@.well_formed() {
                lemma_inserted_well_formed(self@, pair(point), 0);
                if self@.height() <= self.max_depth {
                    lemma_inserted_height(self@, pair(point), 0);
                }
            }
        }
        self.insert_depth_limited(point, 0);
    }

    /// Routes `point` into this node, which lies `depth` levels below the
    /// root.
    fn insert_depth_limited(&mut self, point: (Single, Single), depth: usize)
        ensures
            final(self).center == old(self).center,
            final(self).shape == old(self).shape,
            final(self).max_depth == old(self).max_depth,
            final(self)@ == old(self)@.inserted_at(pair(point), depth as nat),
        decreases old(self)@.height(), old(self).max_depth - depth,
    {
        if depth >= self.max_depth {
            return;
        }
        if self.children.is_none() {
            self.split();
        }
        let ghost node = self@;
        let ghost p = pair(point);
        let ghost q = quadrant(p, node.center);
        let west = point.0.lt(self.center.0);
        let north = point.1.lt(self.center.1);
        let mut c = self.children.take().unwrap();
        proof {
            assert(node.children == c.models());
            assert(node.child_height(q) == node.children[q].height());
            assert(old(self)@.children.len() == 0 ==> node.children[q].height() == 0);
        }
        let ghost grown = node.children[q].inserted_at(p, (depth + 1) as nat);
        if west {
            if north {
                c.nw.insert_depth_limited(point, depth + 1);
                assert(c.models() =~= node.children.update(0, grown));
            } else {
                c.sw.insert_depth_limited(point, depth + 1);
                assert(c.models() =~= node.children.update(2, grown));
            }
        } else {
            if north {
                c.ne.insert_depth_limited(point, depth + 1);
                assert(c.models() =~= node.children.update(1, grown));
            } else {
                c.se.insert_depth_limited(point, depth + 1);
                assert(c.models() =~= node.children.update(3, grown));
            }
        }
        assert(c.models() == node.children.update(q, grown));
        self.children = Some(c);
    }

    /// The nodes of the tree in drawing order, children before their parent,
    /// each with its depth.
    pub fn draw_order(&self) -> (cells: Vec<Cell>)
        requires
            self@.height() <= usize::MAX,
        ensures
            outlines(cells@) == self@.post_order(0),
    {
        let mut cells: Vec<Cell> = Vec::new();
        assert(outlines(cells@) =~= Seq::empty());
        self.collect(0, &mut cells);
        assert(Seq::<Outline>::empty() + self@.post_order(0) =~= self@.post_order(0));
        cells
    }

    /// Appends to `out` the nodes from this one down, in drawing order.
    fn collect(&self, depth: usize, out: &mut Vec<Cell>)
        requires
            depth + self@.height() <= usize::MAX,
        ensures
            outlines(final(out)@) == outlines(old(out)@) + self@.post_order(depth as nat),
        decreases self,
    {
        let ghost before = outlines(out@);
        let ghost node = self@;
        match &self.children {
            Some(c) => {
                proof {
                    assert(node.children == c.models());
                    assert(node.child_height(0) == node.children[0].height());
                    assert(node.child_height(1) == node.children[1].height());
                    assert(node.child_height(2) == node.children[2].height());
                    assert(node.child_height(3) == node.children[3].height());
                }
                c.nw.collect(depth + 1, out);
                c.ne.collect(depth + 1, out);
                c.sw.collect(depth + 1, out);
                c.se.collect(depth + 1, out);
            },
            None => {},
        }
        let ghost below = outlines(out@);
        out.push(Cell { center: self.center, shape: self.shape, depth });
        proof {
            let own = Outline { center: node.center, shape: node.shape, depth: depth as nat };
            assert(outlines(out@) =~= below.push(own));
            if self.children is Some {
                let d = (depth + 1) as nat;
                assert(below =~= before + (node.children[0].post_order(d) + node.children[1].post_order(d)
                    + node.children[2].post_order(d) + node.children[3].post_order(d)));
            } else {
                assert(below =~= before + Seq::<Outline>::empty());
            }
            assert(outlines(out@) =~= before + node.post_order(depth as nat));
        }
    }

    /// Gives the node four fresh quadrants, each half as wide and half as
    /// high, in place of whatever it had below.
    pub fn split(&mut self)
        ensures
            final(self).center == old(self).center,
            final(self).shape == old(self).shape,
            final(self).max_depth == old(self).max_depth,
            final(self).children is Some,
            final(self)@ == old(self)@.split(),
            final(self)@.well_formed(),
    {
        proof {
            lemma_split_well_formed(self@);
        }
        let (cx, cy) = self.center;
        let (w, h) = self.shape;
        let nw = Octree::new((cx.sub(w.quarter()), cy.sub(h.quarter())), (w.half(), h.half()), self.max_depth);
        let ne = Octree::new((cx.add(w.quarter()), cy.sub(h.quarter())), (w.half(), h.half()), self.max_depth);
        let sw = Octree::new((cx.sub(w.quarter()), cy.add(h.quarter())), (w.half(), h.half()), self.max_depth);
        let se = Octree::new((cx.add(w.quarter()), cy.add(h.quarter())), (w.half(), h.half()), self.max_depth);
        let c = Children { nw: Box::new(nw), ne: Box::new(ne), sw: Box::new(sw), se: Box::new(se) };
        assert(c.models() =~= self@.quarters());
        self.children = Some(c);
    }
}

} // verus!
