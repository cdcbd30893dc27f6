//! The way of a point through the tree, and why it is the only one.

use vstd::prelude::*;
use crate::geometry::{exact_to, holds, lemma_holding_quadrant, lemma_quadrant_holds};
use crate::octree::{lemma_child_heights, lemma_inserted_keeps_root, quadrant, Pair, Quad};

verus! {

impl Quad {
    /// The quadrants that `point` is routed through from this node down to
    /// a leaf.
    pub open spec fn route(self, point: Pair) -> Seq<int>
        decreases self,
    {
        if self.children.len() == 4 {
            let q = quadrant(point, self.center);
            seq![q] + self.children[q].route(point)
        } else {
            Seq::empty()
        }
    }

    /// Whether `path`, a list of quadrants, leads from this node to a node
    /// below it.
    pub open spec fn has_path(self, path: Seq<int>) -> bool
        decreases path.len(),
    {
        path.len() == 0 || (self.children.len() == 4 && 0 <= path[0] < 4
            && self.children[path[0]].has_path(path.drop_first()))
    }

    /// The node that `path` leads to.
    pub open spec fn descendant(self, path: Seq<int>) -> Quad
        recommends
            self.has_path(path),
        decreases path.len(),
    {
        if path.len() == 0 {
            self
        } else {
            self.children[path[0]].descendant(path.drop_first())
        }
    }

    /// Whether the region of every node on `path`, this one included, holds
    /// `point`.
    pub open spec fn all_hold(self, path: Seq<int>, point: Pair, closed: bool) -> bool
        recommends
            self.has_path(path),
        decreases path.len(),
    {
        holds(self.center, self.shape, point, closed) && (path.len() == 0
            || self.children[path[0]].all_hold(path.drop_first(), point, closed))
    }
}

/// What splits exactly to some depth splits exactly to any lesser depth.
pub proof fn lemma_exact_fewer(center: Pair, shape: Pair, levels: nat, fewer: nat)
    requires
        exact_to(center, shape, levels),
        fewer <= levels,
    ensures
        exact_to(center, shape, fewer),
    decreases fewer,
{
    if fewer > 0 {
        assert forall|q: int| 0 <= q < 4 implies exact_to(
            #[trigger] crate::octree::child_center(center, shape, q),
            crate::octree::child_shape(shape),
            (fewer - 1) as nat,
        ) by {
            lemma_exact_fewer(
                crate::octree::child_center(center, shape, q),
                crate::octree::child_shape(shape),
                (levels - 1) as nat,
                (fewer - 1) as nat,
            );
        }
    }
}

/// The route of a point is a path of the tree, it ends at a leaf, and no
/// path is longer than the tree is high.
pub proof fn lemma_route_is_path(t: Quad, point: Pair)
    requires
        t.well_formed(),
    ensures
        t.has_path(t.route(point)),
        t.descendant(t.route(point)).children.len() == 0,
        t.route(point).len() <= t.height(),
    decreases t,
{
    if t.children.len() == 4 {
        let q = quadrant(point, t.center);
        let way = t.route(point);
        lemma_child_heights(t);
        lemma_route_is_path(t.children[q], point);
        assert(way.drop_first() =~= t.children[q].route(point));
    }
}

/// No path is longer than the tree is high.
pub proof fn lemma_path_length(t: Quad, path: Seq<int>)
    requires
        t.has_path(path),
    ensures
        path.len() <= t.height(),
    decreases path.len(),
{
    if path.len() > 0 {
        lemma_child_heights(t);
        lemma_path_length(t.children[path[0]], path.drop_first());
    }
}

/// After a point is inserted, its route is as long as the depth bound allows:
/// every node on it is split, down to the leaf at the bound.
pub proof fn lemma_route_length(t: Quad, point: Pair, depth: nat)
    requires
        t.well_formed(),
        depth + t.height() <= t.max_depth,
    ensures
        t.inserted_at(point, depth).route(point).len() == t.max_depth - depth,
    decreases t.height(), t.max_depth - depth,
{
    let after = t.inserted_at(point, depth);
    if depth < t.max_depth {
        let node = if t.children.len() == 0 {
            t.split()
        } else {
            t
        };
        let q = quadrant(point, t.center);
        let child = node.children[q];
        lemma_child_heights(node);
        if t.children.len() == 0 {
            assert(child.height() == 0);
        }
        lemma_route_length(child, point, depth + 1);
        lemma_inserted_keeps_root(t, point, depth);
        assert(after.children == node.children.update(q, child.inserted_at(point, depth + 1)));
        assert(after.route(point) =~= seq![q] + child.inserted_at(point, depth + 1).route(point));
    } else {
        assert(t.children.len() == 0);
    }
}

/// Whether `path` leads to a child of a node on `way`: all its steps but the
/// last follow `way`, and the last goes to any of the four quadrants.
pub open spec fn beside(path: Seq<int>, way: Seq<int>) -> bool {
    &&& 1 <= path.len() <= way.len()
    &&& path.drop_last() == way.take(path.len() - 1)
    &&& 0 <= path.last() < 4
}

/// What insertion adds to a tree: the nodes of the tree afterwards are those
/// it had before and the four quadrants of every node on the route of the
/// point, and no others.
pub proof fn lemma_inserted_paths(t: Quad, point: Pair, depth: nat, path: Seq<int>)
    requires
        t.well_formed(),
        depth + t.height() <= t.max_depth,
    ensures
        t.inserted_at(point, depth).has_path(path) <==> t.has_path(path) || beside(
            path,
            t.inserted_at(point, depth).route(point),
        ),
    decreases t.height(), t.max_depth - depth,
{
    let after = t.inserted_at(point, depth);
    let way = after.route(point);
    if depth >= t.max_depth {
        assert(t.children.len() == 0);
        assert(way.len() == 0);
    } else if path.len() == 0 {
    } else {
        let node = if t.children.len() == 0 {
            t.split()
        } else {
            t
        };
        let q = quadrant(point, t.center);
        let child = node.children[q];
        let grown = child.inserted_at(point, depth + 1);
        let below = grown.route(point);
        lemma_child_heights(node);
        crate::octree::lemma_split_well_formed(t);
        if t.children.len() == 0 {
            assert forall|i: int| 0 <= i < 4 implies (#[trigger] node.children[i]).children.len() == 0 by {}
            assert(child.height() == 0);
        }
        lemma_inserted_keeps_root(t, point, depth);
        assert(after.children == node.children.update(q, grown));
        assert(after.children.len() == 4);
        assert(way =~= seq![q] + below);
        let i = path[0];
        let rest = path.drop_first();
        let follows = path.drop_last() == way.take(path.len() - 1);
        if rest.len() == 0 {
            assert(path.drop_last() =~= way.take(0));
            assert(path.last() == i);
            assert(beside(path, way) == (0 <= i < 4));
            assert(after.has_path(path) == (0 <= i < 4)) by {
                if 0 <= i < 4 {
                    assert(after.children[i].has_path(rest));
                }
            }
            assert(t.has_path(path) ==> 0 <= i < 4);
        } else {
            assert(path.drop_last() =~= seq![i] + rest.drop_last());
            assert(path.last() == rest.last());
            if path.len() <= way.len() {
                assert(way.take(path.len() - 1) =~= seq![q] + below.take(rest.len() - 1));
                assert(path.drop_last()[0] == i);
                assert(way.take(path.len() - 1)[0] == q);
                if i == q {
                    if rest.drop_last() == below.take(rest.len() - 1) {
                        assert(follows);
                    }
                    if follows {
                        assert(rest.drop_last() =~= (seq![i] + rest.drop_last()).drop_first());
                        assert(below.take(rest.len() - 1) =~= (seq![q] + below.take(rest.len() - 1)).drop_first());
                    }
                    assert(beside(path, way) == beside(rest, below));
                } else {
                    assert(!beside(path, way));
                }
            } else {
                assert(!beside(path, way));
                assert(!beside(rest, below));
            }
            if 0 <= i < 4 {
                if i == q {
                    lemma_inserted_paths(child, point, depth + 1, rest);
                    assert(after.children[i] == grown);
                    assert(after.has_path(path) == grown.has_path(rest));
                    assert(beside(path, way) == beside(rest, below));
                    if t.children.len() == 0 {
                        assert(!child.has_path(rest));
                        assert(!t.has_path(path));
                    } else {
                        assert(t.has_path(path) == child.has_path(rest));
                    }
                } else {
                    assert(after.children[i] == node.children[i]);
                    assert(after.has_path(path) == node.children[i].has_path(rest));
                    assert(!beside(path, way));
                    if t.children.len() == 0 {
                        assert(!node.children[i].has_path(rest));
                        assert(!t.has_path(path));
                    } else {
                        assert(t.has_path(path) == node.children[i].has_path(rest));
                    }
                }
            } else {
                assert(!after.has_path(path));
                assert(!t.has_path(path));
                assert(!beside(path, way));
            }
        }
    }
}

/// Where the splits are exact, every node on the route of a point that the
/// root holds holds the point.
pub proof fn lemma_route_holds(t: Quad, point: Pair, closed: bool)
    requires
        t.well_formed(),
        exact_to(t.center, t.shape, t.route(point).len()),
        holds(t.center, t.shape, point, closed),
    ensures
        t.all_hold(t.route(point), point, closed),
    decreases t,
{
    if t.children.len() == 4 {
        let q = quadrant(point, t.center);
        let child = t.children[q];
        let way = t.route(point);
        assert(way.len() == 1 + child.route(point).len());
        assert(exact_to(crate::octree::child_center(t.center, t.shape, q), child.shape, child.route(point).len()));
        lemma_quadrant_holds(t.center, t.shape, point, closed);
        lemma_route_holds(child, point, closed);
        assert(way.drop_first() =~= child.route(point));
    }
}

/// Where the splits are exact, a path on which every node holds the point,
/// edges left out, follows the route of the point.
pub proof fn lemma_holding_path_follows_route(t: Quad, point: Pair, path: Seq<int>)
    requires
        t.well_formed(),
        t.has_path(path),
        exact_to(t.center, t.shape, path.len()),
        t.all_hold(path, point, false),
    ensures
        path.is_prefix_of(t.route(point)),
    decreases path.len(),
{
    if path.len() > 0 {
        let i = path[0];
        let child = t.children[i];
        let rest = path.drop_first();
        assert(exact_to(crate::octree::child_center(t.center, t.shape, i), child.shape, rest.len()));
        assert(child.all_hold(rest, point, false));
        assert(holds(child.center, child.shape, point, false));
        lemma_holding_quadrant(t.center, t.shape, point, i);
        lemma_holding_path_follows_route(child, point, rest);
        let way = t.route(point);
        assert(way =~= seq![i] + child.route(point));
        assert(path =~= seq![i] + rest);
        assert(path =~= way.subrange(0, path.len() as int));
    }
}

/// The path of an inserted point. In a well-formed tree that reaches no
/// deeper than its depth bound and whose splits are exact down to the bound,
/// once a point of the root's region has been inserted: the route of the point
/// has the length of the depth bound and ends at a leaf; every node on it
/// holds the point; and every path to a leaf on which all nodes hold the
/// point is that route. Regions are taken without their east and south
/// edges, so that quadrants do not overlap.
pub proof fn lemma_inserted_point_has_one_path(t: Quad, point: Pair)
    requires
        t.well_formed(),
        t.height() <= t.max_depth,
        exact_to(t.center, t.shape, t.max_depth),
        holds(t.center, t.shape, point, false),
    ensures
        ({
            let after = t.inserted(point);
            let way = after.route(point);
            &&& way.len() == t.max_depth
            &&& after.has_path(way)
            &&& after.descendant(way).children.len() == 0
            &&& after.all_hold(way, point, false)
            &&& forall|path: Seq<int>|
                after.has_path(path) && after.descendant(path).children.len() == 0 && #[trigger] after.all_hold(
                    path,
                    point,
                    false,
                ) ==> path == way
        }),
{
    let after = t.inserted(point);
    let way = after.route(point);
    crate::octree::lemma_inserted_well_formed(t, point, 0);
    crate::octree::lemma_inserted_height(t, point, 0);
    lemma_inserted_keeps_root(t, point, 0);
    lemma_route_length(t, point, 0);
    lemma_route_is_path(after, point);
    lemma_route_holds(after, point, false);
    assert forall|path: Seq<int>|
        after.has_path(path) && after.descendant(path).children.len() == 0 && #[trigger] after.all_hold(
            path,
            point,
            false,
        ) implies path == way by {
        lemma_path_length(after, path);
        lemma_exact_fewer(t.center, t.shape, t.max_depth, path.len());
        lemma_holding_path_follows_route(after, point, path);
        lemma_leaf_ends_route(after, point, path);
    }
}

/// A path that follows the route of a point and ends at a leaf is the whole
/// route.
pub proof fn lemma_leaf_ends_route(t: Quad, point: Pair, path: Seq<int>)
    requires
        t.well_formed(),
        t.has_path(path),
        path.is_prefix_of(t.route(point)),
        t.descendant(path).children.len() == 0,
    ensures
        path == t.route(point),
    decreases path.len(),
{
    let way = t.route(point);
    if path.len() > 0 {
        let q = quadrant(point, t.center);
        assert(way =~= seq![q] + t.children[q].route(point));
        assert(path[0] == way[0]);
        let rest = path.drop_first();
        assert(rest =~= t.children[q].route(point).subrange(0, rest.len() as int));
        lemma_leaf_ends_route(t.children[q], point, rest);
        assert(path =~= seq![q] + rest);
    } else {
        assert(way =~= Seq::empty());
    }
}

/// The same with the edges: every node on the route of an inserted point
/// holds the point, also where the point lies on the east or south edge of
/// the root's region.
pub proof fn lemma_inserted_point_is_held(t: Quad, point: Pair)
    requires
        t.well_formed(),
        t.height() <= t.max_depth,
        exact_to(t.center, t.shape, t.max_depth),
        holds(t.center, t.shape, point, true),
    ensures
        t.inserted(point).route(point).len() == t.max_depth,
        t.inserted(point).all_hold(t.inserted(point).route(point), point, true),
{
    crate::octree::lemma_inserted_well_formed(t, point, 0);
    lemma_inserted_keeps_root(t, point, 0);
    lemma_route_length(t, point, 0);
    lemma_route_holds(t.inserted(point), point, true);
}

} // verus!
