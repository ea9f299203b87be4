//! The connectivity graph of a triangle mesh and what makes it well formed.

use crate::node::Node;
use crate::ring::{is_live, is_ring, lemma_ring_bounded, lemma_ring_rotated, rotated};
use vstd::prelude::*;

verus! {

/// A triangle mesh as a graph of corners.
///
/// `nodes` holds three nodes for each triangle the mesh was built from, and
/// never grows or shrinks. `positions` is indexed by the `position` of the
/// nodes. `face_count` is the number of triangles that are not removed.
pub struct ConnectedMesh<P> {
    pub nodes: Vec<Node>,
    pub face_count: u32,
    pub positions: Vec<P>,
}

/// The corner that follows `n` in its triangle.
pub open spec fn next_corner(nodes: Seq<Node>, n: int) -> int {
    nodes[n].relative as int
}

/// `n` is a corner of a live triangle: following `relative` from `n` visits
/// three different live nodes and returns to `n`.
pub open spec fn is_triangle(nodes: Seq<Node>, n: int) -> bool {
    let b = next_corner(nodes, n);
    let c = next_corner(nodes, b);
    &&& is_live(nodes, n)
    &&& is_live(nodes, b)
    &&& is_live(nodes, c)
    &&& next_corner(nodes, c) == n
    &&& n != b
    &&& b != c
    &&& c != n
}

/// `ring` is the fan of `position`: a ring of live nodes at `position` that
/// leaves out no live node at `position`.
pub open spec fn is_fan(nodes: Seq<Node>, ring: Seq<int>, position: int) -> bool {
    &&& is_ring(nodes, ring)
    &&& forall|j: int|
        0 <= j < ring.len() ==> !nodes[#[trigger] ring[j]].is_removed && nodes[ring[j]].position
            == position
    &&& forall|n: int|
        is_live(nodes, n) && nodes[n].position == position ==> #[trigger] ring.contains(n)
}

/// The live nodes at `position` form one ring.
pub open spec fn has_fan(nodes: Seq<Node>, position: int) -> bool {
    exists|ring: Seq<int>| #[trigger] is_fan(nodes, ring, position)
}

/// A fan of `position`, where it has one.
pub open spec fn fan_of(nodes: Seq<Node>, position: int) -> Seq<int> {
    choose|ring: Seq<int>| #[trigger] is_fan(nodes, ring, position)
}

/// What holds of each live node of a well-formed mesh.
pub open spec fn node_wf(nodes: Seq<Node>, position_count: int, n: int) -> bool {
    &&& is_triangle(nodes, n)
    &&& 0 <= nodes[n].position < position_count
    &&& has_fan(nodes, nodes[n].position as int)
}

/// Every live node is a corner of a live triangle, and the live nodes of each
/// position form one ring.
pub open spec fn connected(nodes: Seq<Node>, position_count: int) -> bool {
    forall|n: int| is_live(nodes, n) ==> #[trigger] node_wf(nodes, position_count, n)
}

/// The number of nodes that are not tombstones.
pub open spec fn live_count(nodes: Seq<Node>) -> nat
    decreases nodes.len(),
{
    if nodes.len() == 0 {
        0
    } else {
        live_count(nodes.drop_last()) + if nodes.last().is_removed {
            0nat
        } else {
            1nat
        }
    }
}

/// The three corners of the triangle of `n` are at three different positions.
pub open spec fn has_distinct_corners(nodes: Seq<Node>, n: int) -> bool {
    let b = next_corner(nodes, n);
    let c = next_corner(nodes, b);
    &&& nodes[n].position != nodes[b].position
    &&& nodes[b].position != nodes[c].position
    &&& nodes[c].position != nodes[n].position
}

/// No live triangle has two corners at one position.
pub open spec fn nondegenerate(nodes: Seq<Node>) -> bool {
    forall|n: int| is_live(nodes, n) ==> #[trigger] has_distinct_corners(nodes, n)
}

/// `after` is what is left of `before` once faces were removed and nodes
/// linked anew: no node has changed its triangle or its attribute, and a
/// removed node is as it was.
pub open spec fn decimated(before: Seq<Node>, after: Seq<Node>) -> bool {
    &&& after.len() == before.len()
    &&& forall|n: int|
        0 <= n < before.len() ==> {
            &&& (#[trigger] after[n]).relative == before[n].relative
            &&& after[n].attribute == before[n].attribute
            &&& before[n].is_removed ==> after[n] == before[n]
        }
}

/// A fan may be entered at any of its members.
pub proof fn lemma_fan_rotated(nodes: Seq<Node>, ring: Seq<int>, position: int, k: int)
    requires
        is_fan(nodes, ring, position),
        0 <= k < ring.len(),
    ensures
        is_fan(nodes, rotated(ring, k), position),
        rotated(ring, k)[0] == ring[k],
{
    let turned = rotated(ring, k);
    lemma_ring_rotated(nodes, ring, k);
    assert forall|j: int| 0 <= j < turned.len() implies !nodes[#[trigger] turned[j]].is_removed
        && nodes[turned[j]].position == position by {
        assert(turned.contains(turned[j]));
        assert(ring.contains(turned[j]));
        let s = choose|s: int| 0 <= s < ring.len() && ring[s] == turned[j];
        assert(!nodes[ring[s]].is_removed);
    }
    assert forall|n: int| is_live(nodes, n) && nodes[n].position == position implies #[trigger]
        turned.contains(n) by {
        assert(ring.contains(n));
    }
}

/// The fan of a live node's position, entered at that node.
pub proof fn lemma_fan_from(nodes: Seq<Node>, n: int) -> (ring: Seq<int>)
    requires
        is_live(nodes, n),
        has_fan(nodes, nodes[n].position as int),
    ensures
        is_fan(nodes, ring, nodes[n].position as int),
        ring[0] == n,
{
    let position = nodes[n].position as int;
    let fan = fan_of(nodes, position);
    assert(fan.contains(n));
    let k = choose|k: int| 0 <= k < fan.len() && fan[k] == n;
    lemma_fan_rotated(nodes, fan, position, k);
    rotated(fan, k)
}

/// Replacing one node changes the number of live nodes by what the two
/// nodes' flags say.
pub proof fn lemma_live_count_update(nodes: Seq<Node>, n: int, node: Node)
    requires
        0 <= n < nodes.len(),
    ensures
        live_count(nodes.update(n, node)) + (if nodes[n].is_removed {
            0nat
        } else {
            1nat
        }) == live_count(nodes) + (if node.is_removed {
            0nat
        } else {
            1nat
        }),
    decreases nodes.len(),
{
    let changed = nodes.update(n, node);
    if n == nodes.len() - 1 {
        assert(changed.drop_last() =~= nodes.drop_last());
    } else {
        lemma_live_count_update(nodes.drop_last(), n, node);
        assert(changed.drop_last() =~= nodes.drop_last().update(n, node));
    }
}

/// Only the tombstone flags decide the number of live nodes.
pub proof fn lemma_live_count_flags(before: Seq<Node>, after: Seq<Node>)
    requires
        before.len() == after.len(),
        forall|n: int| 0 <= n < before.len() ==> before[n].is_removed == after[n].is_removed,
    ensures
        live_count(before) == live_count(after),
    decreases before.len(),
{
    if before.len() > 0 {
        lemma_live_count_flags(before.drop_last(), after.drop_last());
    }
}

/// Where nodes are removed and none comes back, the number of live nodes
/// does not go up, and it goes down where a live node was removed.
pub proof fn lemma_live_count_removed(before: Seq<Node>, after: Seq<Node>)
    requires
        before.len() == after.len(),
        forall|n: int| 0 <= n < before.len() && before[n].is_removed ==> after[n].is_removed,
    ensures
        live_count(after) <= live_count(before),
        (exists|n: int| 0 <= n < before.len() && !before[n].is_removed && after[n].is_removed)
            ==> live_count(after) < live_count(before),
    decreases before.len(),
{
    if before.len() > 0 {
        let fewer = before.drop_last();
        let fewer_after = after.drop_last();
        lemma_live_count_removed(fewer, fewer_after);
        if exists|n: int| 0 <= n < before.len() && !before[n].is_removed && after[n].is_removed {
            let n = choose|n: int|
                0 <= n < before.len() && !before[n].is_removed && after[n].is_removed;
            if n < before.len() - 1 {
                assert(!fewer[n].is_removed && fewer_after[n].is_removed);
            }
        }
    }
}

/// A mesh with a live node in its count has a live node.
pub proof fn lemma_live_node(nodes: Seq<Node>) -> (n: int)
    requires
        live_count(nodes) > 0,
    ensures
        is_live(nodes, n),
    decreases nodes.len(),
{
    if nodes.last().is_removed {
        lemma_live_node(nodes.drop_last())
    } else {
        nodes.len() - 1
    }
}

/// There are no more live nodes than nodes.
pub proof fn lemma_live_count_bounded(nodes: Seq<Node>)
    ensures
        live_count(nodes) <= nodes.len(),
    decreases nodes.len(),
{
    if nodes.len() > 0 {
        lemma_live_count_bounded(nodes.drop_last());
    }
}

impl<P> ConnectedMesh<P> {
    /// The mesh is well formed: its triangles are closed, each position's live
    /// nodes form one ring, and `face_count` counts the live triangles.
    pub open spec fn wf(&self) -> bool {
        &&& self.nodes@.len() <= i32::MAX
        &&& connected(self.nodes@, self.positions@.len() as int)
        &&& 3 * self.face_count == live_count(self.nodes@)
    }

    /// No live triangle of the mesh has two corners at one position.
    pub open spec fn is_nondegenerate(&self) -> bool {
        nondegenerate(self.nodes@)
    }
}

impl<P> ConnectedMesh<P> {
    /// In a well-formed mesh the walk along `relative` from a live node visits
    /// exactly three nodes, all of them live, and returns to where it began.
    pub proof fn lemma_relative_loop(&self, n: int)
        requires
            self.wf(),
            is_live(self.nodes@, n),
        ensures
            ({
                let b = next_corner(self.nodes@, n);
                let c = next_corner(self.nodes@, b);
                &&& is_live(self.nodes@, b)
                &&& is_live(self.nodes@, c)
                &&& next_corner(self.nodes@, c) == n
                &&& n != b
                &&& b != c
                &&& c != n
            }),
    {
        assert(node_wf(self.nodes@, self.positions@.len() as int, n));
    }

    /// In a well-formed mesh the walk along `sibling` from a live node is one
    /// cycle through exactly the live nodes at that node's position, each
    /// met once, and it is no longer than the node array.
    pub proof fn lemma_sibling_ring(&self, n: int) -> (ring: Seq<int>)
        requires
            self.wf(),
            is_live(self.nodes@, n),
        ensures
            is_ring(self.nodes@, ring),
            ring[0] == n,
            ring.no_duplicates(),
            ring.len() <= self.nodes@.len(),
            forall|m: int|
                ring.contains(m) <==> is_live(self.nodes@, m) && self.nodes@[m].position
                    == self.nodes@[n].position,
    {
        assert(node_wf(self.nodes@, self.positions@.len() as int, n));
        let ring = lemma_fan_from(self.nodes@, n);
        lemma_ring_bounded(self.nodes@, ring);
        assert forall|m: int|
            ring.contains(m) <==> is_live(self.nodes@, m) && self.nodes@[m].position
                == self.nodes@[n].position by {
            if ring.contains(m) {
                let j = choose|j: int| 0 <= j < ring.len() && ring[j] == m;
                assert(!self.nodes@[ring[j]].is_removed);
            }
        }
        ring
    }
}

impl<P> Default for ConnectedMesh<P> {
    fn default() -> (mesh: ConnectedMesh<P>)
        ensures
            mesh.nodes@.len() == 0,
            mesh.positions@.len() == 0,
            mesh.face_count == 0,
            mesh.wf(),
    {
        ConnectedMesh { positions: Vec::new(), nodes: Vec::new(), face_count: 0 }
    }
}

} // verus!
