//! What lies around a node: its face, and the faces along an edge.

use crate::connected_mesh::{
    is_triangle, lemma_fan_from, next_corner, node_wf, ConnectedMesh,
};
use crate::edge::Edge;
use crate::node::Node;
use crate::ring::{is_live, is_ring, lemma_ring_from, ring_from};
use vstd::prelude::*;

verus! {

/// The number of corners of the triangle of `n` that are at `position`.
pub open spec fn corners_at(nodes: Seq<Node>, n: int, position: int) -> nat {
    let b = next_corner(nodes, n);
    let c = next_corner(nodes, b);
    (if nodes[n].position == position {
        1nat
    } else {
        0nat
    }) + (if nodes[b].position == position {
        1nat
    } else {
        0nat
    }) + (if nodes[c].position == position {
        1nat
    } else {
        0nat
    })
}

/// The number of corners at `position` in the triangles of the live nodes
/// of `walk`: where `walk` is the fan of one end of an edge and `position`
/// the other end, the number of faces along the edge.
pub open spec fn attached(nodes: Seq<Node>, walk: Seq<int>, position: int) -> nat
    decreases walk.len(),
{
    if walk.len() == 0 {
        0
    } else {
        attached(nodes, walk.drop_last(), position) + (if nodes[walk.last()].is_removed {
            0nat
        } else {
            corners_at(nodes, walk.last(), position)
        })
    }
}

/// The edge from node `n` to the next corner of its triangle.
pub open spec fn edge_from(nodes: Seq<Node>, n: int) -> Edge {
    Edge { pos_a: nodes[n].position, pos_b: nodes[next_corner(nodes, n)].position }
}

/// Node `n` with the edge from it to the next corner of its triangle.
pub open spec fn neighbour(nodes: Seq<Node>, n: int) -> (i32, Edge) {
    (n as i32, edge_from(nodes, n))
}

proof fn lemma_attached_bounded(nodes: Seq<Node>, walk: Seq<int>, position: int)
    ensures
        attached(nodes, walk, position) <= 3 * walk.len(),
    decreases walk.len(),
{
    if walk.len() > 0 {
        lemma_attached_bounded(nodes, walk.drop_last(), position);
    }
}

impl<P> ConnectedMesh<P> {
    /// The positions of the three corners of the face of `node_index`, that
    /// of `node_index` first, then in the order of the triangle.
    pub fn face_corners(&self, node_index: i32) -> (corners: (i32, i32, i32))
        requires
            self.wf(),
            is_live(self.nodes@, node_index as int),
        ensures
            corners.0 == self.nodes@[node_index as int].position,
            corners.1 == self.nodes@[next_corner(self.nodes@, node_index as int)].position,
            corners.2 == self.nodes@[next_corner(
                self.nodes@,
                next_corner(self.nodes@, node_index as int),
            )].position,
            0 <= corners.0 < self.positions@.len(),
            0 <= corners.1 < self.positions@.len(),
            0 <= corners.2 < self.positions@.len(),
    {
        proof {
            let count = self.positions@.len() as int;
            let b = next_corner(self.nodes@, node_index as int);
            assert(node_wf(self.nodes@, count, node_index as int));
            assert(node_wf(self.nodes@, count, b));
            assert(node_wf(self.nodes@, count, next_corner(self.nodes@, b)));
        }
        let node_a = self.nodes[node_index as usize];
        let node_b = self.nodes[node_a.relative as usize];
        let node_c = self.nodes[node_b.relative as usize];
        (node_a.position, node_b.position, node_c.position)
    }

    /// The number of faces along the edge from the position of
    /// `node_index_a` to the position of `node_index_b`: the faces around
    /// the first position that have a corner at the second. An edge with
    /// fewer than two is on the border of the mesh.
    pub fn faces_attached(&self, node_index_a: i32, node_index_b: i32) -> (faces: u64)
        requires
            self.wf(),
            is_live(self.nodes@, node_index_a as int),
            0 <= node_index_b < self.nodes@.len(),
        ensures
            faces == attached(
                self.nodes@,
                ring_from(self.nodes@, node_index_a as int),
                self.nodes@[node_index_b as int].position as int,
            ),
    {
        let pos_b = self.nodes[node_index_b as usize].position;
        let ghost nodes = self.nodes@;
        let ghost count = self.positions@.len() as int;
        let ghost ring: Seq<int>;
        proof {
            assert(node_wf(nodes, count, node_index_a as int));
            ring = lemma_fan_from(nodes, node_index_a as int);
            lemma_ring_from(nodes, ring);
            crate::ring::lemma_ring_bounded(nodes, ring);
            assert(ring.subrange(0, 0) =~= Seq::<int>::empty());
        }
        let mut faces: u64 = 0;
        let mut sibling_of_a: i32 = node_index_a;
        let ghost mut i: int = 0;
        loop
            invariant_except_break
                0 <= i < ring.len(),
                sibling_of_a == ring[i],
                faces == attached(nodes, ring.subrange(0, i), pos_b as int),
            invariant
                nodes == self.nodes@,
                count == self.positions@.len(),
                self.wf(),
                is_ring(nodes, ring),
                ring[0] == node_index_a,
                ring.len() <= nodes.len(),
                nodes.len() <= i32::MAX,
                forall|j: int| 0 <= j < ring.len() ==> !nodes[#[trigger] ring[j]].is_removed,
            ensures
                faces == attached(nodes, ring, pos_b as int),
            decreases ring.len() - i,
        {
            proof {
                let s = sibling_of_a as int;
                assert(!nodes[ring[i]].is_removed);
                assert(node_wf(nodes, count, s));
                assert(is_triangle(nodes, s));
                lemma_attached_bounded(nodes, ring.subrange(0, i), pos_b as int);
                let longer = ring.subrange(0, i + 1);
                assert(longer.drop_last() =~= ring.subrange(0, i));
                assert(longer.last() == s);
                assert(attached(nodes, longer, pos_b as int) == attached(
                    nodes,
                    ring.subrange(0, i),
                    pos_b as int,
                ) + corners_at(nodes, s, pos_b as int));
            }
            let node = self.nodes[sibling_of_a as usize];
            let node_1 = self.nodes[node.relative as usize];
            let node_2 = self.nodes[node_1.relative as usize];
            if node.position == pos_b {
                faces = faces + 1;
            }
            if node_1.position == pos_b {
                faces = faces + 1;
            }
            if node_2.position == pos_b {
                faces = faces + 1;
            }
            let next = node.sibling;
            proof {
                i = i + 1;
                if i < ring.len() {
                    assert(ring[i] != ring[0]);
                } else {
                    assert(ring.subrange(0, i) =~= ring);
                }
            }
            if next == node_index_a {
                break ;
            }
            sibling_of_a = next;
        }
        faces
    }

    /// Each node of the ring of `survivor`, in the order of the ring, with
    /// the edge from it to the next corner of its triangle: the edges whose
    /// costs are to be looked at again once `survivor` is what a collapse
    /// left.
    pub fn neighbours(&self, survivor: i32) -> (list: Vec<(i32, Edge)>)
        requires
            self.wf(),
            is_live(self.nodes@, survivor as int),
        ensures
            list@ == ring_from(self.nodes@, survivor as int).map_values(
                |n: int| neighbour(self.nodes@, n),
            ),
            forall|j: int|
                0 <= j < list@.len() ==> is_live(self.nodes@, (#[trigger] list@[j]).0 as int)
                    && list@[j].1 == edge_from(self.nodes@, list@[j].0 as int),
    {
        let ghost nodes = self.nodes@;
        let ghost count = self.positions@.len() as int;
        let ghost ring: Seq<int>;
        proof {
            assert(node_wf(nodes, count, survivor as int));
            ring = lemma_fan_from(nodes, survivor as int);
            lemma_ring_from(nodes, ring);
        }
        let mut list: Vec<(i32, Edge)> = Vec::new();
        let mut sibling: i32 = survivor;
        let ghost mut i: int = 0;
        loop
            invariant_except_break
                0 <= i < ring.len(),
                sibling == ring[i],
                list@ == ring.subrange(0, i).map_values(|n: int| neighbour(nodes, n)),
            invariant
                nodes.len() <= i32::MAX,
                forall|j: int|
                    0 <= j < list@.len() ==> is_live(nodes, (#[trigger] list@[j]).0 as int)
                        && list@[j].1 == edge_from(nodes, list@[j].0 as int),
                nodes == self.nodes@,
                count == self.positions@.len(),
                self.wf(),
                is_ring(nodes, ring),
                ring[0] == survivor,
                forall|j: int| 0 <= j < ring.len() ==> !nodes[#[trigger] ring[j]].is_removed,
            ensures
                list@ == ring.map_values(|n: int| neighbour(nodes, n)),
            decreases ring.len() - i,
        {
            proof {
                assert(!nodes[ring[i]].is_removed);
                assert(node_wf(nodes, count, sibling as int));
                assert(node_wf(nodes, count, next_corner(nodes, sibling as int)));
            }
            let node_a = self.nodes[sibling as usize];
            let node_c = self.nodes[node_a.relative as usize];
            list.push((sibling, Edge::new(node_a.position, node_c.position)));
            let next = node_a.sibling;
            proof {
                assert(list@ =~= ring.subrange(0, i + 1).map_values(
                    |n: int| neighbour(nodes, n),
                ));
                i = i + 1;
                if i < ring.len() {
                    assert(ring[i] != ring[0]);
                } else {
                    assert(ring.subrange(0, i) =~= ring);
                }
            }
            if next == survivor {
                break ;
            }
            sibling = next;
        }
        list
    }
}

} // verus!
