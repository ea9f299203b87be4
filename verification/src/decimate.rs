//! The decimation scheduler: which edge to collapse next.
//!
//! The scheduler keeps the edges in a queue by cost, the point that each
//! edge is to be collapsed to, and a map from each position to a live node
//! there. It does not know how a cost is arrived at: costs and points are
//! handed in.

use crate::collapse::{collapsed, has_face, map_updated, occupied, straddles};
use crate::connected_mesh::{
    connected, decimated, has_distinct_corners, lemma_live_node, next_corner, node_wf,
    ConnectedMesh,
};
use crate::edge::Edge;
use crate::node::Node;
use crate::queue::{queue_change_priority, queue_new, queue_pop, queue_push, queued, EdgeQueue, Queued};
use crate::ring::is_live;
use crate::topology::edge_from;
use crate::tracker::{lookup, map_of, registered};
use std::collections::HashMap;
use vstd::prelude::*;

verus! {

/// What one step of the scheduler did.
#[derive(Debug, Copy, Clone)]
pub enum Step {
    /// Nothing: the face count is at the target or below it, or no edge is
    /// left in the queue.
    Finished,
    /// The cheapest edge was taken from the queue and dropped, because one of
    /// its positions is no longer in the mesh.
    Stale { edge: Edge },
    /// The cheapest edge was taken from the queue and collapsed, and no live
    /// node is left at the position that it was collapsed to.
    Vanished { edge: Edge },
    /// The cheapest edge was taken from the queue and collapsed; `survivor`
    /// is a live node at the position that it was collapsed to.
    Collapsed { edge: Edge, survivor: i32 },
}

/// The state of one decimation run.
pub struct Decimator<P> {
    /// The edges that wait to be collapsed, each under its two positions,
    /// smaller one first, with the mirror image of its cost as priority.
    pub queue: EdgeQueue,
    /// For each position that is still in the mesh, a live node there.
    pub position_to_node: Option<HashMap<i32, i32>>,
    /// For edges that were given a cost, the point to collapse them to,
    /// under the packed pair of their positions.
    pub collapse_to: HashMap<u64, P>,
    /// The face count at which the run ends.
    pub target: u32,
}

/// A pair of positions, smaller one first, as one number.
pub open spec fn packed(key: (i32, i32)) -> u64 {
    (key.0 as int * 0x1_0000_0000 + key.1 as int) as u64
}

/// Packs a pair of positions into one number.
pub fn pack(key: (i32, i32)) -> (number: u64)
    requires
        0 <= key.0,
        0 <= key.1,
    ensures
        number == packed(key),
{
    (key.0 as u64) * 0x1_0000_0000 + (key.1 as u64)
}

/// Different pairs of positions are packed into different numbers.
pub proof fn lemma_packed_apart(a: (i32, i32), b: (i32, i32))
    requires
        0 <= a.0,
        0 <= a.1,
        0 <= b.0,
        0 <= b.1,
        packed(a) == packed(b),
    ensures
        a == b,
{
}

/// The priority under which an edge of the given cost is queued. The queue
/// hands out the greatest priority first, so a cost is turned into its
/// mirror image: the lower the cost, the greater the priority.
pub open spec fn priority_of(cost: i64) -> i64 {
    (-1 - cost) as i64
}

/// The priority under which an edge of the given cost is queued.
pub fn mirror(cost: i64) -> (priority: i64)
    ensures
        priority == priority_of(cost),
{
    -1 - cost
}

/// The edge from node `n` to the next corner of its triangle, as a key.
pub open spec fn edge_at(nodes: Seq<Node>, n: int) -> (i32, i32) {
    edge_from(nodes, n).spec_key()
}

/// `key` is the edge from one of the first `upto` nodes, a live one, to the
/// next corner of its triangle.
pub open spec fn spans(nodes: Seq<Node>, upto: int, key: (i32, i32)) -> bool {
    exists|n: int| 0 <= n < upto && #[trigger] is_live(nodes, n) && edge_at(nodes, n) == key
}

/// One of the first `upto` nodes is live and at `position`.
pub open spec fn claimed(nodes: Seq<Node>, upto: int, position: i32) -> bool {
    exists|n: int| 0 <= n < upto && #[trigger] is_live(nodes, n) && nodes[n].position == position
}

/// The keys of a list of edges, each listed with a node that it starts from.
pub open spec fn keys_of(edges: Seq<(i32, Edge)>) -> Seq<(i32, i32)> {
    edges.map_values(|edge: (i32, Edge)| edge.1.spec_key())
}

/// What was queued is the edge with the lowest cost: no queued edge had a
/// greater priority. It is queued no longer, and nothing else has changed in
/// the queue.
pub open spec fn popped(before: Queued, after: Queued, key: (i32, i32)) -> bool {
    &&& before.contains_key(key)
    &&& forall|other: (i32, i32)| #[trigger]
        before.contains_key(other) ==> before[other] <= before[key]
    &&& after == before.remove(key)
}

impl<P> Decimator<P> {
    /// The queue holds finitely many edges, each between two different
    /// positions.
    pub open spec fn queue_wf(&self) -> bool {
        &&& queued(self.queue).dom().finite()
        &&& forall|key: (i32, i32)| #[trigger]
            queued(self.queue).contains_key(key) ==> 0 <= key.0 < key.1
    }

    /// The point that `key` is to be collapsed to, where it was given one.
    pub open spec fn point_of(&self, key: (i32, i32)) -> Option<P> {
        if self.collapse_to@.contains_key(packed(key)) {
            Some(self.collapse_to@[packed(key)])
        } else {
            None
        }
    }

    /// The run is in order for `nodes`: the queue is, and each position that
    /// the map knows points at a live node there.
    pub open spec fn wf(&self, nodes: Seq<Node>) -> bool {
        &&& self.queue_wf()
        &&& self.position_to_node is Some
        &&& registered(map_of(self.position_to_node), nodes)
    }

    /// The number of edges that are left in the queue.
    pub open spec fn remaining(&self) -> nat {
        queued(self.queue).dom().len()
    }

    /// Starts a run on `mesh` that is to end at `target` faces.
    ///
    /// The edge from each live node to the next corner of its triangle is
    /// queued, at cost zero for the time being, and each position with a
    /// live node is mapped to one. The edges that were queued are handed
    /// back, each once and with a node that it starts from, for their costs
    /// to be computed.
    pub fn new(mesh: &ConnectedMesh<P>, target: u32) -> (run: (Decimator<P>, Vec<(i32, Edge)>))
        requires
            mesh.wf(),
            mesh.is_nondegenerate(),
        ensures
            run.0.wf(mesh.nodes@),
            run.0.target == target,
            forall|key: (i32, i32)|
                queued(run.0.queue).contains_key(key) <==> spans(
                    mesh.nodes@,
                    mesh.nodes@.len() as int,
                    key,
                ),
            forall|key: (i32, i32)| #[trigger]
                queued(run.0.queue).contains_key(key) ==> queued(run.0.queue)[key] == priority_of(
                    0,
                ),
            forall|position: i32|
                map_of(run.0.position_to_node).contains_key(position) <==> claimed(
                    mesh.nodes@,
                    mesh.nodes@.len() as int,
                    position,
                ),
            run.0.collapse_to@ == Map::<u64, P>::empty(),
            keys_of(run.1@).no_duplicates(),
            keys_of(run.1@).to_set() == queued(run.0.queue).dom(),
            forall|i: int|
                0 <= i < run.1@.len() ==> is_live(mesh.nodes@, (#[trigger] run.1@[i]).0 as int)
                    && run.1@[i].1 == edge_from(mesh.nodes@, run.1@[i].0 as int),
            forall|i: int, j: int|
                0 <= i < j < run.1@.len() ==> (#[trigger] run.1@[i]).0 < (#[trigger] run.1@[j]).0,
            forall|i: int, n: int|
                0 <= i < run.1@.len() && #[trigger] is_live(mesh.nodes@, n) && edge_at(
                    mesh.nodes@,
                    n,
                ) == (#[trigger] run.1@[i]).1.spec_key() ==> run.1@[i].0 <= n,
            forall|n: int| #[trigger]
                is_live(mesh.nodes@, n) ==> n <= map_of(
                    run.0.position_to_node,
                )[mesh.nodes@[n].position],
    {
        let mut queue = queue_new();
        let mut map: HashMap<i32, i32> = HashMap::new();
        let mut edges: Vec<(i32, Edge)> = Vec::new();
        let len = mesh.nodes.len();
        let ghost nodes = mesh.nodes@;
        let ghost count = mesh.positions@.len() as int;
        let mut i: usize = 0;
        proof {
            assert(keys_of(edges@).to_set() =~= queued(queue).dom());
        }
        while i < len
            invariant
                nodes == mesh.nodes@,
                count == mesh.positions@.len(),
                len == nodes.len(),
                mesh.wf(),
                mesh.is_nondegenerate(),
                0 <= i <= len,
                queued(queue).dom().finite(),
                forall|key: (i32, i32)| #[trigger]
                    queued(queue).contains_key(key) ==> 0 <= key.0 < key.1 && queued(queue)[key]
                        == priority_of(0),
                forall|i: int|
                    0 <= i < edges@.len() ==> is_live(nodes, (#[trigger] edges@[i]).0 as int)
                        && edges@[i].1 == edge_from(nodes, edges@[i].0 as int),
                forall|key: (i32, i32)|
                    queued(queue).contains_key(key) <==> spans(nodes, i as int, key),
                forall|position: i32|
                    map@.contains_key(position) <==> claimed(nodes, i as int, position),
                registered(map@, nodes),
                keys_of(edges@).no_duplicates(),
                keys_of(edges@).to_set() == queued(queue).dom(),
                forall|j: int| 0 <= j < edges@.len() ==> (#[trigger] edges@[j]).0 < i,
                forall|j: int, k: int|
                    0 <= j < k < edges@.len() ==> (#[trigger] edges@[j]).0 < (
                    #[trigger] edges@[k]).0,
                forall|j: int, n: int|
                    0 <= j < edges@.len() && 0 <= n < i && #[trigger] is_live(nodes, n) && edge_at(
                        nodes,
                        n,
                    ) == (#[trigger] edges@[j]).1.spec_key() ==> edges@[j].0 <= n,
                forall|n: int|
                    0 <= n < i && #[trigger] is_live(nodes, n) ==> n <= map@[nodes[n].position],
            decreases len - i,
        {
            let node = mesh.nodes[i];
            let ghost before = queued(queue);
            let ghost map_before = map@;
            let ghost listed = keys_of(edges@);
            if !node.is_removed {
                proof {
                    assert(is_live(nodes, i as int));
                    assert(node_wf(nodes, count, i as int));
                    assert(has_distinct_corners(nodes, i as int));
                    assert(node_wf(nodes, count, next_corner(nodes, i as int)));
                }
                let next = mesh.nodes[node.relative as usize];
                let edge = Edge::new(node.position, next.position);
                let key = edge.key();
                let known = queue_push(&mut queue, key, mirror(0));
                proof {
                    if known is None {
                        assert(!spans(nodes, i as int, key));
                    }
                }
                let ghost edges_before = edges@;
                if known.is_none() {
                    edges.push((i as i32, edge));
                    proof {
                        assert forall|j: int, n: int|
                            0 <= j < edges@.len() && 0 <= n < i + 1 && #[trigger] is_live(nodes, n)
                                && edge_at(nodes, n) == (#[trigger] edges@[j]).1.spec_key() implies edges@[j].0
                            <= n by {
                            if j < edges_before.len() {
                                assert(edges@[j] == edges_before[j]);
                            } else {
                                assert(edges@[j].1.spec_key() == key);
                            }
                        }
                        assert(keys_of(edges@) =~= listed.push(key));
                        assert(!listed.contains(key)) by {
                            if listed.contains(key) {
                                assert(listed.to_set().contains(key));
                            }
                        }
                    }
                }
                map.insert(node.position, i as i32);
                proof {
                    assert(keys_of(edges@).to_set() =~= queued(queue).dom()) by {
                        assert forall|k: (i32, i32)|
                            keys_of(edges@).to_set().contains(k) <==> queued(
                                queue,
                            ).dom().contains(k) by {
                            if listed.to_set().contains(k) {
                                assert(listed.contains(k));
                            }
                            if known is None {
                                vstd::seq_lib::lemma_seq_contains_after_push(listed, key, k);
                            }
                        }
                    }
                    assert forall|k: (i32, i32)|
                        queued(queue).contains_key(k) <==> spans(nodes, i + 1, k) by {
                        if spans(nodes, i + 1, k) {
                            let n = choose|n: int|
                                0 <= n < i + 1 && #[trigger] is_live(nodes, n) && edge_at(nodes, n)
                                    == k;
                            if n < i {
                                assert(spans(nodes, i as int, k));
                            }
                        }
                        if queued(queue).contains_key(k) {
                            if k == key {
                                assert(is_live(nodes, i as int) && edge_at(nodes, i as int) == k);
                            } else {
                                assert(spans(nodes, i as int, k));
                                let n = choose|n: int|
                                    0 <= n < i && #[trigger] is_live(nodes, n) && edge_at(nodes, n)
                                        == k;
                                assert(is_live(nodes, n));
                            }
                        }
                    }
                    assert forall|position: i32|
                        map@.contains_key(position) <==> claimed(nodes, i + 1, position) by {
                        if claimed(nodes, i + 1, position) {
                            let n = choose|n: int|
                                0 <= n < i + 1 && #[trigger] is_live(nodes, n)
                                    && nodes[n].position == position;
                            if n < i {
                                assert(claimed(nodes, i as int, position));
                            }
                        }
                        if map@.contains_key(position) {
                            if position == node.position {
                                assert(is_live(nodes, i as int));
                            } else {
                                assert(claimed(nodes, i as int, position));
                                let n = choose|n: int|
                                    0 <= n < i && #[trigger] is_live(nodes, n)
                                        && nodes[n].position == position;
                                assert(is_live(nodes, n));
                            }
                        }
                    }
                }
            } else {
                proof {
                    assert forall|k: (i32, i32)|
                        queued(queue).contains_key(k) <==> spans(nodes, i + 1, k) by {
                        if spans(nodes, i + 1, k) {
                            let n = choose|n: int|
                                0 <= n < i + 1 && #[trigger] is_live(nodes, n) && edge_at(nodes, n)
                                    == k;
                            assert(spans(nodes, i as int, k));
                        }
                        if spans(nodes, i as int, k) {
                            let n = choose|n: int|
                                0 <= n < i && #[trigger] is_live(nodes, n) && edge_at(nodes, n)
                                    == k;
                            assert(is_live(nodes, n));
                        }
                    }
                    assert forall|position: i32|
                        map@.contains_key(position) <==> claimed(nodes, i + 1, position) by {
                        if claimed(nodes, i + 1, position) {
                            let n = choose|n: int|
                                0 <= n < i + 1 && #[trigger] is_live(nodes, n)
                                    && nodes[n].position == position;
                            assert(claimed(nodes, i as int, position));
                        }
                        if claimed(nodes, i as int, position) {
                            let n = choose|n: int|
                                0 <= n < i && #[trigger] is_live(nodes, n) && nodes[n].position
                                    == position;
                            assert(is_live(nodes, n));
                        }
                    }
                }
            }
            i = i + 1;
        }
        (Decimator { queue, position_to_node: Some(map), collapse_to: HashMap::new(), target }, edges)
    }

    /// Gives a queued edge its cost and the point to collapse it to. An edge
    /// that is not in the queue is not put there, and its point is dropped.
    /// Says whether the edge was in the queue.
    pub fn refresh(&mut self, edge: Edge, cost: i64, point: P) -> (known: bool)
        requires
            old(self).queue_wf(),
        ensures
            known == queued(old(self).queue).contains_key(edge.spec_key()),
            queued(final(self).queue) == (if known {
                queued(old(self).queue).insert(edge.spec_key(), priority_of(cost))
            } else {
                queued(old(self).queue)
            }),
            final(self).collapse_to@ == (if known {
                old(self).collapse_to@.insert(packed(edge.spec_key()), point)
            } else {
                old(self).collapse_to@
            }),
            final(self).position_to_node == old(self).position_to_node,
            final(self).target == old(self).target,
            final(self).queue_wf(),
            final(self).remaining() == old(self).remaining(),
    {
        let key = edge.key();
        let before = queue_change_priority(&mut self.queue, key, mirror(cost));
        proof {
            if before is Some {
                assert(queued(self.queue).dom() =~= queued(old(self).queue).dom());
            }
        }
        if before.is_some() {
            self.collapse_to.insert(pack(key), point);
            true
        } else {
            false
        }
    }

    /// Takes the cheapest edge from the queue and collapses it, the greater
    /// of its two positions into the smaller, which is then moved to the
    /// point that the edge was given.
    ///
    /// Does nothing and says `Finished` once the face count is at the target
    /// or below it, or where no edge is left. An edge with a position that
    /// the map no longer knows is dropped as `Stale`. Each step that is not
    /// `Finished` leaves one edge less in the queue.
    pub fn step(&mut self, mesh: &mut ConnectedMesh<P>) -> (step: Step)
        requires
            old(mesh).wf(),
            old(mesh).is_nondegenerate(),
            old(self).wf(old(mesh).nodes@),
        ensures
            final(mesh).wf(),
            final(mesh).is_nondegenerate(),
            final(self).wf(final(mesh).nodes@),
            final(self).target == old(self).target,
            final(mesh).face_count <= old(mesh).face_count,
            decimated(old(mesh).nodes@, final(mesh).nodes@),
            final(mesh).positions@.len() == old(mesh).positions@.len(),
            match step {
                Step::Finished => {
                    &&& old(mesh).face_count <= old(self).target || queued(old(self).queue)
                        == Queued::empty()
                    &&& final(mesh).nodes@ == old(mesh).nodes@
                    &&& final(mesh).positions@ == old(mesh).positions@
                    &&& final(mesh).face_count == old(mesh).face_count
                    &&& queued(final(self).queue) == queued(old(self).queue)
                    &&& final(self).collapse_to@ == old(self).collapse_to@
                    &&& final(self).position_to_node == old(self).position_to_node
                },
                Step::Stale { edge } => {
                    &&& old(mesh).face_count > old(self).target
                    &&& old(self).pops(*final(self), edge)
                    &&& !(map_of(old(self).position_to_node).contains_key(edge.pos_a) && map_of(
                        old(self).position_to_node,
                    ).contains_key(edge.pos_b))
                    &&& final(mesh).nodes@ == old(mesh).nodes@
                    &&& final(mesh).positions@ == old(mesh).positions@
                    &&& final(mesh).face_count == old(mesh).face_count
                    &&& final(self).position_to_node == old(self).position_to_node
                },
                Step::Vanished { edge } => {
                    &&& final(mesh).positions@ == old(mesh).positions@
                    &&& old(self).collapses(
                        *final(self),
                        old(mesh).nodes@,
                        final(mesh).nodes@,
                        old(mesh).face_count,
                        final(mesh).face_count,
                        edge,
                        -1i32,
                    )
                },
                Step::Collapsed { edge, survivor } => {
                    &&& survivor != -1
                    &&& final(mesh).positions@ == (match old(self).point_of(edge.spec_key()) {
                        Some(point) => old(mesh).positions@.update(edge.pos_a as int, point),
                        None => old(mesh).positions@,
                    })
                    &&& old(self).collapses(
                        *final(self),
                        old(mesh).nodes@,
                        final(mesh).nodes@,
                        old(mesh).face_count,
                        final(mesh).face_count,
                        edge,
                        survivor,
                    )
                },
            },
            !(step is Finished) ==> final(self).remaining() < old(self).remaining(),
    {
        if mesh.face_count <= self.target {
            return Step::Finished;
        }
        let ghost before = queued(self.queue);
        match queue_pop(&mut self.queue) {
            None => Step::Finished,
            Some((key, _)) => {
                proof {
                    assert(before.contains_key(key));
                    assert(queued(self.queue).dom() =~= before.dom().remove(key));
                }
                let edge = Edge::new(key.0, key.1);
                let point = self.collapse_to.remove(&pack(key));
                let node_a = lookup(&self.position_to_node, key.0);
                let node_b = lookup(&self.position_to_node, key.1);
                match (node_a, node_b) {
                    (Some(node_index_a), Some(node_index_b)) => {
                        proof {
                            let map = map_of(self.position_to_node);
                            assert(map.contains_key(key.0));
                            assert(map.contains_key(key.1));
                            assert(node_wf(
                                mesh.nodes@,
                                mesh.positions@.len() as int,
                                node_index_a as int,
                            ));
                        }
                        let survivor = mesh.collapse_edge_to_a(
                            node_index_a,
                            node_index_b,
                            &mut self.position_to_node,
                        );
                        if survivor < 0 {
                            Step::Vanished { edge }
                        } else {
                            match point {
                                Some(point) => {
                                    mesh.positions.set(key.0 as usize, point);
                                },
                                None => {},
                            }
                            Step::Collapsed { edge, survivor }
                        }
                    },
                    _ => Step::Stale { edge },
                }
            },
        }
    }

    /// The cheapest edge leaves the queue: `edge` was queued with a priority
    /// that no queued edge exceeded; it is queued no longer, its point is
    /// forgotten, and nothing else has changed in the queue or the points.
    pub open spec fn pops(self, after: Decimator<P>, edge: Edge) -> bool {
        &&& popped(queued(self.queue), queued(after.queue), edge.spec_key())
        &&& after.collapse_to@ == self.collapse_to@.remove(packed(edge.spec_key()))
    }

    /// What a step that collapsed `edge` did: the edge was the cheapest in
    /// the queue and is queued no longer; the map knew a node at each of its
    /// positions, and the mesh is as the collapse of these two nodes leaves
    /// it, the map with it. The face count is lower exactly where a live
    /// face lay on the edge.
    pub open spec fn collapses(
        self,
        after: Decimator<P>,
        nodes: Seq<Node>,
        nodes_after: Seq<Node>,
        face_count: u32,
        face_count_after: u32,
        edge: Edge,
        survivor: i32,
    ) -> bool {
        let map = map_of(self.position_to_node);
        &&& face_count > self.target
        &&& face_count_after < face_count <==> has_face(
            nodes,
            edge.pos_a as int,
            edge.pos_b as int,
        )
        &&& edge.pos_a < edge.pos_b
        &&& self.pops(after, edge)
        &&& map.contains_key(edge.pos_a)
        &&& map.contains_key(edge.pos_b)
        &&& collapsed(nodes, nodes_after, edge.pos_a as int, edge.pos_b as int)
        &&& survivor == -1 <==> !occupied(nodes_after, edge.pos_a as int)
        &&& survivor != -1 ==> is_live(nodes_after, survivor as int)
            && nodes_after[survivor as int].position == edge.pos_a
        &&& map_updated(
            map,
            map_of(after.position_to_node),
            nodes,
            nodes_after,
            edge.pos_a as int,
            edge.pos_b as int,
            survivor,
        )
    }
}

/// `after` is `before` with one edge collapsed.
pub open spec fn one_collapse(before: Seq<Node>, after: Seq<Node>) -> bool {
    exists|a: int, b: int| #[trigger] collapsed(before, after, a, b)
}

/// Each entry of `steps` but the first is the one before it with one edge
/// collapsed.
pub open spec fn is_run(steps: Seq<Seq<Node>>) -> bool {
    &&& steps.len() > 0
    &&& forall|i: int|
        0 <= i < steps.len() - 1 ==> one_collapse(#[trigger] steps[i], steps[i + 1])
}

/// `after` is reached from `before` by collapsing edges, one after another.
pub open spec fn collapsed_to(before: Seq<Node>, after: Seq<Node>) -> bool {
    exists|steps: Seq<Seq<Node>>| #[trigger]
        is_run(steps) && steps[0] == before && steps.last() == after
}

/// `compute_quadric` may be called for any live node of a well-formed mesh.
pub open spec fn takes_nodes<P, Q: Fn(&ConnectedMesh<P>, i32)>(compute_quadric: Q) -> bool {
    forall|mesh: &ConnectedMesh<P>, node_index: i32|
        mesh.wf() && is_live(mesh.nodes@, node_index as int) ==> #[trigger] compute_quadric.requires(
            (mesh, node_index),
        )
}

/// `compute_error` may be called for any live node of a well-formed mesh,
/// with the edge from that node to the next corner of its triangle.
pub open spec fn takes_edges<P, E: Fn(&ConnectedMesh<P>, i32, Edge) -> (i64, P)>(
    compute_error: E,
) -> bool {
    forall|mesh: &ConnectedMesh<P>, node_index: i32, edge: Edge|
        mesh.wf() && is_live(mesh.nodes@, node_index as int) && edge == edge_from(
            mesh.nodes@,
            node_index as int,
        ) ==> #[trigger] compute_error.requires((mesh, node_index, edge))
}

/// `point` is a point that `compute_error` has handed back for some edge.
pub open spec fn returned_by<P, E: Fn(&ConnectedMesh<P>, i32, Edge) -> (i64, P)>(
    compute_error: E,
    point: P,
) -> bool {
    exists|mesh: &ConnectedMesh<P>, node_index: i32, edge: Edge, cost: i64| #[trigger]
        compute_error.ensures((mesh, node_index, edge), (cost, point))
}

/// Each position is as it was or is a point that `compute_error` has handed
/// back.
pub open spec fn moved_by<P, E: Fn(&ConnectedMesh<P>, i32, Edge) -> (i64, P)>(
    compute_error: E,
    before: Seq<P>,
    after: Seq<P>,
) -> bool {
    &&& after.len() == before.len()
    &&& forall|i: int|
        0 <= i < before.len() ==> #[trigger] after[i] == before[i] || returned_by(
            compute_error,
            after[i],
        )
}

/// Every point that is kept for an edge is one that `compute_error` has
/// handed back.
spec fn points_from<P, E: Fn(&ConnectedMesh<P>, i32, Edge) -> (i64, P)>(
    compute_error: E,
    points: Map<u64, P>,
) -> bool {
    forall|k: u64| #[trigger] points.contains_key(k) ==> returned_by(compute_error, points[k])
}

/// A run that has taken no step yet: every edge of a live node is queued,
/// and every position with a live node is known.
pub open spec fn at_start<P>(run: Decimator<P>, nodes: Seq<Node>) -> bool {
    &&& forall|key: (i32, i32)|
        queued(run.queue).contains_key(key) <==> spans(nodes, nodes.len() as int, key)
    &&& forall|position: i32|
        map_of(run.position_to_node).contains_key(position) <==> claimed(
            nodes,
            nodes.len() as int,
            position,
        )
}

/// The first edge that a run takes from the queue has a live face on it and
/// both of its positions are known.
proof fn lemma_first_edge<P>(run: Decimator<P>, nodes: Seq<Node>, count: int, edge: Edge)
    requires
        connected(nodes, count),
        at_start(run, nodes),
        queued(run.queue).contains_key(edge.spec_key()),
    ensures
        map_of(run.position_to_node).contains_key(edge.pos_a),
        map_of(run.position_to_node).contains_key(edge.pos_b),
        has_face(nodes, edge.pos_a as int, edge.pos_b as int),
{
    let key = edge.spec_key();
    assert(spans(nodes, nodes.len() as int, key));
    let n = choose|n: int|
        0 <= n < nodes.len() && #[trigger] is_live(nodes, n) && edge_at(nodes, n) == key;
    let next = next_corner(nodes, n);
    assert(node_wf(nodes, count, n));
    assert(is_live(nodes, next));
    assert(claimed(nodes, nodes.len() as int, nodes[n].position));
    assert(claimed(nodes, nodes.len() as int, nodes[next].position));
    assert(straddles(nodes, n, edge.pos_a as int, edge.pos_b as int));
}

/// The face count that a ratio stands for: the given share of `face_count`,
/// rounded down.
pub open spec fn ratio_target(face_count: u32, numerator: u32, denominator: u32) -> int {
    (face_count as int * numerator as int) / denominator as int
}

proof fn lemma_ratio_target(face_count: u32, numerator: u32, denominator: u32)
    requires
        0 < denominator,
        numerator <= denominator,
    ensures
        0 <= ratio_target(face_count, numerator, denominator) <= face_count,
{
    let whole = face_count as int * numerator as int;
    let den = denominator as int;
    assert(0 <= whole <= face_count as int * den) by (nonlinear_arith)
        requires
            whole == face_count as int * numerator as int,
            0 <= numerator as int <= den,
            0 <= face_count as int,
    ;
    assert(0 <= whole / den <= face_count as int) by (nonlinear_arith)
        requires
            0 <= whole <= face_count as int * den,
            0 < den,
    ;
}

impl<P> ConnectedMesh<P> {
    /// Decimates down to the given share of the faces that the mesh has now,
    /// rounded down. The share is `numerator / denominator`, above zero and
    /// no more than one. A mesh that has no more faces than that is left as
    /// it is; otherwise the face count goes down.
    pub fn decimate_to_ratio<Q, E>(
        &mut self,
        numerator: u32,
        denominator: u32,
        compute_quadric: Q,
        compute_error: E,
    ) -> (run: Decimator<P>) where
        Q: Fn(&ConnectedMesh<P>, i32),
        E: Fn(&ConnectedMesh<P>, i32, Edge) -> (i64, P),

        requires
            old(self).wf(),
            old(self).is_nondegenerate(),
            0 < numerator <= denominator,
            takes_nodes(compute_quadric),
            takes_edges(compute_error),
        ensures
            final(self).wf(),
            final(self).is_nondegenerate(),
            run.wf(final(self).nodes@),
            run.target == ratio_target(old(self).face_count, numerator, denominator),
            final(self).face_count <= old(self).face_count,
            final(self).face_count <= run.target || queued(run.queue) == Queued::empty(),
            old(self).face_count > run.target ==> final(self).face_count < old(self).face_count,
            old(self).face_count <= run.target ==> final(self).nodes@ == old(self).nodes@
                && final(self).positions@ == old(self).positions@ && final(self).face_count
                == old(self).face_count && at_start(run, final(self).nodes@),
            collapsed_to(old(self).nodes@, final(self).nodes@),
            decimated(old(self).nodes@, final(self).nodes@),
            moved_by(compute_error, old(self).positions@, final(self).positions@),
    {
        proof {
            lemma_ratio_target(self.face_count, numerator, denominator);
            assert(self.face_count as int * numerator as int <= u64::MAX) by (nonlinear_arith)
                requires
                    0 <= self.face_count as int <= u32::MAX,
                    0 <= numerator as int <= u32::MAX,
            ;
        }
        let target = (self.face_count as u64 * numerator as u64 / denominator as u64) as u32;
        self.decimate(target, compute_quadric, compute_error)
    }

    /// Collapses edges, cheapest first, until no more than
    /// `target_triangle_count` faces are left or no edge is left to try.
    ///
    /// `compute_quadric` is told to work out the error quadric of the
    /// position of a node: once for each position at the start, and after
    /// each collapse for the position collapsed to and for the positions
    /// around it. `compute_error` is asked for the cost of an edge and the
    /// point to collapse it to, and is given a node that the edge starts
    /// from: once for each edge at the start, and after each collapse for
    /// the edges around the position collapsed to.
    ///
    /// A mesh that is at the target already is left as it is. Otherwise the
    /// face count goes down, and each position that has moved is at a point
    /// that `compute_error` handed back. The run is handed back as it ended:
    /// where the target was not reached, its queue is empty.
    pub fn decimate<Q, E>(
        &mut self,
        target_triangle_count: u32,
        compute_quadric: Q,
        compute_error: E,
    ) -> (run: Decimator<P>) where
        Q: Fn(&ConnectedMesh<P>, i32),
        E: Fn(&ConnectedMesh<P>, i32, Edge) -> (i64, P),

        requires
            old(self).wf(),
            old(self).is_nondegenerate(),
            takes_nodes(compute_quadric),
            takes_edges(compute_error),
        ensures
            final(self).wf(),
            final(self).is_nondegenerate(),
            run.wf(final(self).nodes@),
            run.target == target_triangle_count,
            final(self).face_count <= old(self).face_count,
            final(self).face_count <= target_triangle_count || queued(run.queue)
                == Queued::empty(),
            old(self).face_count > target_triangle_count ==> final(self).face_count < old(
                self,
            ).face_count,
            old(self).face_count <= target_triangle_count ==> final(self).nodes@ == old(
                self,
            ).nodes@ && final(self).positions@ == old(self).positions@ && final(self).face_count
                == old(self).face_count && at_start(run, final(self).nodes@),
            collapsed_to(old(self).nodes@, final(self).nodes@),
            decimated(old(self).nodes@, final(self).nodes@),
            moved_by(compute_error, old(self).positions@, final(self).positions@),
    {
        let (mut run, edges) = Decimator::new(self, target_triangle_count);
        let len = self.nodes.len();
        let count = self.positions.len();
        let mut seen: Vec<bool> = Vec::new();
        let mut p: usize = 0;
        while p < count
            invariant
                0 <= p <= count,
                seen@.len() == p,
            decreases count - p,
        {
            seen.push(false);
            p = p + 1;
        }
        let mut i: usize = 0;
        while i < len
            invariant
                self.wf(),
                len == self.nodes@.len(),
                count == self.positions@.len(),
                seen@.len() == count,
                0 <= i <= len,
                takes_nodes(compute_quadric),
            decreases len - i,
        {
            let node = self.nodes[i];
            if !node.is_removed {
                proof {
                    assert(node_wf(self.nodes@, count as int, i as int));
                }
                if !seen[node.position as usize] {
                    seen.set(node.position as usize, true);
                    compute_quadric(self, i as i32);
                }
            }
            i = i + 1;
        }
        let mut k: usize = 0;
        while k < edges.len()
            invariant
                self.wf(),
                count == self.positions@.len(),
                0 <= k <= edges@.len(),
                takes_edges(compute_error),
                run.wf(self.nodes@),
                run.target == target_triangle_count,
                at_start(run, self.nodes@),
                points_from(compute_error, run.collapse_to@),
                forall|i: int|
                    0 <= i < edges@.len() ==> is_live(self.nodes@, (#[trigger] edges@[i]).0 as int)
                        && edges@[i].1 == edge_from(self.nodes@, edges@[i].0 as int),
            decreases edges@.len() - k,
        {
            let (node_index, edge) = edges[k];
            let (cost, point) = compute_error(self, node_index, edge);
            proof {
                assert(compute_error.ensures((&*self, node_index, edge), (cost, point)));
                assert(returned_by(compute_error, point));
            }
            run.refresh(edge, cost, point);
            k = k + 1;
        }
        let ghost mut steps: Seq<Seq<Node>> = seq![self.nodes@];
        let ghost mut fresh: bool = true;
        loop
            invariant
                self.wf(),
                self.is_nondegenerate(),
                run.wf(self.nodes@),
                run.target == target_triangle_count,
                self.face_count <= old(self).face_count,
                fresh ==> at_start(run, self.nodes@) && self.nodes@ == old(self).nodes@
                    && self.positions@ == old(self).positions@ && self.face_count == old(
                    self,
                ).face_count,
                !fresh ==> old(self).face_count > target_triangle_count && self.face_count < old(
                    self,
                ).face_count,
                points_from(compute_error, run.collapse_to@),
                moved_by(compute_error, old(self).positions@, self.positions@),
                is_run(steps),
                steps[0] == old(self).nodes@,
                steps.last() == self.nodes@,
                decimated(old(self).nodes@, self.nodes@),
                self.positions@.len() == old(self).positions@.len(),
                takes_nodes(compute_quadric),
                takes_edges(compute_error),
            ensures
                self.face_count <= target_triangle_count || queued(run.queue) == Queued::empty(),
                old(self).face_count > target_triangle_count ==> !fresh,
                fresh ==> at_start(run, self.nodes@),
            decreases run.remaining(),
        {
            let ghost left = run.remaining();
            let ghost nodes = self.nodes@;
            let ghost before = run;
            let ghost count = self.positions@.len() as int;
            let ghost positions = self.positions@;
            match run.step(self) {
                Step::Finished => {
                    proof {
                        if fresh && self.face_count > target_triangle_count {
                            let n = lemma_live_node(nodes);
                            assert(spans(nodes, nodes.len() as int, edge_at(nodes, n)));
                            assert(queued(before.queue).contains_key(edge_at(nodes, n)));
                        }
                    }
                    break ;
                },
                Step::Stale { edge } => {
                    proof {
                        if fresh {
                            lemma_first_edge(before, nodes, count, edge);
                        }
                    }
                },
                Step::Vanished { edge } => {
                    proof {
                        if fresh {
                            lemma_first_edge(before, nodes, count, edge);
                        }
                        fresh = false;
                        assert(collapsed(nodes, self.nodes@, edge.pos_a as int, edge.pos_b as int));
                        steps = steps.push(self.nodes@);
                    }
                },
                Step::Collapsed { edge, survivor } => {
                    proof {
                        if fresh {
                            lemma_first_edge(before, nodes, count, edge);
                        }
                        fresh = false;
                        assert(node_wf(self.nodes@, count, survivor as int));
                        assert(0 <= edge.pos_a < positions.len());
                        assert forall|i: int| 0 <= i < positions.len() implies #[trigger] self.positions@[i]
                            == old(self).positions@[i] || returned_by(
                            compute_error,
                            self.positions@[i],
                        ) by {
                            assert(positions[i] == old(self).positions@[i] || returned_by(
                                compute_error,
                                positions[i],
                            ));
                            if before.point_of(edge.spec_key()) is Some {
                                assert(before.collapse_to@.contains_key(packed(edge.spec_key())));
                            }
                        }
                        assert(collapsed(nodes, self.nodes@, edge.pos_a as int, edge.pos_b as int));
                        steps = steps.push(self.nodes@);
                    }
                    compute_quadric(self, survivor);
                    let around = self.neighbours(survivor);
                    let mut j: usize = 0;
                    while j < around.len()
                        invariant
                            self.wf(),
                            0 <= j <= around@.len(),
                            run.wf(self.nodes@),
                            run.target == target_triangle_count,
                            run.remaining() < left,
                            points_from(compute_error, run.collapse_to@),
                            takes_nodes(compute_quadric),
                            takes_edges(compute_error),
                            forall|j: int|
                                0 <= j < around@.len() ==> is_live(
                                    self.nodes@,
                                    (#[trigger] around@[j]).0 as int,
                                ) && around@[j].1 == edge_from(self.nodes@, around@[j].0 as int),
                        decreases around@.len() - j,
                    {
                        let (node_index_a, edge) = around[j];
                        proof {
                            assert(node_wf(
                                self.nodes@,
                                self.positions@.len() as int,
                                node_index_a as int,
                            ));
                        }
                        let node_index_c = self.nodes[node_index_a as usize].relative;
                        compute_quadric(self, node_index_c);
                        let (cost, point) = compute_error(self, node_index_a, edge);
                        proof {
                            assert(compute_error.ensures(
                                (&*self, node_index_a, edge),
                                (cost, point),
                            ));
                            assert(returned_by(compute_error, point));
                        }
                        run.refresh(edge, cost, point);
                        j = j + 1;
                    }
                },
            }
        }
        run
    }
}

} // verus!
