//! Checking at run time that a mesh is well formed.

use crate::connected_mesh::{
    connected, has_distinct_corners, has_fan, is_fan, is_triangle, lemma_fan_from, live_count,
    node_wf, ConnectedMesh,
};
use crate::navigation::{lemma_loops_closes, walk_of, Link};
use crate::node::Node;
use crate::ring::{is_live, is_ring, lemma_ring_unique, ring_from};
use vstd::prelude::*;
use vstd::set_lib::{lemma_int_range, lemma_len_subset, set_int_range};

verus! {

/// The live nodes at `position` among the first `upto` nodes.
pub open spec fn claimants(nodes: Seq<Node>, position: int, upto: int) -> Set<int> {
    Set::new(|n: int| 0 <= n < upto && is_live(nodes, n) && nodes[n].position == position)
}

proof fn lemma_claimants_finite(nodes: Seq<Node>, position: int, upto: int)
    requires
        0 <= upto,
    ensures
        claimants(nodes, position, upto).finite(),
        claimants(nodes, position, upto).len() <= upto,
{
    let all = set_int_range(0, upto);
    lemma_int_range(0, upto);
    assert(claimants(nodes, position, upto).subset_of(all));
    lemma_len_subset(claimants(nodes, position, upto), all);
}

proof fn lemma_claimants_step(nodes: Seq<Node>, position: int, upto: int)
    requires
        0 <= upto < nodes.len(),
    ensures
        claimants(nodes, position, upto + 1) == (if is_live(nodes, upto) && nodes[upto].position
            == position {
            claimants(nodes, position, upto).insert(upto)
        } else {
            claimants(nodes, position, upto)
        }),
        claimants(nodes, position, upto + 1).len() == claimants(nodes, position, upto).len() + (
        if is_live(nodes, upto) && nodes[upto].position == position {
            1nat
        } else {
            0nat
        }),
{
    lemma_claimants_finite(nodes, position, upto);
    if is_live(nodes, upto) && nodes[upto].position == position {
        assert(claimants(nodes, position, upto + 1) =~= claimants(nodes, position, upto).insert(
            upto,
        ));
    } else {
        assert(claimants(nodes, position, upto + 1) =~= claimants(nodes, position, upto));
    }
}

proof fn lemma_live_count_step(nodes: Seq<Node>, upto: int)
    requires
        0 <= upto < nodes.len(),
    ensures
        live_count(nodes.subrange(0, upto + 1)) == live_count(nodes.subrange(0, upto)) + (
        if nodes[upto].is_removed {
            0nat
        } else {
            1nat
        }),
{
    assert(nodes.subrange(0, upto + 1).drop_last() =~= nodes.subrange(0, upto));
}

/// A ring of live nodes at one position that has as many members as there
/// are live nodes at the position is the fan of the position.
proof fn lemma_full_ring_is_fan(nodes: Seq<Node>, ring: Seq<int>, position: int)
    requires
        is_ring(nodes, ring),
        forall|j: int|
            0 <= j < ring.len() ==> !nodes[#[trigger] ring[j]].is_removed
                && nodes[ring[j]].position == position,
        ring.len() == claimants(nodes, position, nodes.len() as int).len(),
    ensures
        is_fan(nodes, ring, position),
{
    let all = claimants(nodes, position, nodes.len() as int);
    lemma_claimants_finite(nodes, position, nodes.len() as int);
    ring.unique_seq_to_set();
    assert(ring.to_set().subset_of(all)) by {
        assert forall|n: int| ring.to_set().contains(n) implies all.contains(n) by {
            let j = choose|j: int| 0 <= j < ring.len() && ring[j] == n;
            assert(!nodes[ring[j]].is_removed);
        }
    }
    vstd::set_lib::lemma_subset_equality(ring.to_set(), all);
    assert forall|n: int| is_live(nodes, n) && nodes[n].position == position implies #[trigger]
        ring.contains(n) by {
        assert(all.contains(n));
        assert(ring.to_set().contains(n));
    }
}

/// The fan of a position has as many members as there are live nodes at the
/// position.
proof fn lemma_fan_is_full(nodes: Seq<Node>, ring: Seq<int>, position: int)
    requires
        is_fan(nodes, ring, position),
    ensures
        ring.len() == claimants(nodes, position, nodes.len() as int).len(),
{
    let all = claimants(nodes, position, nodes.len() as int);
    ring.unique_seq_to_set();
    assert(ring.to_set() =~= all) by {
        assert forall|n: int| ring.to_set().contains(n) <==> all.contains(n) by {
            if ring.to_set().contains(n) {
                let j = choose|j: int| 0 <= j < ring.len() && ring[j] == n;
                assert(!nodes[ring[j]].is_removed);
            }
            if all.contains(n) {
                assert(ring.contains(n));
            }
        }
    }
}

impl<P> ConnectedMesh<P> {
    /// Says whether the mesh is well formed.
    pub fn is_well_formed(&self) -> (ok: bool)
        ensures
            ok == self.wf(),
    {
        let len = self.nodes.len();
        let count = self.positions.len();
        if len > 2147483647 {
            return false;
        }
        let ghost nodes = self.nodes@;
        let mut claimed: Vec<usize> = Vec::new();
        let mut checked: Vec<bool> = Vec::new();
        let mut p: usize = 0;
        while p < count
            invariant
                0 <= p <= count,
                claimed@.len() == p,
                checked@.len() == p,
                forall|q: int| 0 <= q < p ==> claimed@[q] == 0 && !checked@[q],
            decreases count - p,
        {
            claimed.push(0);
            checked.push(false);
            p = p + 1;
        }
        proof {
            assert forall|q: int| 0 <= q < count implies claimants(nodes, q, 0).len() == 0 by {
                assert(claimants(nodes, q, 0) =~= Set::<int>::empty());
            }
            assert(nodes.subrange(0, 0) =~= Seq::<Node>::empty());
        }
        let mut live: usize = 0;
        let mut i: usize = 0;
        while i < len
            invariant
                nodes == self.nodes@,
                len == nodes.len(),
                len <= i32::MAX,
                count == self.positions@.len(),
                0 <= i <= len,
                claimed@.len() == count,
                live == live_count(nodes.subrange(0, i as int)),
                live <= i,
                forall|q: int|
                    0 <= q < count ==> #[trigger] claimed@[q] == claimants(nodes, q, i as int).len(),
                forall|n: int|
                    0 <= n < i && is_live(nodes, n) ==> is_triangle(nodes, n) && 0
                        <= (#[trigger] nodes[n]).position < count,
            decreases len - i,
        {
            let node = self.nodes[i];
            proof {
                lemma_live_count_step(nodes, i as int);
                assert forall|q: int| 0 <= q < count implies claimants(nodes, q, i + 1).len() == (
                #[trigger] claimed@[q]) + (if is_live(nodes, i as int) && nodes[i as int].position
                    == q {
                    1int
                } else {
                    0int
                }) by {
                    lemma_claimants_step(nodes, q, i as int);
                }
            }
            if !node.is_removed {
                let position = node.position;
                let corner_1 = node.relative;
                if position < 0 || position as usize >= count || corner_1 < 0 || corner_1 as usize
                    >= len || corner_1 as usize == i {
                    proof {
                        assert(!node_wf(nodes, count as int, i as int));
                        assert(is_live(nodes, i as int));
                    }
                    return false;
                }
                let node_1 = self.nodes[corner_1 as usize];
                let corner_2 = node_1.relative;
                if node_1.is_removed || corner_2 < 0 || corner_2 as usize >= len
                    || corner_2 as usize == i || corner_2 == corner_1 {
                    proof {
                        assert(!node_wf(nodes, count as int, i as int));
                        assert(is_live(nodes, i as int));
                    }
                    return false;
                }
                let node_2 = self.nodes[corner_2 as usize];
                if node_2.is_removed || node_2.relative < 0 || node_2.relative as usize != i {
                    proof {
                        assert(!node_wf(nodes, count as int, i as int));
                        assert(is_live(nodes, i as int));
                    }
                    return false;
                }
                proof {
                    lemma_claimants_finite(nodes, position as int, i as int);
                }
                claimed.set(position as usize, claimed[position as usize] + 1);
                live = live + 1;
            }
            i = i + 1;
        }
        proof {
            assert(nodes.subrange(0, len as int) =~= nodes);
        }
        if self.face_count as u64 * 3 != live as u64 {
            return false;
        }
        let mut i: usize = 0;
        while i < len
            invariant
                nodes == self.nodes@,
                len == nodes.len(),
                len <= i32::MAX,
                count == self.positions@.len(),
                0 <= i <= len,
                claimed@.len() == count,
                checked@.len() == count,
                3 * self.face_count == live_count(nodes),
                forall|q: int|
                    0 <= q < count ==> #[trigger] claimed@[q] == claimants(
                        nodes,
                        q,
                        len as int,
                    ).len(),
                forall|n: int|
                    0 <= n < len && is_live(nodes, n) ==> is_triangle(nodes, n) && 0
                        <= (#[trigger] nodes[n]).position < count,
                forall|q: int| 0 <= q < count && #[trigger] checked@[q] ==> has_fan(nodes, q),
                forall|n: int|
                    0 <= n < i && is_live(nodes, n) ==> checked@[(#[trigger] nodes[n]).position as int],
            decreases len - i,
        {
            let node = self.nodes[i];
            if !node.is_removed {
                let position = node.position;
                proof {
                    assert(is_live(nodes, i as int));
                    assert(0 <= nodes[i as int].position < count);
                }
                if !checked[position as usize] {
                    proof {
                        lemma_loops_closes(nodes, i as int);
                    }
                    match self.trace(i as i32, Link::Sibling) {
                        None => {
                            proof {
                                if connected(nodes, count as int) {
                                    assert(node_wf(nodes, count as int, i as int));
                                    let fan = lemma_fan_from(nodes, i as int);
                                    assert(is_ring(nodes, fan) && fan[0] == i);
                                }
                            }
                            return false;
                        },
                        Some(walk) => {
                            let ghost ring = walk_of(nodes, Link::Sibling, i as int, walk@.len());
                            proof {
                                assert(is_ring(nodes, ring_from(nodes, i as int)));
                                assert(ring == ring_from(nodes, i as int));
                                assert forall|j: int| 0 <= j < walk@.len() implies #[trigger] walk@[j]
                                    == ring[j] by {
                                    assert(walk@.map_values(|n: i32| n as int)[j] == walk@[j]);
                                }
                            }
                            let mut j: usize = 0;
                            while j < walk.len()
                                invariant
                                    nodes == self.nodes@,
                                    0 <= j <= walk@.len(),
                                    walk@.len() == ring.len(),
                                    is_ring(nodes, ring),
                                    ring[0] == i,
                                    is_live(nodes, i as int),
                                    nodes[i as int].position == position,
                                    count == self.positions@.len(),
                                    forall|k: int| 0 <= k < walk@.len() ==> #[trigger] walk@[k] == ring[k],
                                    forall|k: int|
                                        0 <= k < j ==> !nodes[#[trigger] ring[k]].is_removed
                                            && nodes[ring[k]].position == position,
                                decreases walk@.len() - j,
                            {
                                proof {
                                    assert(0 <= ring[j as int] < nodes.len());
                                }
                                let member = self.nodes[walk[j] as usize];
                                if member.is_removed || member.position != position {
                                    proof {
                                        if connected(nodes, count as int) {
                                            assert(node_wf(nodes, count as int, i as int));
                                            let fan = lemma_fan_from(nodes, i as int);
                                            lemma_ring_unique(nodes, fan, ring);
                                            assert(!nodes[fan[j as int]].is_removed);
                                        }
                                    }
                                    return false;
                                }
                                j = j + 1;
                            }
                            if walk.len() != claimed[position as usize] {
                                proof {
                                    if connected(nodes, count as int) {
                                        assert(node_wf(nodes, count as int, i as int));
                                        let fan = lemma_fan_from(nodes, i as int);
                                        lemma_ring_unique(nodes, fan, ring);
                                        lemma_fan_is_full(nodes, fan, position as int);
                                    }
                                }
                                return false;
                            }
                            proof {
                                lemma_full_ring_is_fan(nodes, ring, position as int);
                            }
                            checked.set(position as usize, true);
                        },
                    }
                }
            }
            i = i + 1;
        }
        proof {
            assert forall|n: int| is_live(nodes, n) implies #[trigger] node_wf(
                nodes,
                count as int,
                n,
            ) by {
                assert(0 <= nodes[n].position < count);
                assert(checked@[nodes[n].position as int]);
            }
        }
        true
    }

    /// Says whether no live triangle has two corners at one position.
    pub fn has_proper_faces(&self) -> (ok: bool)
        requires
            self.wf(),
        ensures
            ok == self.is_nondegenerate(),
    {
        let len = self.nodes.len();
        let ghost nodes = self.nodes@;
        let mut i: usize = 0;
        while i < len
            invariant
                self.wf(),
                nodes == self.nodes@,
                len == nodes.len(),
                0 <= i <= len,
                forall|n: int| 0 <= n < i && is_live(nodes, n) ==> #[trigger] has_distinct_corners(nodes, n),
            decreases len - i,
        {
            let node = self.nodes[i];
            if !node.is_removed {
                proof {
                    assert(node_wf(nodes, self.positions@.len() as int, i as int));
                }
                let node_1 = self.nodes[node.relative as usize];
                let node_2 = self.nodes[node_1.relative as usize];
                if node.position == node_1.position || node_1.position == node_2.position
                    || node_2.position == node.position {
                    proof {
                        assert(is_live(nodes, i as int));
                        assert(!has_distinct_corners(nodes, i as int));
                    }
                    return false;
                }
            }
            i = i + 1;
        }
        true
    }
}

} // verus!
