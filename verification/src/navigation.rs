//! Walks along the two kinds of link, with a bound on their length.

use crate::connected_mesh::{node_wf, ConnectedMesh, lemma_fan_from};
use crate::node::Node;
use crate::ring::{closes, is_live, is_ring, lemma_ring_bounded, ring_from};
use vstd::prelude::*;

verus! {

/// The link that a walk follows.
#[derive(Debug, Copy, Clone, PartialEq, Eq, Structural)]
pub enum Link {
    /// To the next node at the same position.
    Sibling,
    /// To the next corner of the same triangle.
    Relative,
}

/// The node that `n` is linked to.
pub open spec fn link_of(nodes: Seq<Node>, link: Link, n: int) -> int {
    match link {
        Link::Sibling => nodes[n].sibling as int,
        Link::Relative => nodes[n].relative as int,
    }
}

/// The node reached from `start` after `steps` links; `-1` once the walk has
/// left the node array.
pub open spec fn orbit(nodes: Seq<Node>, link: Link, start: int, steps: nat) -> int
    decreases steps,
{
    if steps == 0 {
        start
    } else {
        let at = orbit(nodes, link, start, (steps - 1) as nat);
        if 0 <= at < nodes.len() {
            link_of(nodes, link, at)
        } else {
            -1
        }
    }
}

/// The walk from `start` stays in the node array and is back at `start`
/// after `steps` links, and not before.
pub open spec fn returns_at(nodes: Seq<Node>, link: Link, start: int, steps: nat) -> bool {
    &&& steps > 0
    &&& orbit(nodes, link, start, steps) == start
    &&& forall|t: nat| t < steps ==> 0 <= #[trigger] orbit(nodes, link, start, t) < nodes.len()
    &&& forall|t: nat| 0 < t < steps ==> #[trigger] orbit(nodes, link, start, t) != start
}

/// The walk from `start` comes back to `start` after no more links than
/// there are nodes.
pub open spec fn loops(nodes: Seq<Node>, link: Link, start: int) -> bool {
    exists|steps: nat| steps <= nodes.len() && #[trigger] returns_at(nodes, link, start, steps)
}

/// The nodes met on the walk from `start`, `start` first.
pub open spec fn walk_of(nodes: Seq<Node>, link: Link, start: int, steps: nat) -> Seq<int> {
    Seq::new(steps, |t: int| orbit(nodes, link, start, t as nat))
}

/// A walk along `sibling` follows the ring that it is on.
proof fn lemma_orbit_on_ring(nodes: Seq<Node>, ring: Seq<int>, steps: nat)
    requires
        is_ring(nodes, ring),
        steps <= ring.len(),
    ensures
        orbit(nodes, Link::Sibling, ring[0], steps) == (if steps < ring.len() {
            ring[steps as int]
        } else {
            ring[0]
        }),
    decreases steps,
{
    if steps > 0 {
        lemma_orbit_on_ring(nodes, ring, (steps - 1) as nat);
        assert(0 <= ring[steps - 1] < nodes.len());
    }
}

/// Two walks that meet stay together.
proof fn lemma_orbit_merge(nodes: Seq<Node>, link: Link, start: int, i: nat, j: nat, more: nat)
    requires
        orbit(nodes, link, start, i) == orbit(nodes, link, start, j),
    ensures
        orbit(nodes, link, start, i + more) == orbit(nodes, link, start, j + more),
    decreases more,
{
    if more > 0 {
        lemma_orbit_merge(nodes, link, start, i, j, (more - 1) as nat);
        assert(orbit(nodes, link, start, i + more) == (if 0 <= orbit(
            nodes,
            link,
            start,
            (i + more - 1) as nat,
        ) < nodes.len() {
            link_of(nodes, link, orbit(nodes, link, start, (i + more - 1) as nat))
        } else {
            -1
        }));
    }
}

/// A walk meets no node twice before it is back where it began.
proof fn lemma_walk_distinct(nodes: Seq<Node>, link: Link, start: int, steps: nat)
    requires
        returns_at(nodes, link, start, steps),
    ensures
        walk_of(nodes, link, start, steps).no_duplicates(),
{
    let walk = walk_of(nodes, link, start, steps);
    assert forall|i: int, j: int| 0 <= i < j < steps implies walk[i] != walk[j] by {
        if walk[i] == walk[j] {
            lemma_orbit_merge(nodes, link, start, i as nat, j as nat, (steps - j) as nat);
            assert(orbit(nodes, link, start, (i + steps - j) as nat) == start);
            assert(i + steps - j < steps);
            if i + steps - j > 0 {
                assert(orbit(nodes, link, start, (i + steps - j) as nat) != start);
            }
        }
    }
}

/// The walk along `sibling` from `start` comes back within the bound exactly
/// when `start` is on a ring, and the nodes it meets are then that ring.
pub proof fn lemma_loops_closes(nodes: Seq<Node>, start: int)
    ensures
        loops(nodes, Link::Sibling, start) <==> closes(nodes, start),
        forall|steps: nat| #[trigger]
            returns_at(nodes, Link::Sibling, start, steps) ==> closes(nodes, start) && ring_from(
                nodes,
                start,
            ) == walk_of(nodes, Link::Sibling, start, steps),
{
    assert forall|steps: nat| #[trigger]
        returns_at(nodes, Link::Sibling, start, steps) implies closes(nodes, start) && ring_from(
        nodes,
        start,
    ) == walk_of(nodes, Link::Sibling, start, steps) by {
        let walk = walk_of(nodes, Link::Sibling, start, steps);
        lemma_walk_distinct(nodes, Link::Sibling, start, steps);
        assert forall|j: int| 0 <= j < walk.len() implies 0 <= #[trigger] walk[j]
            < nodes.len() by {
            assert(walk[j] == orbit(nodes, Link::Sibling, start, j as nat));
        }
        assert forall|j: int| 0 <= j < walk.len() - 1 implies nodes[#[trigger] walk[j]].sibling
            == walk[j + 1] by {
            assert(walk[j] == orbit(nodes, Link::Sibling, start, j as nat));
            assert(walk[j + 1] == orbit(nodes, Link::Sibling, start, (j + 1) as nat));
        }
        assert(walk[steps - 1] == orbit(nodes, Link::Sibling, start, (steps - 1) as nat));
        assert(walk[0] == orbit(nodes, Link::Sibling, start, 0));
        assert(is_ring(nodes, walk));
        crate::ring::lemma_ring_from(nodes, walk);
    }
    if closes(nodes, start) {
        let ring = ring_from(nodes, start);
        let steps = ring.len();
        lemma_ring_bounded(nodes, ring);
        lemma_orbit_on_ring(nodes, ring, steps);
        assert forall|t: nat| t < steps implies 0 <= #[trigger] orbit(
            nodes,
            Link::Sibling,
            start,
            t,
        ) < nodes.len() by {
            lemma_orbit_on_ring(nodes, ring, t);
        }
        assert forall|t: nat| 0 < t < steps implies #[trigger] orbit(
            nodes,
            Link::Sibling,
            start,
            t,
        ) != start by {
            lemma_orbit_on_ring(nodes, ring, t);
        }
        assert(returns_at(nodes, Link::Sibling, start, steps));
    }
}

impl<P> ConnectedMesh<P> {
    /// Follows `link` from `node_index` until the walk is back there, and
    /// lists the nodes met, `node_index` first.
    ///
    /// Gives `None` where the walk leaves the node array, or does not come
    /// back after as many links as there are nodes: the links are then
    /// corrupt.
    pub fn trace(&self, node_index: i32, link: Link) -> (walk: Option<Vec<i32>>)
        ensures
            match walk {
                Some(walk) => {
                    &&& walk@.len() <= self.nodes@.len()
                    &&& returns_at(self.nodes@, link, node_index as int, walk@.len())
                    &&& walk@.map_values(|n: i32| n as int) == walk_of(
                        self.nodes@,
                        link,
                        node_index as int,
                        walk@.len(),
                    )
                },
                None => !loops(self.nodes@, link, node_index as int),
            },
    {
        let len = self.nodes.len();
        let mut walk: Vec<i32> = Vec::new();
        let mut current: i32 = node_index;
        let ghost nodes = self.nodes@;
        let ghost start = node_index as int;
        loop
            invariant
                len == nodes.len(),
                nodes == self.nodes@,
                start == node_index,
                walk@.len() <= len,
                current == orbit(nodes, link, start, walk@.len()),
                forall|t: nat| t < walk@.len() ==> 0 <= #[trigger] orbit(nodes, link, start, t) < len,
                forall|t: nat| 0 < t <= walk@.len() ==> #[trigger] orbit(nodes, link, start, t) != start,
                forall|t: int| 0 <= t < walk@.len() ==> #[trigger] walk@[t] == orbit(nodes, link, start, t as nat),
            decreases len - walk@.len(),
        {
            let ghost steps = walk@.len();
            if current < 0 || current as usize >= len || walk.len() >= len {
                proof {
                    assert forall|k: nat| k <= nodes.len() implies !#[trigger] returns_at(
                        nodes,
                        link,
                        start,
                        k,
                    ) by {
                        if returns_at(nodes, link, start, k) {
                            if k <= steps {
                                assert(orbit(nodes, link, start, k) != start);
                            } else {
                                assert(0 <= orbit(nodes, link, start, steps) < len);
                            }
                        }
                    }
                }
                return None;
            }
            walk.push(current);
            let node = self.nodes[current as usize];
            let next = match link {
                Link::Sibling => node.sibling,
                Link::Relative => node.relative,
            };
            proof {
                assert(next == orbit(nodes, link, start, steps + 1));
            }
            if next == node_index {
                proof {
                    assert(walk@.map_values(|n: i32| n as int) =~= walk_of(
                        nodes,
                        link,
                        start,
                        walk@.len(),
                    ));
                }
                return Some(walk);
            }
            current = next;
        }
    }

    /// Says whether the walk along `sibling` from `node_index` comes back to
    /// it within the bound.
    pub fn check_siblings(&self, node_index: i32) -> (ok: bool)
        ensures
            ok == loops(self.nodes@, Link::Sibling, node_index as int),
            ok == closes(self.nodes@, node_index as int),
    {
        proof {
            lemma_loops_closes(self.nodes@, node_index as int);
        }
        self.trace(node_index, Link::Sibling).is_some()
    }

    /// Says whether the walk along `relative` from `node_index` comes back to
    /// it within the bound.
    pub fn check_relatives(&self, node_index: i32) -> (ok: bool)
        ensures
            ok == loops(self.nodes@, Link::Relative, node_index as int),
    {
        self.trace(node_index, Link::Relative).is_some()
    }

    /// In a well-formed mesh both walks from a live node come back: the one
    /// along `relative` after three links, the one along `sibling` after as
    /// many as there are live nodes at the position.
    pub proof fn lemma_walks_return(&self, n: int)
        requires
            self.wf(),
            is_live(self.nodes@, n),
        ensures
            returns_at(self.nodes@, Link::Relative, n, 3),
            loops(self.nodes@, Link::Relative, n),
            loops(self.nodes@, Link::Sibling, n),
    {
        let nodes = self.nodes@;
        assert(node_wf(nodes, self.positions@.len() as int, n));
        reveal_with_fuel(orbit, 4);
        assert(returns_at(nodes, Link::Relative, n, 3)) by {
            assert forall|t: nat| t < 3 implies 0 <= #[trigger] orbit(nodes, Link::Relative, n, t)
                < nodes.len() by {
                assert(t == 0 || t == 1 || t == 2);
            }
            assert forall|t: nat| 0 < t < 3 implies #[trigger] orbit(nodes, Link::Relative, n, t)
                != n by {
                assert(t == 1 || t == 2);
            }
        }
        let ring = lemma_fan_from(nodes, n);
        lemma_loops_closes(nodes, n);
    }
}

} // verus!
