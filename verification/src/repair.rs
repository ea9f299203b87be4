//! Ring repair: linking the live members of one or two rings into one ring.

use crate::connected_mesh::ConnectedMesh;
use crate::node::Node;
use crate::ring::{
    closes, is_ring, lemma_live_members, lemma_live_members_push, live_members, relinked,
    ring_from,
};
use vstd::prelude::*;

verus! {

/// The position that a repair moves the chain to: the one asked for, or else
/// the one of the first node of the chain.
pub open spec fn target_of(origin: Seq<Node>, chain: Seq<int>, position: Option<i32>) -> int {
    match position {
        Some(p) => p as int,
        None => origin[chain[0]].position as int,
    }
}

/// The state of a repair that has linked `chain` so far: each node of `chain`
/// but the last is linked to the next one and moved; all else is as in `origin`.
spec fn chained(
    origin: Seq<Node>,
    now: Seq<Node>,
    chain: Seq<int>,
    position: Option<i32>,
    first: i32,
    last: i32,
) -> bool {
    &&& now.len() == origin.len()
    &&& if chain.len() == 0 {
        &&& first == -1
        &&& last == -1
        &&& now == origin
    } else {
        &&& position is Some
        &&& first == chain[0]
        &&& last == chain.last()
        &&& forall|n: int|
            0 <= n < origin.len() && !chain.drop_last().contains(n) ==> #[trigger] now[n]
                == origin[n]
        &&& forall|j: int|
            0 <= j < chain.len() - 1 ==> #[trigger] now[chain[j]] == (Node {
                sibling: chain[j + 1] as i32,
                position: position->0,
                ..origin[chain[j]]
            })
    }
}

/// A repair that was given no position takes that of the first node it links.
spec fn inherited(origin: Seq<Node>, chain: Seq<int>, target: Option<i32>) -> bool {
    if chain.len() == 0 {
        target is None
    } else {
        target == Some(origin[chain[0]].position)
    }
}

/// What a repair does to the nodes: the live members of `walk` are linked
/// into one ring in the order of `walk` and moved to one position, and the
/// first of them is handed back; where `walk` has no live member, nothing
/// changes and `-1` is handed back.
pub open spec fn repaired(
    before: Seq<Node>,
    after: Seq<Node>,
    walk: Seq<int>,
    position: Option<i32>,
    first: i32,
) -> bool {
    let chain = live_members(before, walk);
    if chain.len() == 0 {
        first == -1 && after == before
    } else {
        first == chain[0] && relinked(before, after, chain, target_of(before, chain, position))
    }
}

/// Two walks share no node.
pub open spec fn disjoint(a: Seq<int>, b: Seq<int>) -> bool {
    forall|i: int, j: int| 0 <= i < a.len() && 0 <= j < b.len() ==> a[i] != b[j]
}

proof fn lemma_chain_closed(
    origin: Seq<Node>,
    now: Seq<Node>,
    chain: Seq<int>,
    position: Option<i32>,
    first: i32,
    last: i32,
)
    requires
        chained(origin, now, chain, position, first, last),
        chain.len() > 0,
        chain.no_duplicates(),
        forall|j: int| 0 <= j < chain.len() ==> 0 <= #[trigger] chain[j] < origin.len(),
    ensures
        relinked(
            origin,
            now.update(
                last as int,
                Node { sibling: first, position: position->0, ..now[last as int] },
            ),
            chain,
            position->0 as int,
        ),
{
    let after = now.update(
        last as int,
        Node { sibling: first, position: position->0, ..now[last as int] },
    );
    let end = chain.len() - 1;
    assert(chain[end] == last);
    assert(!chain.drop_last().contains(last as int)) by {
        if chain.drop_last().contains(last as int) {
            let k = choose|k: int| 0 <= k < chain.drop_last().len() && chain.drop_last()[k] == last;
            assert(chain[k] == last);
        }
    }
    assert forall|n: int| 0 <= n < origin.len() && !chain.contains(n) implies #[trigger] after[n]
        == origin[n] by {
        assert(n != last);
        if chain.drop_last().contains(n) {
            let k = choose|k: int| 0 <= k < chain.drop_last().len() && chain.drop_last()[k] == n;
            assert(chain[k] == n);
        }
    }
    assert forall|j: int| 0 <= j < chain.len() implies #[trigger] after[chain[j]] == (Node {
        sibling: crate::ring::next_in(chain, j) as i32,
        position: position->0,
        ..origin[chain[j]]
    }) by {
        if j < end {
            assert(chain[j] != chain[end]);
        }
    }
}

impl<P> ConnectedMesh<P> {
    /// Rebuilds the ring that `node_index` is on into a ring of its live
    /// members, each moved to the position of the first of them.
    ///
    /// Returns the first live member, or `-1` where the ring has none.
    pub fn reconnect_sibling(&mut self, node_index: i32) -> (first: i32)
        requires
            old(self).nodes@.len() <= i32::MAX,
            closes(old(self).nodes@, node_index as int),
        ensures
            repaired(
                old(self).nodes@,
                final(self).nodes@,
                ring_from(old(self).nodes@, node_index as int),
                None,
                first,
            ),
            final(self).face_count == old(self).face_count,
            final(self).positions == old(self).positions,
    {
        let ghost origin = self.nodes@;
        let ghost ring = ring_from(origin, node_index as int);
        proof {
            assert(Seq::<int>::empty() + ring =~= ring);
        }
        let (target, first, last) = self.link_live(
            node_index,
            None,
            -1,
            -1,
            Ghost(origin),
            Ghost(Seq::empty()),
            Ghost(ring),
        );
        let ghost chain = live_members(origin, ring);
        proof {
            lemma_live_members(origin, ring);
            assert forall|j: int| 0 <= j < chain.len() implies 0 <= #[trigger] chain[j]
                < origin.len() by {
                assert(chain.contains(chain[j]));
                assert(ring.contains(chain[j]));
            }
            if chain.len() > 0 {
                assert(chain[chain.len() - 1] == last);
            }
        }
        if last == -1 {
            return -1;
        }
        proof {
            lemma_chain_closed(origin, self.nodes@, chain, target, first, last);
        }
        let mut end = self.nodes[last as usize];
        end.sibling = first;
        end.position = target.unwrap();
        self.nodes.set(last as usize, end);
        first
    }

    /// Splices the ring that `node_index_a` is on and the ring that
    /// `node_index_b` is on into one ring of their live members, those of the
    /// first ring first, each moved to `position`.
    ///
    /// Returns the first live member, or `-1` where neither ring has one.
    pub fn reconnect_siblings(&mut self, node_index_a: i32, node_index_b: i32, position: i32) -> (first: i32)
        requires
            old(self).nodes@.len() <= i32::MAX,
            closes(old(self).nodes@, node_index_a as int),
            closes(old(self).nodes@, node_index_b as int),
            disjoint(
                ring_from(old(self).nodes@, node_index_a as int),
                ring_from(old(self).nodes@, node_index_b as int),
            ),
        ensures
            repaired(
                old(self).nodes@,
                final(self).nodes@,
                ring_from(old(self).nodes@, node_index_a as int) + ring_from(
                    old(self).nodes@,
                    node_index_b as int,
                ),
                Some(position),
                first,
            ),
            final(self).face_count == old(self).face_count,
            final(self).positions == old(self).positions,
    {
        let ghost origin = self.nodes@;
        let ghost ring_a = ring_from(origin, node_index_a as int);
        let ghost ring_b = ring_from(origin, node_index_b as int);
        let ghost walk = ring_a + ring_b;
        proof {
            assert(Seq::<int>::empty() + ring_a =~= ring_a);
            vstd::seq_lib::lemma_no_dup_in_concat(ring_a, ring_b);
        }
        let (target, first, last) = self.link_live(
            node_index_a,
            Some(position),
            -1,
            -1,
            Ghost(origin),
            Ghost(Seq::empty()),
            Ghost(ring_a),
        );
        let (target, first, last) = self.link_live(
            node_index_b,
            target,
            first,
            last,
            Ghost(origin),
            Ghost(ring_a),
            Ghost(ring_b),
        );
        let ghost chain = live_members(origin, walk);
        proof {
            lemma_live_members(origin, walk);
            assert forall|j: int| 0 <= j < chain.len() implies 0 <= #[trigger] chain[j]
                < origin.len() by {
                assert(chain.contains(chain[j]));
                assert(walk.contains(chain[j]));
                let k = choose|k: int| 0 <= k < walk.len() && walk[k] == chain[j];
                if k < ring_a.len() {
                    assert(walk[k] == ring_a[k]);
                } else {
                    assert(walk[k] == ring_b[k - ring_a.len()]);
                }
            }
            if chain.len() > 0 {
                assert(chain[chain.len() - 1] == last);
            }
        }
        if last == -1 {
            return -1;
        }
        proof {
            lemma_chain_closed(origin, self.nodes@, chain, target, first, last);
        }
        let mut end = self.nodes[last as usize];
        end.sibling = first;
        end.position = target.unwrap();
        self.nodes.set(last as usize, end);
        first
    }

    /// Walks the ring from `start` and appends its live members to the chain
    /// that ends at `last`.
    fn link_live(
        &mut self,
        start: i32,
        position: Option<i32>,
        first: i32,
        last: i32,
        Ghost(origin): Ghost<Seq<Node>>,
        Ghost(walked): Ghost<Seq<int>>,
        Ghost(ring): Ghost<Seq<int>>,
    ) -> (ends: (Option<i32>, i32, i32))
        requires
            origin.len() <= i32::MAX,
            is_ring(origin, ring),
            ring[0] == start,
            (walked + ring).no_duplicates(),
            forall|j: int| 0 <= j < walked.len() ==> 0 <= #[trigger] walked[j] < origin.len(),
            chained(
                origin,
                old(self).nodes@,
                live_members(origin, walked),
                position,
                first,
                last,
            ),
        ensures
            chained(
                origin,
                final(self).nodes@,
                live_members(origin, walked + ring),
                ends.0,
                ends.1,
                ends.2,
            ),
            position is Some ==> ends.0 == position,
            position is None ==> inherited(origin, live_members(origin, walked + ring), ends.0),
            final(self).face_count == old(self).face_count,
            final(self).positions == old(self).positions,
    {
        let mut target = position;
        let mut head = first;
        let mut tail = last;
        let mut cur: i32 = start;
        let ghost mut i: int = 0;
        proof {
            assert(walked + ring.subrange(0, 0) =~= walked);
            assert(ring[0] == (walked + ring)[walked.len() as int]);
            assert(position is None ==> live_members(origin, walked).len() == 0);
        }
        loop
            invariant_except_break
                0 <= i < ring.len(),
                cur == ring[i],
                position is None ==> inherited(
                    origin,
                    live_members(origin, walked + ring.subrange(0, i)),
                    target,
                ),
                chained(
                    origin,
                    self.nodes@,
                    live_members(origin, walked + ring.subrange(0, i)),
                    target,
                    head,
                    tail,
                ),
            invariant
                origin.len() <= i32::MAX,
                is_ring(origin, ring),
                ring[0] == start,
                (walked + ring).no_duplicates(),
                forall|j: int| 0 <= j < walked.len() ==> 0 <= #[trigger] walked[j] < origin.len(),
                position is Some ==> target == position,
                self.face_count == old(self).face_count,
                self.positions == old(self).positions,
            ensures
                chained(
                    origin,
                    self.nodes@,
                    live_members(origin, walked + ring),
                    target,
                    head,
                    tail,
                ),
                position is None ==> inherited(
                    origin,
                    live_members(origin, walked + ring),
                    target,
                ),
            decreases ring.len() - i,
        {
            let ghost seen = walked + ring.subrange(0, i);
            let ghost chain = live_members(origin, seen);
            proof {
                lemma_live_members(origin, seen);
                assert(seen =~= (walked + ring).subrange(0, walked.len() + i));
                assert(seen.no_duplicates());
                assert forall|k: int| 0 <= k < seen.len() implies 0 <= #[trigger] seen[k]
                    < origin.len() by {
                    if k < walked.len() {
                        assert(seen[k] == walked[k]);
                    } else {
                        assert(seen[k] == ring[k - walked.len()]);
                    }
                }
                assert forall|k: int| 0 <= k < chain.len() implies 0 <= #[trigger] chain[k]
                    < origin.len() by {
                    assert(chain.contains(chain[k]));
                    assert(seen.contains(chain[k]));
                }
                assert(!seen.contains(cur as int)) by {
                    if seen.contains(cur as int) {
                        let k = choose|k: int| 0 <= k < seen.len() && seen[k] == cur;
                        assert((walked + ring)[k] == seen[k]);
                        assert((walked + ring)[walked.len() + i] == cur);
                    }
                }
                assert(!chain.contains(cur as int));
                if chain.len() > 0 {
                    assert(!chain.drop_last().contains(cur as int)) by {
                        if chain.drop_last().contains(cur as int) {
                            let k = choose|k: int|
                                0 <= k < chain.drop_last().len() && chain.drop_last()[k] == cur;
                            assert(chain[k] == cur);
                        }
                    }
                }
                assert(self.nodes@[cur as int] == origin[cur as int]);
                lemma_live_members_push(origin, seen, cur as int);
                assert(seen.push(cur as int) =~= walked + ring.subrange(0, i + 1));
            }
            let node = self.nodes[cur as usize];
            if !node.is_removed {
                if head == -1 {
                    head = cur;
                    if target.is_none() {
                        target = Some(node.position);
                    }
                }
                if tail != -1 {
                    proof {
                        assert(chain.len() > 0);
                        assert(chain.contains(chain.last())) by {
                            assert(chain[chain.len() - 1] == chain.last());
                        }
                        assert(0 <= chain[chain.len() - 1] < origin.len());
                        assert(!chain.drop_last().contains(tail as int)) by {
                            if chain.drop_last().contains(tail as int) {
                                let k = choose|k: int|
                                    0 <= k < chain.drop_last().len() && chain.drop_last()[k]
                                        == tail;
                                assert(chain[k] == tail);
                            }
                        }
                    }
                    let mut end = self.nodes[tail as usize];
                    end.sibling = cur;
                    end.position = target.unwrap();
                    self.nodes.set(tail as usize, end);
                }
                tail = cur;
                proof {
                    let longer = chain.push(cur as int);
                    assert(longer.drop_last() =~= chain);
                    assert forall|j: int| 0 <= j < longer.len() - 1 implies #[trigger] self.nodes@[longer[j]]
                        == (Node {
                        sibling: longer[j + 1] as i32,
                        position: target->0,
                        ..origin[longer[j]]
                    }) by {
                        if j < chain.len() - 1 {
                            assert(chain[j] != chain.last());
                            assert(longer[j] == chain[j]);
                            assert(longer[j + 1] == chain[j + 1]);
                        }
                    }
                }
            }
            let next = node.sibling;
            proof {
                i = i + 1;
                if i < ring.len() {
                    assert(ring[i] != ring[0]);
                    assert(next == ring[i]);
                } else {
                    assert(ring.subrange(0, i) =~= ring);
                }
            }
            if next == start {
                break ;
            }
            cur = next;
        }
        (target, head, tail)
    }
}

} // verus!
