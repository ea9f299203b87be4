//! Rings of nodes: the mathematical model of the `sibling` links.
//!
//! A ring is written as the sequence of node indices that one meets by
//! following `sibling` from its first member until the walk is about to
//! return there.

use crate::node::Node;
use vstd::prelude::*;
use vstd::set_lib::*;

verus! {

/// `ring` lists, without repetition, nodes of `nodes` such that each one's
/// `sibling` is the next one listed, and the last one's `sibling` is the first.
pub open spec fn is_ring(nodes: Seq<Node>, ring: Seq<int>) -> bool {
    &&& ring.len() > 0
    &&& ring.no_duplicates()
    &&& forall|j: int| 0 <= j < ring.len() ==> 0 <= #[trigger] ring[j] < nodes.len()
    &&& forall|j: int| 0 <= j < ring.len() - 1 ==> nodes[#[trigger] ring[j]].sibling == ring[j + 1]
    &&& nodes[ring[ring.len() - 1]].sibling == ring[0]
}

/// The walk along `sibling` that starts at `start` returns to `start`.
pub open spec fn closes(nodes: Seq<Node>, start: int) -> bool {
    exists|ring: Seq<int>| #[trigger] is_ring(nodes, ring) && ring[0] == start
}

/// The ring that starts at `start`, where the walk from `start` closes.
pub open spec fn ring_from(nodes: Seq<Node>, start: int) -> Seq<int> {
    choose|ring: Seq<int>| #[trigger] is_ring(nodes, ring) && ring[0] == start
}

/// `ring` turned so that its member at index `k` comes first.
pub open spec fn rotated(ring: Seq<int>, k: int) -> Seq<int> {
    ring.subrange(k, ring.len() as int) + ring.subrange(0, k)
}

/// Two rings with the same first member are the same ring.
pub proof fn lemma_ring_unique(nodes: Seq<Node>, a: Seq<int>, b: Seq<int>)
    requires
        is_ring(nodes, a),
        is_ring(nodes, b),
        a[0] == b[0],
    ensures
        a == b,
{
    lemma_ring_prefix(nodes, a, b, a.len() as int - 1);
    lemma_ring_prefix(nodes, b, a, b.len() as int - 1);
    if a.len() < b.len() {
        assert(a[a.len() - 1] == b[a.len() - 1]);
        assert(b[a.len() as int] == b[0]);
    }
    if b.len() < a.len() {
        assert(b[b.len() - 1] == a[b.len() - 1]);
        assert(a[b.len() as int] == a[0]);
    }
    assert forall|j: int| 0 <= j < a.len() implies a[j] == b[j] by {
        lemma_ring_prefix(nodes, a, b, j);
    }
    assert(a =~= b);
}

proof fn lemma_ring_prefix(nodes: Seq<Node>, a: Seq<int>, b: Seq<int>, j: int)
    requires
        is_ring(nodes, a),
        is_ring(nodes, b),
        a[0] == b[0],
        0 <= j < a.len(),
    ensures
        j < b.len() ==> a[j] == b[j],
    decreases j,
{
    if j > 0 && j < b.len() {
        lemma_ring_prefix(nodes, a, b, j - 1);
        assert(a[j - 1] == b[j - 1]);
        assert(nodes[a[j - 1]].sibling == a[j]);
        assert(nodes[b[j - 1]].sibling == b[j]);
    }
}

/// The ring that a walk is known to follow is the ring from its first member.
pub proof fn lemma_ring_from(nodes: Seq<Node>, ring: Seq<int>)
    requires
        is_ring(nodes, ring),
    ensures
        closes(nodes, ring[0]),
        ring_from(nodes, ring[0]) == ring,
{
    lemma_ring_unique(nodes, ring, ring_from(nodes, ring[0]));
}

/// Where the member at index `j` of `rotated(ring, k)` stands in `ring`.
pub open spec fn turned_index(len: int, k: int, j: int) -> int {
    if j < len - k {
        j + k
    } else {
        j + k - len
    }
}

proof fn lemma_rotated_index(ring: Seq<int>, k: int)
    requires
        0 <= k < ring.len(),
    ensures
        rotated(ring, k).len() == ring.len(),
        forall|j: int|
            0 <= j < ring.len() ==> #[trigger] rotated(ring, k)[j] == ring[turned_index(
                ring.len() as int,
                k,
                j,
            )],
{
}

/// A ring may be entered at any of its members.
pub proof fn lemma_ring_rotated(nodes: Seq<Node>, ring: Seq<int>, k: int)
    requires
        is_ring(nodes, ring),
        0 <= k < ring.len(),
    ensures
        is_ring(nodes, rotated(ring, k)),
        rotated(ring, k).len() == ring.len(),
        rotated(ring, k)[0] == ring[k],
        forall|n: int| rotated(ring, k).contains(n) <==> ring.contains(n),
{
    let turned = rotated(ring, k);
    let len = ring.len() as int;
    lemma_rotated_index(ring, k);
    assert(turned.no_duplicates()) by {
        assert forall|i: int, j: int| 0 <= i < len && 0 <= j < len && i != j implies turned[i]
            != turned[j] by {
            assert(turned[i] == ring[turned_index(len, k, i)]);
            assert(turned[j] == ring[turned_index(len, k, j)]);
        }
    }
    assert forall|j: int| 0 <= j < len implies 0 <= #[trigger] turned[j] < nodes.len() by {
        assert(turned[j] == ring[turned_index(len, k, j)]);
    }
    assert forall|j: int| 0 <= j < len - 1 implies nodes[#[trigger] turned[j]].sibling == turned[j
        + 1] by {
        let sj = turned_index(len, k, j);
        assert(turned[j] == ring[sj]);
        assert(turned[j + 1] == ring[turned_index(len, k, j + 1)]);
        if sj == len - 1 {
            assert(turned_index(len, k, j + 1) == 0);
        } else {
            assert(turned_index(len, k, j + 1) == sj + 1);
        }
    }
    assert(nodes[turned[len - 1]].sibling == turned[0]) by {
        assert(turned[len - 1] == ring[turned_index(len, k, len - 1)]);
        assert(turned[0] == ring[turned_index(len, k, 0)]);
    }
    assert forall|n: int| turned.contains(n) <==> ring.contains(n) by {
        if turned.contains(n) {
            let j = choose|j: int| 0 <= j < turned.len() && turned[j] == n;
            assert(turned[j] == ring[turned_index(len, k, j)]);
        }
        if ring.contains(n) {
            let s = choose|s: int| 0 <= s < ring.len() && ring[s] == n;
            let j = if s >= k { s - k } else { s + len - k };
            assert(turned[j] == ring[turned_index(len, k, j)]);
        }
    }
    assert(turned[0] == ring[turned_index(len, k, 0)]);
}

/// A ring has no more members than there are nodes.
pub proof fn lemma_ring_bounded(nodes: Seq<Node>, ring: Seq<int>)
    requires
        is_ring(nodes, ring),
    ensures
        ring.len() <= nodes.len(),
{
    let all = set_int_range(0, nodes.len() as int);
    lemma_int_range(0, nodes.len() as int);
    ring.unique_seq_to_set();
    assert forall|n: int| ring.to_set().contains(n) implies all.contains(n) by {
        let j = choose|j: int| 0 <= j < ring.len() && ring[j] == n;
        assert(0 <= ring[j] < nodes.len());
    }
    lemma_len_subset(ring.to_set(), all);
}

/// Node `n` exists and is not a tombstone.
pub open spec fn is_live(nodes: Seq<Node>, n: int) -> bool {
    0 <= n < nodes.len() && !nodes[n].is_removed
}

/// The members of `walk` that are not tombstones, in the order of `walk`.
pub open spec fn live_members(nodes: Seq<Node>, walk: Seq<int>) -> Seq<int>
    decreases walk.len(),
{
    if walk.len() == 0 {
        Seq::empty()
    } else {
        let rest = live_members(nodes, walk.drop_last());
        if nodes[walk.last()].is_removed {
            rest
        } else {
            rest.push(walk.last())
        }
    }
}

/// The live members of a walk are its members that are live, and no more of
/// them than the walk has.
pub proof fn lemma_live_members(nodes: Seq<Node>, walk: Seq<int>)
    ensures
        live_members(nodes, walk).len() <= walk.len(),
        forall|n: int|
            #[trigger] live_members(nodes, walk).contains(n) <==> walk.contains(n)
                && !nodes[n].is_removed,
        walk.no_duplicates() ==> live_members(nodes, walk).no_duplicates(),
    decreases walk.len(),
{
    let live = live_members(nodes, walk);
    if walk.len() == 0 {
        assert forall|n: int| live.contains(n) <==> walk.contains(n) && !nodes[n].is_removed by {}
    } else {
        let front = walk.drop_last();
        let rest = live_members(nodes, front);
        lemma_live_members(nodes, front);
        assert forall|n: int| live.contains(n) <==> walk.contains(n) && !nodes[n].is_removed by {
            if live.contains(n) {
                let j = choose|j: int| 0 <= j < live.len() && live[j] == n;
                if j < rest.len() {
                    assert(rest[j] == n);
                    assert(rest.contains(n));
                    assert(front.contains(n));
                    let k = choose|k: int| 0 <= k < front.len() && front[k] == n;
                    assert(walk[k] == n);
                } else {
                    assert(n == walk.last());
                    assert(walk[walk.len() - 1] == n);
                }
            }
            if walk.contains(n) && !nodes[n].is_removed {
                let k = choose|k: int| 0 <= k < walk.len() && walk[k] == n;
                if k < front.len() {
                    assert(front[k] == n);
                    assert(front.contains(n));
                    assert(rest.contains(n));
                    let j = choose|j: int| 0 <= j < rest.len() && rest[j] == n;
                    assert(live[j] == n);
                } else {
                    assert(live[live.len() - 1] == n);
                }
            }
        }
        if walk.no_duplicates() {
            assert(front.no_duplicates());
            assert forall|i: int, j: int| 0 <= i < live.len() && 0 <= j < live.len() && i
                != j implies live[i] != live[j] by {
                if i < rest.len() && j < rest.len() {
                } else {
                    let inner = if i < rest.len() { i } else { j };
                    assert(rest[inner] == live[inner]);
                    assert(rest.contains(rest[inner]));
                    assert(front.contains(rest[inner]));
                    let k = choose|k: int| 0 <= k < front.len() && front[k] == rest[inner];
                    assert(walk[k] == rest[inner]);
                    assert(walk[walk.len() - 1] == walk.last());
                }
            }
        }
    }
}

/// The live members of two walks, one after the other.
pub proof fn lemma_live_members_add(nodes: Seq<Node>, a: Seq<int>, b: Seq<int>)
    ensures
        live_members(nodes, a + b) == live_members(nodes, a) + live_members(nodes, b),
    decreases b.len(),
{
    if b.len() == 0 {
        assert(a + b =~= a);
        assert(live_members(nodes, a) + live_members(nodes, b) =~= live_members(nodes, a));
    } else {
        lemma_live_members_add(nodes, a, b.drop_last());
        assert((a + b).drop_last() =~= a + b.drop_last());
        assert((a + b).last() == b.last());
        if nodes[b.last()].is_removed {
        } else {
            assert(live_members(nodes, a + b) =~= live_members(nodes, a) + live_members(
                nodes,
                b,
            ));
        }
    }
}

/// One more member at the end of a walk.
pub proof fn lemma_live_members_push(nodes: Seq<Node>, walk: Seq<int>, n: int)
    ensures
        live_members(nodes, walk.push(n)) == (if nodes[n].is_removed {
            live_members(nodes, walk)
        } else {
            live_members(nodes, walk).push(n)
        }),
{
    assert(walk.push(n).drop_last() =~= walk);
}

/// Only the tombstone flags of a walk's members decide which of them are live.
pub proof fn lemma_live_members_flags(before: Seq<Node>, after: Seq<Node>, walk: Seq<int>)
    requires
        forall|j: int|
            0 <= j < walk.len() ==> before[#[trigger] walk[j]].is_removed
                == after[walk[j]].is_removed,
    ensures
        live_members(before, walk) == live_members(after, walk),
    decreases walk.len(),
{
    if walk.len() > 0 {
        lemma_live_members_flags(before, after, walk.drop_last());
        assert(walk[walk.len() - 1] == walk.last());
    }
}

/// A walk without tombstones is its own list of live members.
pub proof fn lemma_live_members_all(nodes: Seq<Node>, walk: Seq<int>)
    requires
        forall|j: int| 0 <= j < walk.len() ==> !nodes[#[trigger] walk[j]].is_removed,
    ensures
        live_members(nodes, walk) == walk,
    decreases walk.len(),
{
    if walk.len() > 0 {
        lemma_live_members_all(nodes, walk.drop_last());
        assert(walk[walk.len() - 1] == walk.last());
        assert(walk.drop_last().push(walk.last()) =~= walk);
    }
}

/// Where the first member of a walk is live, it is the first live member.
pub proof fn lemma_live_members_first(nodes: Seq<Node>, walk: Seq<int>)
    requires
        walk.len() > 0,
        !nodes[walk[0]].is_removed,
    ensures
        live_members(nodes, walk).len() > 0,
        live_members(nodes, walk)[0] == walk[0],
    decreases walk.len(),
{
    let front = walk.drop_last();
    if walk.len() > 1 {
        lemma_live_members_first(nodes, front);
        assert(front[0] == walk[0]);
    } else {
        assert(walk.last() == walk[0]);
        assert(live_members(nodes, front) =~= Seq::<int>::empty());
    }
}

/// Picking the live members twice, the second time after more nodes were
/// removed, is the same as picking them once in the end.
pub proof fn lemma_live_members_nested(earlier: Seq<Node>, later: Seq<Node>, walk: Seq<int>)
    requires
        forall|j: int|
            0 <= j < walk.len() && earlier[#[trigger] walk[j]].is_removed
                ==> later[walk[j]].is_removed,
    ensures
        live_members(later, live_members(earlier, walk)) == live_members(later, walk),
    decreases walk.len(),
{
    if walk.len() > 0 {
        let front = walk.drop_last();
        lemma_live_members_nested(earlier, later, front);
        assert(walk[walk.len() - 1] == walk.last());
        if !earlier[walk.last()].is_removed {
            lemma_live_members_push(later, live_members(earlier, front), walk.last());
        }
    }
}

/// The live members of a ring that is entered at another of its members are
/// the live members of the ring, entered at another of them.
pub proof fn lemma_live_members_rotated(nodes: Seq<Node>, ring: Seq<int>, k: int)
    requires
        0 <= k < ring.len(),
    ensures
        live_members(nodes, ring.subrange(0, k)).len() <= live_members(nodes, ring).len(),
        live_members(nodes, rotated(ring, k)) == rotated(
            live_members(nodes, ring),
            live_members(nodes, ring.subrange(0, k)).len() as int,
        ),
{
    let front = ring.subrange(0, k);
    let back = ring.subrange(k, ring.len() as int);
    assert(front + back =~= ring);
    lemma_live_members_add(nodes, front, back);
    lemma_live_members_add(nodes, back, front);
    let live = live_members(nodes, ring);
    let cut = live_members(nodes, front).len() as int;
    assert(live.subrange(cut, live.len() as int) =~= live_members(nodes, back));
    assert(live.subrange(0, cut) =~= live_members(nodes, front));
}

/// The node after the one at index `j` of `chain`, the first one after the last.
pub open spec fn next_in(chain: Seq<int>, j: int) -> int {
    if j + 1 < chain.len() {
        chain[j + 1]
    } else {
        chain[0]
    }
}

/// `after` is `before` with the nodes of `chain` linked into one ring, in the
/// order of `chain`, and moved to `position`; every other node is as it was.
pub open spec fn relinked(before: Seq<Node>, after: Seq<Node>, chain: Seq<int>, position: int) -> bool {
    &&& after.len() == before.len()
    &&& forall|n: int| 0 <= n < before.len() && !chain.contains(n) ==> #[trigger] after[n] == before[n]
    &&& forall|j: int|
        0 <= j < chain.len() ==> #[trigger] after[chain[j]] == (Node {
            sibling: next_in(chain, j) as i32,
            position: position as i32,
            ..before[chain[j]]
        })
}

/// The nodes of a chain that was linked up form a ring.
pub proof fn lemma_relinked_ring(before: Seq<Node>, after: Seq<Node>, chain: Seq<int>, position: int)
    requires
        relinked(before, after, chain, position),
        chain.len() > 0,
        chain.no_duplicates(),
        before.len() <= i32::MAX,
        forall|j: int| 0 <= j < chain.len() ==> 0 <= #[trigger] chain[j] < before.len(),
    ensures
        is_ring(after, chain),
{
    assert forall|j: int| 0 <= j < chain.len() - 1 implies after[#[trigger] chain[j]].sibling
        == chain[j + 1] by {
        assert(after[chain[j]].sibling == next_in(chain, j) as i32);
        assert(0 <= chain[j + 1] < before.len());
    }
    assert(after[chain[chain.len() - 1]].sibling == next_in(chain, chain.len() - 1) as i32);
    assert(0 <= chain[0] < before.len());
}

} // verus!
