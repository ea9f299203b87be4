//! The order of the rings while an edge is collapsed.

use crate::collapse::marking::{lemma_finish_nodes, lemma_repair, lemma_ring_kept};
use crate::collapse::{
    fans, flagged, frame, in_triangle, marked_from, marks, rings_kept, straddles,
};
use crate::connected_mesh::{connected, has_distinct_corners, is_fan, lemma_fan_from, node_wf};
use crate::node::Node;
use crate::repair::repaired;
use crate::ring::{
    is_live, is_ring, lemma_live_members, lemma_live_members_add, lemma_live_members_all,
    lemma_live_members_first, lemma_live_members_flags, lemma_live_members_nested,
    lemma_live_members_rotated, lemma_relinked_ring, lemma_ring_from, lemma_ring_rotated,
    lemma_ring_unique, live_members, ring_from, rotated,
};
use vstd::prelude::*;

verus! {

/// The ring of `n` is what is left of the ring that `n` was on at first, in
/// the same order.
pub(crate) open spec fn keeps_order(origin: Seq<Node>, now: Seq<Node>, n: int) -> bool {
    let left = live_members(now, ring_from(origin, n));
    is_ring(now, left) && left[0] == n
}

/// Away from `a` and `b` every ring is what is left of a ring that was there
/// at first, in the same order.
pub(crate) open spec fn ordered(origin: Seq<Node>, now: Seq<Node>, a: int, b: int) -> bool {
    forall|n: int|
        is_live(now, n) && now[n].position != a && now[n].position != b ==> #[trigger] keeps_order(
            origin,
            now,
            n,
        )
}

pub(crate) proof fn lemma_order_start(origin: Seq<Node>, count: int, a: int, b: int)
    requires
        connected(origin, count),
    ensures
        ordered(origin, origin, a, b),
{
    assert forall|n: int| is_live(origin, n) implies #[trigger] keeps_order(origin, origin, n) by {
        assert(node_wf(origin, count, n));
        let ring = lemma_fan_from(origin, n);
        lemma_ring_from(origin, ring);
        lemma_live_members_all(origin, ring);
    }
}

/// A ring at a position where nothing was touched keeps its order.
pub(crate) proof fn lemma_order_kept(origin: Seq<Node>, count: int, now: Seq<Node>, after: Seq<Node>, n: int)
    requires
        connected(origin, count),
        is_live(origin, n),
        keeps_order(origin, now, n),
        after.len() == now.len(),
        now.len() == origin.len(),
        forall|m: int|
            0 <= m < origin.len() && origin[m].position == origin[n].position ==> (
            #[trigger] after[m]) == now[m],
    ensures
        keeps_order(origin, after, n),
{
    assert(node_wf(origin, count, n));
    let ring = lemma_fan_from(origin, n);
    lemma_ring_from(origin, ring);
    assert forall|j: int| 0 <= j < ring.len() implies now[#[trigger] ring[j]].is_removed
        == after[ring[j]].is_removed by {
        assert(origin[ring[j]].position == origin[n].position);
        assert(after[ring[j]] == now[ring[j]]);
    }
    lemma_live_members_flags(now, after, ring);
    let left = live_members(now, ring);
    lemma_live_members(now, ring);
    assert forall|j: int| 0 <= j < left.len() implies after[#[trigger] left[j]].sibling
        == now[left[j]].sibling by {
        assert(left.contains(left[j]));
        assert(ring.contains(left[j]));
        let k = choose|k: int| 0 <= k < ring.len() && ring[k] == left[j];
        assert(origin[ring[k]].position == origin[n].position);
        assert(after[ring[k]] == now[ring[k]]);
    }
    lemma_ring_kept(now, after, left);
}

/// Mending the ring opposite a triangle that was just removed leaves all
/// rings in their order.
pub(crate) proof fn lemma_repair_order(
    origin: Seq<Node>,
    count: int,
    now: Seq<Node>,
    marked: Seq<Node>,
    after: Seq<Node>,
    seen: Seq<int>,
    s: int,
    c: int,
    ring_c: Seq<int>,
    valid: i32,
    a: int,
    b: int,
)
    requires
        origin.len() <= i32::MAX,
        connected(origin, count),
        a != b,
        is_live(origin, s),
        straddles(origin, s, a, b),
        has_distinct_corners(origin, s),
        origin[s].position == a,
        in_triangle(origin, s, c),
        origin[c].position != a,
        origin[c].position != b,
        marks(origin, now, seen, a, b),
        fans(now, a, b),
        ordered(origin, now, a, b),
        marked_from(origin, now, marked, s),
        marks(origin, marked, seen.push(s), a, b),
        is_fan(now, ring_c, origin[c].position as int),
        ring_c[0] == c,
        repaired(marked, after, ring_c, None, valid),
    ensures
        ordered(origin, after, a, b),
{
    let at_c = origin[c].position as int;
    let chain = live_members(marked, ring_c);
    lemma_repair(origin, count, now, marked, after, seen, s, c, ring_c, valid, a, b);
    lemma_live_members(marked, ring_c);
    assert forall|m: int| 0 <= m < origin.len() implies after[m].is_removed
        == marked[m].is_removed && (now[m].is_removed ==> marked[m].is_removed) by {
        assert(after[m].is_removed == flagged(origin, seen.push(s), m, a, b));
    }
    assert forall|n: int|
        is_live(after, n) && after[n].position != a && after[n].position
            != b implies #[trigger] keeps_order(origin, after, n) by {
        assert(now[n].position == origin[n].position);
        assert(after[n].position == origin[n].position);
        assert(is_live(now, n));
        assert(keeps_order(origin, now, n));
        if origin[n].position != at_c {
            assert forall|m: int|
                0 <= m < origin.len() && origin[m].position == origin[n].position implies (
            #[trigger] after[m]) == now[m] by {}
            lemma_order_kept(origin, count, now, after, n);
        } else {
            assert(node_wf(origin, count, n));
            let first = lemma_fan_from(origin, n);
            lemma_ring_from(origin, first);
            let left = live_members(now, first);
            assert(ring_c.contains(n));
            let k = choose|k: int| 0 <= k < ring_c.len() && ring_c[k] == n;
            let turned = rotated(ring_c, k);
            lemma_ring_rotated(now, ring_c, k);
            lemma_ring_unique(now, turned, left);
            assert forall|j: int|
                0 <= j < first.len() && now[#[trigger] first[j]].is_removed implies after[first[j]].is_removed by {}
            lemma_live_members_nested(now, after, first);
            assert forall|j: int| 0 <= j < turned.len() implies after[#[trigger] turned[j]].is_removed
                == marked[turned[j]].is_removed by {}
            lemma_live_members_flags(after, marked, turned);
            lemma_live_members_rotated(marked, ring_c, k);
            let front = ring_c.subrange(0, k);
            let back = ring_c.subrange(k, ring_c.len() as int);
            let cut = live_members(marked, front).len() as int;
            assert(front + back =~= ring_c);
            lemma_live_members_add(marked, front, back);
            assert(back[0] == n);
            lemma_live_members_first(marked, back);
            assert(cut < chain.len());
            assert forall|j: int| 0 <= j < chain.len() implies 0 <= #[trigger] chain[j]
                < marked.len() by {
                assert(chain.contains(chain[j]));
                assert(ring_c.contains(chain[j]));
                let i = choose|i: int| 0 <= i < ring_c.len() && ring_c[i] == chain[j];
                assert(0 <= ring_c[i] < now.len());
            }
            assert(marked[chain[0]].position == at_c) by {
                assert(chain.contains(chain[0]));
                assert(ring_c.contains(chain[0]));
                let i = choose|i: int| 0 <= i < ring_c.len() && ring_c[i] == chain[0];
                assert(now[ring_c[i]].position == at_c);
                assert(marked[ring_c[i]].position == origin[ring_c[i]].position);
                assert(now[ring_c[i]].position == origin[ring_c[i]].position);
            }
            lemma_relinked_ring(marked, after, chain, at_c);
            lemma_ring_rotated(after, chain, cut);
            assert(turned[0] == n);
            lemma_live_members_first(after, turned);
        }
    }
}

/// Splicing the fans of `a` and `b` leaves all other rings in their order,
/// and makes one ring of what is left of the two.
pub(crate) proof fn lemma_finish_order(
    origin: Seq<Node>,
    count: int,
    now: Seq<Node>,
    fin: Seq<Node>,
    ring_a: Seq<int>,
    ring_b: Seq<int>,
    a: int,
    b: int,
    survivor: i32,
)
    requires
        frame(origin, count, ring_a, ring_b, a, b),
        0 <= a < count,
        a <= i32::MAX,
        marks(origin, now, ring_a, a, b),
        ordered(origin, now, a, b),
        repaired(now, fin, ring_a + ring_b, Some(a as i32), survivor),
    ensures
        rings_kept(origin, fin, a, b),
        survivor != -1 ==> ring_from(fin, survivor as int) == live_members(fin, ring_a + ring_b),
{
    let walk = ring_a + ring_b;
    let chain = live_members(now, walk);
    lemma_finish_nodes(origin, count, now, fin, ring_a, ring_b, a, b, survivor);
    assert forall|n: int|
        is_live(fin, n) && origin[n].position != a && origin[n].position
            != b implies #[trigger] ring_from(fin, n) == live_members(
        fin,
        ring_from(origin, n),
    ) by {
        assert(fin[n] == now[n]);
        assert(now[n].position == origin[n].position);
        assert(keeps_order(origin, now, n));
        assert forall|m: int|
            0 <= m < origin.len() && origin[m].position == origin[n].position implies (
        #[trigger] fin[m]) == now[m] by {}
        assert(now[n].is_removed == flagged(origin, ring_a, n, a, b));
        lemma_order_kept(origin, count, now, fin, n);
        lemma_ring_from(fin, live_members(fin, ring_from(origin, n)));
    }
    if survivor != -1 {
        lemma_live_members(now, walk);
        assert forall|j: int| 0 <= j < chain.len() implies 0 <= #[trigger] chain[j]
            < now.len() by {
            assert(chain.contains(chain[j]));
            assert(walk.contains(chain[j]));
            let i = choose|i: int| 0 <= i < walk.len() && walk[i] == chain[j];
            if i < ring_a.len() {
                assert(walk[i] == ring_a[i]);
            } else {
                assert(walk[i] == ring_b[i - ring_a.len()]);
            }
        }
        lemma_relinked_ring(now, fin, chain, a);
        lemma_ring_from(fin, chain);
        assert forall|j: int| 0 <= j < walk.len() implies now[#[trigger] walk[j]].is_removed
            == fin[walk[j]].is_removed by {
            if j < ring_a.len() {
                assert(walk[j] == ring_a[j]);
                assert(0 <= ring_a[j] < origin.len());
            } else {
                assert(walk[j] == ring_b[j - ring_a.len()]);
                assert(0 <= ring_b[j - ring_a.len()] < origin.len());
            }
        }
        lemma_live_members_flags(now, fin, walk);
    }
}

} // verus!
