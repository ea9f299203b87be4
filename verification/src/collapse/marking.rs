//! What holds of the nodes while an edge is collapsed, step by step.

use crate::collapse::{
    collapsed_node, corner_at, flagged, fans, frame, in_triangle, marked_from, marks, opposite,
    straddles, visited,
};
use crate::connected_mesh::{
    connected, has_distinct_corners, has_fan, is_fan, is_triangle, lemma_fan_from,
    lemma_live_count_flags, live_count, next_corner, node_wf, nondegenerate,
};
use crate::node::Node;
use crate::repair::{disjoint, repaired};
use crate::ring::{
    is_live, is_ring, lemma_live_members, lemma_relinked_ring, live_members, relinked,
};
use vstd::prelude::*;
use vstd::seq_lib::lemma_seq_contains_after_push;

verus! {

pub(crate) proof fn lemma_triangle(origin: Seq<Node>, count: int, n: int)
    requires
        connected(origin, count),
        is_live(origin, n),
    ensures
        is_triangle(origin, n),
        is_triangle(origin, next_corner(origin, n)),
        is_triangle(origin, next_corner(origin, next_corner(origin, n))),
        next_corner(origin, next_corner(origin, next_corner(origin, n))) == n,
{
    let n1 = next_corner(origin, n);
    let n2 = next_corner(origin, n1);
    assert(node_wf(origin, count, n));
    assert(node_wf(origin, count, n1));
    assert(node_wf(origin, count, n2));
}

pub(crate) proof fn lemma_in_triangle(origin: Seq<Node>, count: int, s: int, n: int)
    requires
        connected(origin, count),
        is_live(origin, s),
        is_live(origin, n),
    ensures
        in_triangle(origin, s, n) == in_triangle(origin, n, s),
        in_triangle(origin, s, n) ==> forall|p: int| corner_at(origin, n, p) == corner_at(origin, s, p),
{
    lemma_triangle(origin, count, s);
    lemma_triangle(origin, count, n);
}

pub(crate) proof fn lemma_unvisited(origin: Seq<Node>, count: int, ring_a: Seq<int>, i: int, a: int)
    requires
        connected(origin, count),
        nondegenerate(origin),
        is_fan(origin, ring_a, a),
        0 <= i < ring_a.len(),
    ensures
        !visited(origin, ring_a.subrange(0, i), ring_a[i]),
{
    let seen = ring_a.subrange(0, i);
    let s = ring_a[i];
    let s1 = next_corner(origin, s);
    let s2 = next_corner(origin, s1);
    assert(!origin[ring_a[i]].is_removed);
    lemma_triangle(origin, count, s);
    assert(has_distinct_corners(origin, s));
    assert forall|x: int| seen.contains(x) implies x != s && origin[x].position == a by {
        let k = choose|k: int| 0 <= k < seen.len() && seen[k] == x;
        assert(seen[k] == ring_a[k]);
        assert(origin[ring_a[k]].position == a);
    }
}

pub(crate) proof fn lemma_flagged_push(origin: Seq<Node>, count: int, seen: Seq<int>, s: int, a: int, b: int, n: int)
    requires
        connected(origin, count),
        is_live(origin, s),
        0 <= n < origin.len(),
    ensures
        flagged(origin, seen.push(s), n, a, b) == (flagged(origin, seen, n, a, b) || (straddles(
            origin,
            s,
            a,
            b,
        ) && in_triangle(origin, s, n))),
{
    if !origin[n].is_removed {
        let n1 = next_corner(origin, n);
        let n2 = next_corner(origin, n1);
        lemma_triangle(origin, count, n);
        lemma_triangle(origin, count, s);
        lemma_in_triangle(origin, count, s, n);
        lemma_seq_contains_after_push(seen, s, n);
        lemma_seq_contains_after_push(seen, s, n1);
        lemma_seq_contains_after_push(seen, s, n2);
        assert(visited(origin, seen.push(s), n) == (visited(origin, seen, n) || in_triangle(
            origin,
            n,
            s,
        )));
        if in_triangle(origin, s, n) {
            assert(corner_at(origin, n, a) == corner_at(origin, s, a));
            assert(corner_at(origin, n, b) == corner_at(origin, s, b));
        }
    }
}

/// A fan member whose triangle is not on the edge leaves everything as it is.
pub(crate) proof fn lemma_skip(origin: Seq<Node>, count: int, now: Seq<Node>, seen: Seq<int>, s: int, a: int, b: int)
    requires
        connected(origin, count),
        is_live(origin, s),
        !straddles(origin, s, a, b),
        marks(origin, now, seen, a, b),
    ensures
        marks(origin, now, seen.push(s), a, b),
{
    assert forall|n: int| 0 <= n < origin.len() implies #[trigger] now[n] == (Node {
        is_removed: flagged(origin, seen.push(s), n, a, b),
        sibling: now[n].sibling,
        ..origin[n]
    }) by {
        lemma_flagged_push(origin, count, seen, s, a, b, n);
    }
}

/// Removing the triangle of a fan member that lies on the edge.
pub(crate) proof fn lemma_mark(
    origin: Seq<Node>,
    count: int,
    now: Seq<Node>,
    marked: Seq<Node>,
    seen: Seq<int>,
    s: int,
    a: int,
    b: int,
)
    requires
        connected(origin, count),
        is_live(origin, s),
        straddles(origin, s, a, b),
        marks(origin, now, seen, a, b),
        marked_from(origin, now, marked, s),
    ensures
        marks(origin, marked, seen.push(s), a, b),
{
    assert forall|n: int| 0 <= n < origin.len() implies #[trigger] marked[n] == (Node {
        is_removed: flagged(origin, seen.push(s), n, a, b),
        sibling: marked[n].sibling,
        ..origin[n]
    }) by {
        lemma_flagged_push(origin, count, seen, s, a, b, n);
        assert(now[n].sibling == marked[n].sibling);
    }
    assert forall|n: int|
        0 <= n < origin.len() && (#[trigger] marked[n]).sibling != origin[n].sibling implies {
        &&& !origin[n].is_removed
        &&& origin[n].position != a
        &&& origin[n].position != b
        &&& opposite(origin, origin[n].position as int, a, b)
    } by {
        assert(now[n].sibling == marked[n].sibling);
    }
}

/// A fan whose nodes were not touched, at a position that no node came to,
/// is a fan still.
pub(crate) proof fn lemma_fan_kept(before: Seq<Node>, after: Seq<Node>, ring: Seq<int>, position: int)
    requires
        is_fan(before, ring, position),
        after.len() == before.len(),
        forall|j: int| 0 <= j < ring.len() ==> after[#[trigger] ring[j]] == before[ring[j]],
        forall|n: int|
            is_live(after, n) && (#[trigger] after[n]).position == position ==> is_live(before, n)
                && before[n].position == position,
    ensures
        is_fan(after, ring, position),
{
    assert forall|n: int| is_live(after, n) && after[n].position == position implies #[trigger]
        ring.contains(n) by {
        assert(is_live(before, n) && before[n].position == position);
    }
}

/// The live members of a walk that a repair linked up are the fan of the
/// position they were moved to, where the walk holds every live node there.
pub(crate) proof fn lemma_fan_repaired(before: Seq<Node>, after: Seq<Node>, walk: Seq<int>, position: int)
    requires
        before.len() <= i32::MAX,
        walk.no_duplicates(),
        forall|j: int| 0 <= j < walk.len() ==> 0 <= #[trigger] walk[j] < before.len(),
        live_members(before, walk).len() > 0,
        relinked(before, after, live_members(before, walk), position),
        i32::MIN <= position <= i32::MAX,
        forall|n: int|
            is_live(after, n) && (#[trigger] after[n]).position == position ==> walk.contains(n),
    ensures
        is_fan(after, live_members(before, walk), position),
{
    let chain = live_members(before, walk);
    lemma_live_members(before, walk);
    assert forall|j: int| 0 <= j < chain.len() implies 0 <= #[trigger] chain[j] < before.len()
        && !before[chain[j]].is_removed by {
        assert(chain.contains(chain[j]));
        assert(walk.contains(chain[j]));
        let k = choose|k: int| 0 <= k < walk.len() && walk[k] == chain[j];
        assert(0 <= walk[k] < before.len());
    }
    lemma_relinked_ring(before, after, chain, position);
    assert forall|j: int| 0 <= j < chain.len() implies !after[#[trigger] chain[j]].is_removed
        && after[chain[j]].position == position by {
        assert(after[chain[j]].is_removed == before[chain[j]].is_removed);
    }
    assert forall|n: int| is_live(after, n) && after[n].position == position implies #[trigger]
        chain.contains(n) by {
        assert(walk.contains(n));
        if chain.contains(n) {
        } else {
            assert(after[n] == before[n]);
        }
    }
}

/// Mending the ring opposite a triangle that was just removed.
pub(crate) proof fn lemma_repair(
    origin: Seq<Node>,
    count: int,
    now: Seq<Node>,
    marked: Seq<Node>,
    after: Seq<Node>,
    seen: Seq<int>,
    s: int,
    c: int,
    ring_c: Seq<int>,
    valid: i32,
    a: int,
    b: int,
)
    requires
        origin.len() <= i32::MAX,
        connected(origin, count),
        a != b,
        is_live(origin, s),
        straddles(origin, s, a, b),
        has_distinct_corners(origin, s),
        origin[s].position == a,
        in_triangle(origin, s, c),
        origin[c].position != a,
        origin[c].position != b,
        marks(origin, now, seen, a, b),
        fans(now, a, b),
        marked_from(origin, now, marked, s),
        marks(origin, marked, seen.push(s), a, b),
        is_fan(now, ring_c, origin[c].position as int),
        ring_c[0] == c,
        repaired(marked, after, ring_c, None, valid),
    ensures
        marks(origin, after, seen.push(s), a, b),
        fans(after, a, b),
        live_count(after) == live_count(marked),
        valid == -1 ==> forall|n: int|
            is_live(after, n) ==> (#[trigger] after[n]).position != origin[c].position,
        valid != -1 ==> is_live(after, valid as int) && after[valid as int].position
            == origin[c].position,
        forall|n: int|
            0 <= n < origin.len() && origin[n].position != a && origin[n].position != b
                && origin[n].position != origin[c].position ==> (#[trigger] after[n]) == now[n],
{
    let at_c = origin[c].position as int;
    let chain = live_members(marked, ring_c);
    lemma_live_members(marked, ring_c);
    lemma_triangle(origin, count, s);
    assert forall|n: int| in_triangle(origin, s, n) implies origin[n].position == a
        || origin[n].position == b || origin[n].position == at_c by {}
    assert forall|j: int| 0 <= j < chain.len() implies 0 <= #[trigger] chain[j] < origin.len()
        && !marked[chain[j]].is_removed && origin[chain[j]].position == at_c by {
        assert(chain.contains(chain[j]));
        assert(ring_c.contains(chain[j]));
        let k = choose|k: int| 0 <= k < ring_c.len() && ring_c[k] == chain[j];
        assert(now[ring_c[k]].position == at_c);
    }
    assert(straddles(origin, c, a, b)) by {
        lemma_in_triangle(origin, count, s, c);
    }
    assert(opposite(origin, at_c, a, b));
    if chain.len() > 0 {
        assert(chain[0] == valid);
        assert(marked[chain[0]].position == at_c) by {
            assert(now[chain[0]].position == origin[chain[0]].position);
        }
        assert(relinked(marked, after, chain, at_c));
        assert forall|n: int| is_live(after, n) && (#[trigger] after[n]).position
            == at_c implies ring_c.contains(n) by {
            if chain.contains(n) {
            } else {
                assert(after[n] == marked[n]);
                assert(is_live(now, n) && now[n].position == at_c);
            }
        }
        assert forall|j: int| 0 <= j < ring_c.len() implies 0 <= #[trigger] ring_c[j]
            < marked.len() by {}
        lemma_fan_repaired(marked, after, ring_c, at_c);
    }
    assert forall|n: int| 0 <= n < origin.len() implies after[n].is_removed
        == marked[n].is_removed && after[n].position == marked[n].position && after[n].relative
        == marked[n].relative && after[n].attribute == marked[n].attribute && (after[n].sibling
        != marked[n].sibling ==> chain.contains(n)) by {
        if chain.len() > 0 {
            if chain.contains(n) {
                let j = choose|j: int| 0 <= j < chain.len() && chain[j] == n;
                assert(after[chain[j]].position == at_c);
                assert(now[chain[j]].position == origin[chain[j]].position);
            } else {
                assert(after[n] == marked[n]);
            }
        }
    }
    lemma_live_count_flags(marked, after);
    assert forall|n: int| 0 <= n < origin.len() implies #[trigger] after[n] == (Node {
        is_removed: flagged(origin, seen.push(s), n, a, b),
        sibling: after[n].sibling,
        ..origin[n]
    }) by {
        assert(marked[n].is_removed == after[n].is_removed);
    }
    assert forall|n: int|
        0 <= n < origin.len() && (#[trigger] after[n]).sibling != origin[n].sibling implies {
        &&& !origin[n].is_removed
        &&& origin[n].position != a
        &&& origin[n].position != b
        &&& opposite(origin, origin[n].position as int, a, b)
    } by {
        if after[n].sibling != marked[n].sibling {
            assert(chain.contains(n));
            let j = choose|j: int| 0 <= j < chain.len() && chain[j] == n;
            assert(!marked[chain[j]].is_removed);
        }
    }
    assert forall|n: int|
        is_live(after, n) && after[n].position != a && after[n].position
            != b implies #[trigger] has_fan(after, after[n].position as int) by {
        let at_n = after[n].position as int;
        assert(marked[n].is_removed == after[n].is_removed);
        assert(is_live(now, n) && now[n].position == at_n);
        assert(has_fan(now, now[n].position as int));
        if at_n == at_c {
            assert(ring_c.contains(n));
            assert(chain.contains(n));
            assert(is_fan(after, chain, at_c));
        } else {
            let ring = lemma_fan_from(now, n);
            assert forall|j: int| 0 <= j < ring.len() implies after[#[trigger] ring[j]]
                == now[ring[j]] by {
                let m = ring[j];
                assert(now[m].position == at_n);
                assert(!in_triangle(origin, s, m));
                assert(marked[m] == now[m]);
                if chain.contains(m) {
                    let k = choose|k: int| 0 <= k < chain.len() && chain[k] == m;
                    assert(origin[chain[k]].position == at_c);
                }
                assert(after[m].sibling == marked[m].sibling);
            }
            assert forall|m: int|
                is_live(after, m) && (#[trigger] after[m]).position == at_n implies is_live(
                now,
                m,
            ) && now[m].position == at_n by {
                assert(marked[m].is_removed == after[m].is_removed);
            }
            lemma_fan_kept(now, after, ring, at_n);
        }
    }
    assert forall|n: int|
        0 <= n < origin.len() && origin[n].position != a && origin[n].position != b
            && origin[n].position != origin[c].position implies (#[trigger] after[n])
        == now[n] by {
        assert(!in_triangle(origin, s, n));
        assert(marked[n] == now[n]);
        if chain.contains(n) {
            let k = choose|k: int| 0 <= k < chain.len() && chain[k] == n;
            assert(origin[chain[k]].position == at_c);
        }
        assert(after[n].sibling == marked[n].sibling);
    }
    if valid == -1 {
        assert forall|n: int| is_live(after, n) implies (#[trigger] after[n]).position
            != origin[c].position by {
            if after[n].position == at_c {
                assert(marked[n].is_removed == after[n].is_removed);
                assert(is_live(now, n) && now[n].position == at_c);
                assert(ring_c.contains(n));
                assert(chain.contains(n));
            }
        }
    }
}

/// Once the whole fan of `a` was dealt with, every triangle on the edge is
/// removed.
pub(crate) proof fn lemma_flagged_all(origin: Seq<Node>, count: int, ring_a: Seq<int>, a: int, b: int, n: int)
    requires
        connected(origin, count),
        is_fan(origin, ring_a, a),
        0 <= n < origin.len(),
    ensures
        flagged(origin, ring_a, n, a, b) == (origin[n].is_removed || straddles(origin, n, a, b)),
{
    if straddles(origin, n, a, b) {
        let n1 = next_corner(origin, n);
        let n2 = next_corner(origin, n1);
        lemma_triangle(origin, count, n);
        if origin[n].position == a {
            assert(ring_a.contains(n));
        } else if origin[n1].position == a {
            assert(ring_a.contains(n1));
        } else {
            assert(ring_a.contains(n2));
        }
    }
}

/// A ring whose members kept their `sibling` is a ring still.
pub(crate) proof fn lemma_ring_kept(before: Seq<Node>, after: Seq<Node>, ring: Seq<int>)
    requires
        is_ring(before, ring),
        after.len() == before.len(),
        forall|j: int|
            0 <= j < ring.len() ==> after[#[trigger] ring[j]].sibling == before[ring[j]].sibling,
    ensures
        is_ring(after, ring),
{
}

/// What the nodes are once the fans of `a` and `b` were spliced.
pub(crate) proof fn lemma_finish_nodes(
    origin: Seq<Node>,
    count: int,
    now: Seq<Node>,
    fin: Seq<Node>,
    ring_a: Seq<int>,
    ring_b: Seq<int>,
    a: int,
    b: int,
    survivor: i32,
)
    requires
        frame(origin, count, ring_a, ring_b, a, b),
        i32::MIN <= a <= i32::MAX,
        marks(origin, now, ring_a, a, b),
        repaired(now, fin, ring_a + ring_b, Some(a as i32), survivor),
    ensures
        fin.len() == origin.len(),
        (ring_a + ring_b).no_duplicates(),
        forall|n: int|
            0 <= n < origin.len() ==> #[trigger] fin[n] == collapsed_node(
                origin,
                n,
                a,
                b,
                fin[n].sibling,
            ),
        forall|n: int|
            0 <= n < origin.len() ==> (#[trigger] fin[n]).is_removed == now[n].is_removed,
        forall|n: int|
            0 <= n < origin.len() && origin[n].position != a && origin[n].position != b ==> (
            #[trigger] fin[n]) == now[n],
        forall|n: int|
            0 <= n < origin.len() && origin[n].position != a && origin[n].position != b
                && !opposite(origin, origin[n].position as int, a, b) ==> (#[trigger] fin[n])
                == origin[n],
        forall|n: int|
            is_live(fin, n) && (#[trigger] fin[n]).position == a ==> (ring_a + ring_b).contains(n),
        live_members(now, ring_a + ring_b).len() > 0 ==> relinked(
            now,
            fin,
            live_members(now, ring_a + ring_b),
            a,
        ),
        survivor == -1 ==> forall|n: int| is_live(fin, n) ==> (#[trigger] fin[n]).position != a,
        survivor != -1 ==> is_live(fin, survivor as int) && fin[survivor as int].position == a,
{
    let walk = ring_a + ring_b;
    let chain = live_members(now, walk);
    lemma_live_members(now, walk);
    assert(disjoint(ring_a, ring_b)) by {
        assert forall|i: int, j: int| 0 <= i < ring_a.len() && 0 <= j < ring_b.len() implies
            ring_a[i] != ring_b[j] by {
            assert(origin[ring_a[i]].position == a);
            assert(origin[ring_b[j]].position == b);
        }
    }
    vstd::seq_lib::lemma_no_dup_in_concat(ring_a, ring_b);
    assert forall|n: int| walk.contains(n) implies 0 <= n < origin.len() && !origin[n].is_removed
        && (origin[n].position == a || origin[n].position == b) by {
        let k = choose|k: int| 0 <= k < walk.len() && walk[k] == n;
        if k < ring_a.len() {
            assert(walk[k] == ring_a[k]);
            assert(!origin[ring_a[k]].is_removed);
        } else {
            assert(walk[k] == ring_b[k - ring_a.len()]);
            assert(!origin[ring_b[k - ring_a.len()]].is_removed);
        }
    }
    assert forall|n: int|
        is_live(origin, n) && (origin[n].position == a || origin[n].position
            == b) implies walk.contains(n) by {
        if origin[n].position == a {
            assert(ring_a.contains(n));
            let k = choose|k: int| 0 <= k < ring_a.len() && ring_a[k] == n;
            assert(walk[k] == n);
        } else {
            assert(ring_b.contains(n));
            let k = choose|k: int| 0 <= k < ring_b.len() && ring_b[k] == n;
            assert(walk[k + ring_a.len()] == n);
        }
    }
    assert forall|n: int| 0 <= n < origin.len() implies (#[trigger] fin[n]) == (if chain.contains(
        n,
    ) {
        Node { sibling: fin[n].sibling, position: a as i32, ..now[n] }
    } else {
        now[n]
    }) by {
        if chain.len() > 0 {
            if chain.contains(n) {
                let j = choose|j: int| 0 <= j < chain.len() && chain[j] == n;
                assert(fin[chain[j]].position == a);
            } else {
                assert(fin[n] == now[n]);
            }
        }
    }
    assert forall|n: int| 0 <= n < origin.len() implies #[trigger] fin[n] == collapsed_node(
        origin,
        n,
        a,
        b,
        fin[n].sibling,
    ) by {
        lemma_flagged_all(origin, count, ring_a, a, b, n);
        assert(now[n].is_removed == flagged(origin, ring_a, n, a, b));
        if chain.contains(n) {
            assert(walk.contains(n));
        } else {
            if is_live(now, n) && (origin[n].position == a || origin[n].position == b) {
                assert(walk.contains(n));
                assert(chain.contains(n));
            }
        }
    }
    assert forall|n: int|
        0 <= n < origin.len() && origin[n].position != a && origin[n].position != b implies (
    #[trigger] fin[n]) == now[n] by {
        if chain.contains(n) {
            assert(walk.contains(n));
        }
    }
    assert forall|n: int|
        0 <= n < origin.len() && origin[n].position != a && origin[n].position != b && !opposite(
            origin,
            origin[n].position as int,
            a,
            b,
        ) implies (#[trigger] fin[n]) == origin[n] by {
        if chain.contains(n) {
            assert(walk.contains(n));
        }
        assert(fin[n] == now[n]);
        lemma_flagged_all(origin, count, ring_a, a, b, n);
        assert(now[n].is_removed == flagged(origin, ring_a, n, a, b));
        if straddles(origin, n, a, b) {
            assert(opposite(origin, origin[n].position as int, a, b));
        }
    }
    assert forall|n: int| is_live(fin, n) && (#[trigger] fin[n]).position == a implies walk.contains(
        n,
    ) by {
        if chain.contains(n) {
        } else {
            assert(now[n].position == origin[n].position);
        }
    }
    if chain.len() > 0 {
        assert(chain.contains(chain[0]));
        assert(walk.contains(chain[0]));
    }
    if survivor == -1 {
        assert(chain.len() == 0);
        assert forall|n: int| is_live(fin, n) implies (#[trigger] fin[n]).position != a by {
            if fin[n].position == a {
                assert(walk.contains(n));
                assert(chain.contains(n));
            }
        }
    } else {
        assert(chain.contains(chain[0]));
        assert(walk.contains(chain[0]));
    }
}

/// The mesh is well formed again once the fans of `a` and `b` were spliced.
pub(crate) proof fn lemma_finish_connected(
    origin: Seq<Node>,
    count: int,
    now: Seq<Node>,
    fin: Seq<Node>,
    ring_a: Seq<int>,
    ring_b: Seq<int>,
    a: int,
    b: int,
    survivor: i32,
)
    requires
        frame(origin, count, ring_a, ring_b, a, b),
        0 <= a < count,
        a <= i32::MAX,
        marks(origin, now, ring_a, a, b),
        fans(now, a, b),
        repaired(now, fin, ring_a + ring_b, Some(a as i32), survivor),
    ensures
        connected(fin, count),
        nondegenerate(fin),
        live_count(fin) == live_count(now),
{
    let walk = ring_a + ring_b;
    let chain = live_members(now, walk);
    lemma_finish_nodes(origin, count, now, fin, ring_a, ring_b, a, b, survivor);
    lemma_live_count_flags(now, fin);
    assert forall|j: int| 0 <= j < walk.len() implies 0 <= #[trigger] walk[j] < now.len() by {
        if j < ring_a.len() {
            assert(walk[j] == ring_a[j]);
        } else {
            assert(walk[j] == ring_b[j - ring_a.len()]);
        }
    }
    assert forall|n: int| is_live(fin, n) implies #[trigger] node_wf(fin, count, n) by {
        let n1 = next_corner(origin, n);
        let n2 = next_corner(origin, n1);
        assert(fin[n] == collapsed_node(origin, n, a, b, fin[n].sibling));
        lemma_triangle(origin, count, n);
        lemma_in_triangle(origin, count, n, n1);
        lemma_in_triangle(origin, count, n, n2);
        assert(fin[n1] == collapsed_node(origin, n1, a, b, fin[n1].sibling));
        assert(fin[n2] == collapsed_node(origin, n2, a, b, fin[n2].sibling));
        assert(is_triangle(fin, n));
        assert(node_wf(origin, count, n));
        let at_n = fin[n].position as int;
        if at_n == a {
            assert(walk.contains(n));
            lemma_live_members(now, walk);
            assert(chain.contains(n));
            lemma_fan_repaired(now, fin, walk, a);
            assert(is_fan(fin, chain, a));
        } else {
            assert(origin[n].position != a && origin[n].position != b);
            assert(fin[n] == now[n]);
            assert(has_fan(now, now[n].position as int));
            let ring = lemma_fan_from(now, n);
            assert forall|j: int| 0 <= j < ring.len() implies fin[#[trigger] ring[j]]
                == now[ring[j]] by {
                assert(now[ring[j]].position == at_n);
                assert(origin[ring[j]].position == at_n);
            }
            assert forall|m: int|
                is_live(fin, m) && (#[trigger] fin[m]).position == at_n implies is_live(now, m)
                && now[m].position == at_n by {
                assert(fin[m] == collapsed_node(origin, m, a, b, fin[m].sibling));
                assert(now[m].position == origin[m].position);
            }
            lemma_fan_kept(now, fin, ring, at_n);
        }
    }
    assert forall|n: int| is_live(fin, n) implies #[trigger] has_distinct_corners(fin, n) by {
        let n1 = next_corner(origin, n);
        let n2 = next_corner(origin, n1);
        assert(fin[n] == collapsed_node(origin, n, a, b, fin[n].sibling));
        lemma_triangle(origin, count, n);
        lemma_in_triangle(origin, count, n, n1);
        lemma_in_triangle(origin, count, n, n2);
        assert(fin[n1] == collapsed_node(origin, n1, a, b, fin[n1].sibling));
        assert(fin[n2] == collapsed_node(origin, n2, a, b, fin[n2].sibling));
        assert(has_distinct_corners(origin, n));
    }
}

} // verus!
