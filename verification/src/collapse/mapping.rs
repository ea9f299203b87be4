//! What holds of the map from positions to nodes while an edge is collapsed.

use crate::collapse::marking::{lemma_flagged_all, lemma_flagged_push, lemma_in_triangle, lemma_triangle};
use crate::collapse::{
    collapsed, collapsed_node, corner_at, entry_updated, in_triangle, map_updated, marks,
    occupied, opposite, straddles, visited,
};
use crate::connected_mesh::{connected, has_distinct_corners, is_fan, next_corner};
use crate::node::Node;
use crate::ring::is_live;
use crate::tracker::{pointed, registered};
use vstd::prelude::*;

verus! {

/// A triangle on the edge with a corner at `position` was met already.
pub(crate) open spec fn met(origin: Seq<Node>, seen: Seq<int>, position: int, a: int, b: int) -> bool {
    exists|m: int| #[trigger]
        straddles(origin, m, a, b) && visited(origin, seen, m) && origin[m].position == position
}

/// The map's entry for `p` while a collapse is under way.
pub(crate) open spec fn entry_step(
    first_map: Map<i32, i32>,
    map: Map<i32, i32>,
    origin: Seq<Node>,
    now: Seq<Node>,
    seen: Seq<int>,
    a: int,
    b: int,
    p: i32,
) -> bool {
    if p == a || p == b || !met(origin, seen, p as int, a, b) {
        &&& map.contains_key(p) <==> first_map.contains_key(p)
        &&& map.contains_key(p) ==> map[p] == first_map[p]
    } else {
        &&& map.contains_key(p) <==> occupied(now, p as int)
        &&& map.contains_key(p) ==> is_live(now, map[p] as int) && now[map[p] as int].position
            == p
    }
}

/// The map while a collapse is under way.
pub(crate) open spec fn map_step(
    first_map: Map<i32, i32>,
    map: Map<i32, i32>,
    origin: Seq<Node>,
    now: Seq<Node>,
    seen: Seq<int>,
    a: int,
    b: int,
) -> bool {
    forall|p: i32| #[trigger] entry_step(first_map, map, origin, now, seen, a, b, p)
}

pub(crate) proof fn lemma_met_push(origin: Seq<Node>, count: int, seen: Seq<int>, s: int, a: int, b: int, position: int)
    requires
        connected(origin, count),
        is_live(origin, s),
    ensures
        met(origin, seen.push(s), position, a, b) == (met(origin, seen, position, a, b) || (
        straddles(origin, s, a, b) && corner_at(origin, s, position))),
{
    lemma_triangle(origin, count, s);
    if met(origin, seen.push(s), position, a, b) {
        let m = choose|m: int| #[trigger]
            straddles(origin, m, a, b) && visited(origin, seen.push(s), m) && origin[m].position
                == position;
        lemma_flagged_push(origin, count, seen, s, a, b, m);
        lemma_in_triangle(origin, count, s, m);
        if visited(origin, seen, m) {
            assert(met(origin, seen, position, a, b));
        }
    }
    if met(origin, seen, position, a, b) {
        let m = choose|m: int| #[trigger]
            straddles(origin, m, a, b) && visited(origin, seen, m) && origin[m].position
                == position;
        lemma_flagged_push(origin, count, seen, s, a, b, m);
        assert(straddles(origin, m, a, b) && visited(origin, seen.push(s), m));
    }
    if straddles(origin, s, a, b) && corner_at(origin, s, position) {
        let s1 = next_corner(origin, s);
        let s2 = next_corner(origin, s1);
        let m = if origin[s].position == position {
            s
        } else if origin[s1].position == position {
            s1
        } else {
            s2
        };
        lemma_in_triangle(origin, count, s, m);
        lemma_flagged_push(origin, count, seen, s, a, b, m);
        assert(straddles(origin, m, a, b) && visited(origin, seen.push(s), m));
    }
}

pub(crate) proof fn lemma_map_skip(
    first_map: Map<i32, i32>,
    map: Map<i32, i32>,
    origin: Seq<Node>,
    count: int,
    now: Seq<Node>,
    seen: Seq<int>,
    s: int,
    a: int,
    b: int,
)
    requires
        connected(origin, count),
        is_live(origin, s),
        !straddles(origin, s, a, b),
        map_step(first_map, map, origin, now, seen, a, b),
    ensures
        map_step(first_map, map, origin, now, seen.push(s), a, b),
{
    assert forall|p: i32| #[trigger]
        entry_step(first_map, map, origin, now, seen.push(s), a, b, p) by {
        lemma_met_push(origin, count, seen, s, a, b, p as int);
        assert(entry_step(first_map, map, origin, now, seen, a, b, p));
    }
}

pub(crate) proof fn lemma_map_step(
    first_map: Map<i32, i32>,
    map: Map<i32, i32>,
    origin: Seq<Node>,
    count: int,
    now: Seq<Node>,
    after: Seq<Node>,
    seen: Seq<int>,
    s: int,
    c: int,
    valid: i32,
    a: int,
    b: int,
)
    requires
        a != b,
        connected(origin, count),
        is_live(origin, s),
        straddles(origin, s, a, b),
        has_distinct_corners(origin, s),
        origin[s].position == a,
        in_triangle(origin, s, c),
        origin[c].position != a,
        origin[c].position != b,
        marks(origin, now, seen, a, b),
        marks(origin, after, seen.push(s), a, b),
        forall|n: int|
            0 <= n < origin.len() && origin[n].position != a && origin[n].position != b
                && origin[n].position != origin[c].position ==> (#[trigger] after[n]) == now[n],
        valid == -1 ==> forall|n: int|
            is_live(after, n) ==> (#[trigger] after[n]).position != origin[c].position,
        valid != -1 ==> is_live(after, valid as int) && after[valid as int].position
            == origin[c].position,
        map_step(first_map, map, origin, now, seen, a, b),
    ensures
        map_step(
            first_map,
            pointed(map, origin[c].position, valid),
            origin,
            after,
            seen.push(s),
            a,
            b,
        ),
{
    let at_c = origin[c].position;
    let next_map = pointed(map, at_c, valid);
    lemma_triangle(origin, count, s);
    assert forall|n: int| in_triangle(origin, s, n) implies origin[n].position == a
        || origin[n].position == b || origin[n].position == at_c by {}
    assert forall|p: i32| #[trigger]
        entry_step(first_map, next_map, origin, after, seen.push(s), a, b, p) by {
        lemma_met_push(origin, count, seen, s, a, b, p as int);
        assert(entry_step(first_map, map, origin, now, seen, a, b, p));
        if p == a || p == b {
        } else if p == at_c {
            assert(corner_at(origin, s, p as int));
            if valid != -1 {
                assert(occupied(after, p as int));
            } else {
                if occupied(after, p as int) {
                    let n = choose|n: int| #[trigger]
                        is_live(after, n) && after[n].position == p as int;
                    assert(after[n].position != origin[c].position);
                }
            }
        } else {
            assert(!corner_at(origin, s, p as int)) by {
                let s1 = next_corner(origin, s);
                let s2 = next_corner(origin, s1);
                assert(in_triangle(origin, s, s));
                assert(in_triangle(origin, s, s1));
                assert(in_triangle(origin, s, s2));
            }
            if met(origin, seen, p as int, a, b) {
                if occupied(now, p as int) {
                    let n = choose|n: int| #[trigger]
                        is_live(now, n) && now[n].position == p as int;
                    assert(after[n] == now[n]);
                    assert(is_live(after, n));
                }
                if occupied(after, p as int) {
                    let n = choose|n: int| #[trigger]
                        is_live(after, n) && after[n].position == p as int;
                    assert(after[n] == now[n]);
                    assert(is_live(now, n));
                }
                if map.contains_key(p) {
                    let n = map[p] as int;
                    assert(now[n].position == origin[n].position);
                    assert(after[n] == now[n]);
                }
            }
        }
    }
}

pub(crate) proof fn lemma_map_finish(
    first_map: Map<i32, i32>,
    map: Map<i32, i32>,
    origin: Seq<Node>,
    count: int,
    now: Seq<Node>,
    fin: Seq<Node>,
    ring_a: Seq<int>,
    a: int,
    b: int,
    survivor: i32,
)
    requires
        connected(origin, count),
        is_fan(origin, ring_a, a),
        a != b,
        i32::MIN <= a <= i32::MAX,
        i32::MIN <= b <= i32::MAX,
        marks(origin, now, ring_a, a, b),
        collapsed(origin, fin, a, b),
        forall|n: int|
            0 <= n < origin.len() && origin[n].position != a && origin[n].position != b ==> (
            #[trigger] fin[n]) == now[n],
        survivor != -1 ==> is_live(fin, survivor as int) && fin[survivor as int].position == a,
        map_step(first_map, map, origin, now, ring_a, a, b),
    ensures
        map_updated(
            first_map,
            pointed(pointed(map, a as i32, survivor), b as i32, -1i32),
            origin,
            fin,
            a,
            b,
            survivor,
        ),
        registered(first_map, origin) ==> registered(
            pointed(pointed(map, a as i32, survivor), b as i32, -1i32),
            fin,
        ),
{
    let last_map = pointed(pointed(map, a as i32, survivor), b as i32, -1i32);
    assert forall|p: i32| p != a && p != b implies #[trigger] entry_updated(
        first_map,
        last_map,
        origin,
        fin,
        a,
        b,
        p,
    ) by {
        assert(entry_step(first_map, map, origin, now, ring_a, a, b, p));
        if opposite(origin, p as int, a, b) {
            let m = choose|m: int| #[trigger]
                straddles(origin, m, a, b) && origin[m].position == p as int;
            lemma_flagged_all(origin, count, ring_a, a, b, m);
            assert(met(origin, ring_a, p as int, a, b));
            if occupied(now, p as int) {
                let n = choose|n: int| #[trigger] is_live(now, n) && now[n].position == p as int;
                assert(fin[n] == now[n]);
                assert(is_live(fin, n));
            }
            if occupied(fin, p as int) {
                let n = choose|n: int| #[trigger] is_live(fin, n) && fin[n].position == p as int;
                assert(fin[n] == collapsed_node(origin, n, a, b, fin[n].sibling));
                assert(fin[n] == now[n]);
                assert(is_live(now, n));
            }
            if map.contains_key(p) {
                let n = map[p] as int;
                assert(now[n].position == origin[n].position);
                assert(fin[n] == now[n]);
            }
        } else {
            if met(origin, ring_a, p as int, a, b) {
                let m = choose|m: int| #[trigger]
                    straddles(origin, m, a, b) && visited(origin, ring_a, m) && origin[m].position
                        == p as int;
                assert(opposite(origin, p as int, a, b));
            }
        }
    }
    if registered(first_map, origin) {
        assert forall|p: i32| #[trigger] last_map.contains_key(p) implies is_live(
            fin,
            last_map[p] as int,
        ) && fin[last_map[p] as int].position == p by {
            if p == a {
            } else {
                assert(entry_updated(first_map, last_map, origin, fin, a, b, p));
                if !opposite(origin, p as int, a, b) {
                    assert(first_map.contains_key(p));
                    let n = first_map[p] as int;
                    assert(fin[n] == origin[n]);
                }
            }
        }
    }
}

} // verus!
