//! Edge collapse: merging one position into another.

mod mapping;
mod marking;
mod order;

use crate::collapse::mapping::{
    entry_step, lemma_map_finish, lemma_map_skip, lemma_map_step, map_step, met,
};
use crate::collapse::marking::{
    lemma_finish_connected, lemma_finish_nodes, lemma_in_triangle, lemma_mark, lemma_repair,
    lemma_ring_kept, lemma_skip, lemma_triangle, lemma_unvisited,
};
use crate::collapse::order::{lemma_finish_order, lemma_order_start, lemma_repair_order, ordered};
use crate::connected_mesh::{
    connected, decimated, has_distinct_corners, has_fan, is_fan, lemma_fan_from,
    lemma_live_count_update, live_count, next_corner, node_wf, nondegenerate, ConnectedMesh,
};
use crate::node::Node;
use crate::repair::disjoint;
use crate::ring::{
    is_live, is_ring, lemma_live_members_flags, lemma_ring_from, live_members, ring_from,
};
use crate::tracker::{map_of, point_at, registered};
use std::collections::HashMap;
use vstd::prelude::*;

verus! {

/// The triangle of `n` has a corner at `position`.
pub open spec fn corner_at(nodes: Seq<Node>, n: int, position: int) -> bool {
    let b = next_corner(nodes, n);
    let c = next_corner(nodes, b);
    nodes[n].position == position || nodes[b].position == position || nodes[c].position
        == position
}

/// `n` is a corner of a live triangle that has a corner at `a` and one at `b`:
/// the triangle lies on the edge between the two positions.
pub open spec fn straddles(nodes: Seq<Node>, n: int, a: int, b: int) -> bool {
    is_live(nodes, n) && corner_at(nodes, n, a) && corner_at(nodes, n, b)
}

/// `position` is that of a corner of a triangle on the edge between `a` and `b`.
pub open spec fn opposite(nodes: Seq<Node>, position: int, a: int, b: int) -> bool {
    exists|m: int| #[trigger] straddles(nodes, m, a, b) && nodes[m].position == position
}

/// Some live triangle lies on the edge between `a` and `b`.
pub open spec fn has_face(nodes: Seq<Node>, a: int, b: int) -> bool {
    exists|n: int| #[trigger] straddles(nodes, n, a, b)
}

/// Node `n` after the collapse of `b` into `a`, but for the `sibling` of a
/// node that stays or is opposite the edge: a corner of a triangle on the
/// edge is removed, at `a` and at `b` with its `sibling` as it was, and a
/// node that stays and was at `b` is at `a`.
pub open spec fn collapsed_node(before: Seq<Node>, n: int, a: int, b: int, sibling: i32) -> Node {
    if before[n].is_removed {
        before[n]
    } else if straddles(before, n, a, b) {
        if before[n].position == a || before[n].position == b {
            Node { is_removed: true, ..before[n] }
        } else {
            Node { is_removed: true, sibling, ..before[n] }
        }
    } else if before[n].position == b {
        Node { position: a as i32, sibling, ..before[n] }
    } else {
        Node { sibling, ..before[n] }
    }
}

/// What a collapse of `b` into `a` does to the nodes: each node is as
/// `collapsed_node` says, and a node that is neither at `a`, at `b` nor at a
/// position opposite the edge is as it was, `sibling` included.
pub open spec fn collapsed(before: Seq<Node>, after: Seq<Node>, a: int, b: int) -> bool {
    &&& after.len() == before.len()
    &&& forall|n: int|
        0 <= n < before.len() ==> #[trigger] after[n] == collapsed_node(
            before,
            n,
            a,
            b,
            after[n].sibling,
        )
    &&& forall|n: int|
        0 <= n < before.len() && before[n].position != a && before[n].position != b && !opposite(
            before,
            before[n].position as int,
            a,
            b,
        ) ==> (#[trigger] after[n]) == before[n]
}

/// Some live node is at `position`.
pub open spec fn occupied(nodes: Seq<Node>, position: int) -> bool {
    exists|n: int| #[trigger] is_live(nodes, n) && nodes[n].position == position
}

/// What a collapse of `b` into `a` does to the map's entry for a position
/// `p` other than the two: opposite the edge, `p` is known exactly when a
/// live node is left there, and then points at one; elsewhere the entry is
/// as it was.
pub open spec fn entry_updated(
    before_map: Map<i32, i32>,
    after_map: Map<i32, i32>,
    before: Seq<Node>,
    after: Seq<Node>,
    a: int,
    b: int,
    p: i32,
) -> bool {
    if opposite(before, p as int, a, b) {
        &&& after_map.contains_key(p) <==> occupied(after, p as int)
        &&& after_map.contains_key(p) ==> is_live(after, after_map[p] as int)
            && after[after_map[p] as int].position == p
    } else {
        &&& after_map.contains_key(p) <==> before_map.contains_key(p)
        &&& after_map.contains_key(p) ==> after_map[p] == before_map[p]
    }
}

/// What a collapse of `b` into `a` does to the map: `a` points at the
/// survivor, or is forgotten where there is none; `b` is forgotten; every
/// other entry is as `entry_updated` says.
pub open spec fn map_updated(
    before_map: Map<i32, i32>,
    after_map: Map<i32, i32>,
    before: Seq<Node>,
    after: Seq<Node>,
    a: int,
    b: int,
    survivor: i32,
) -> bool {
    &&& after_map.contains_key(a as i32) <==> survivor != -1
    &&& survivor != -1 ==> after_map[a as i32] == survivor
    &&& !after_map.contains_key(b as i32)
    &&& forall|p: i32|
        p != a && p != b ==> #[trigger] entry_updated(before_map, after_map, before, after, a, b, p)
}

/// A collapse of `b` into `a` leaves each ring away from the two positions in
/// its order: the ring of a node that stays is what is left of the ring that
/// the node was on, entered at that node.
pub open spec fn rings_kept(before: Seq<Node>, after: Seq<Node>, a: int, b: int) -> bool {
    forall|n: int|
        is_live(after, n) && before[n].position != a && before[n].position != b ==> #[trigger] ring_from(
            after,
            n,
        ) == live_members(after, ring_from(before, n))
}

/// The first live member of `walk`, or `-1` where it has none.
pub open spec fn first_live(nodes: Seq<Node>, walk: Seq<int>) -> int {
    if live_members(nodes, walk).len() == 0 {
        -1
    } else {
        live_members(nodes, walk)[0]
    }
}

/// `n` is one of the three corners of the triangle of `s`.
pub(crate) open spec fn in_triangle(nodes: Seq<Node>, s: int, n: int) -> bool {
    let s1 = next_corner(nodes, s);
    let s2 = next_corner(nodes, s1);
    n == s || n == s1 || n == s2
}

/// A corner of the triangle of `n` is among `seen`.
pub(crate) open spec fn visited(nodes: Seq<Node>, seen: Seq<int>, n: int) -> bool {
    let b = next_corner(nodes, n);
    let c = next_corner(nodes, b);
    seen.contains(n) || seen.contains(b) || seen.contains(c)
}

/// `n` is a tombstone once the fan members `seen` have been dealt with.
pub(crate) open spec fn flagged(origin: Seq<Node>, seen: Seq<int>, n: int, a: int, b: int) -> bool {
    origin[n].is_removed || (straddles(origin, n, a, b) && visited(origin, seen, n))
}

/// The nodes while a collapse is under way, with the fan members `seen` dealt
/// with: triangles on the edge that were met are removed, and `sibling` has
/// changed only at positions opposite the edge.
pub(crate) open spec fn marks(origin: Seq<Node>, now: Seq<Node>, seen: Seq<int>, a: int, b: int) -> bool {
    &&& now.len() == origin.len()
    &&& forall|n: int|
        0 <= n < origin.len() ==> #[trigger] now[n] == (Node {
            is_removed: flagged(origin, seen, n, a, b),
            sibling: now[n].sibling,
            ..origin[n]
        })
    &&& forall|n: int|
        0 <= n < origin.len() && (#[trigger] now[n]).sibling != origin[n].sibling ==> {
            &&& !origin[n].is_removed
            &&& origin[n].position != a
            &&& origin[n].position != b
            &&& opposite(origin, origin[n].position as int, a, b)
        }
}

/// Away from `a` and `b` the live nodes of each position form one ring.
pub(crate) open spec fn fans(now: Seq<Node>, a: int, b: int) -> bool {
    forall|n: int|
        is_live(now, n) && now[n].position != a && now[n].position != b ==> #[trigger] has_fan(
            now,
            now[n].position as int,
        )
}

/// What does not change while `b` is collapsed into `a`.
pub(crate) open spec fn frame(origin: Seq<Node>, count: int, ring_a: Seq<int>, ring_b: Seq<int>, a: int, b: int) -> bool {
    &&& origin.len() <= i32::MAX
    &&& connected(origin, count)
    &&& nondegenerate(origin)
    &&& a != b
    &&& is_fan(origin, ring_a, a)
    &&& is_fan(origin, ring_b, b)
}

/// `marked` is `now` with the three corners of the triangle of `s` removed.
pub(crate) open spec fn marked_from(origin: Seq<Node>, now: Seq<Node>, marked: Seq<Node>, s: int) -> bool {
    &&& marked.len() == now.len()
    &&& forall|n: int|
        0 <= n < now.len() ==> #[trigger] marked[n] == (if in_triangle(origin, s, n) {
            Node { is_removed: true, ..now[n] }
        } else {
            now[n]
        })
}

impl<P> ConnectedMesh<P> {
    /// Collapses the edge between the position of `node_index_a` and the
    /// position of `node_index_b`: the second position is merged into the
    /// first.
    ///
    /// Every triangle that has a corner at each of the two positions is
    /// removed, with all three of its corners, and the ring at its third
    /// corner is mended. The live nodes that are left at the two positions
    /// are linked into one ring at the first position. Returns the first
    /// live node of that ring, or `-1` where no live node is left there.
    ///
    /// Where a map from positions to nodes is given, it is kept up to date:
    /// the first position points at the node returned, the second is
    /// forgotten, and each position opposite the edge points at a live node
    /// that is still there, or is forgotten where there is none.
    pub fn collapse_edge_to_a(
        &mut self,
        node_index_a: i32,
        node_index_b: i32,
        position_to_node: &mut Option<HashMap<i32, i32>>,
    ) -> (survivor: i32)
        requires
            old(self).wf(),
            old(self).is_nondegenerate(),
            is_live(old(self).nodes@, node_index_a as int),
            is_live(old(self).nodes@, node_index_b as int),
            old(self).nodes@[node_index_a as int].position != old(self).nodes@[node_index_b as int].position,
        ensures
            final(self).wf(),
            final(self).is_nondegenerate(),
            final(self).positions == old(self).positions,
            final(self).face_count <= old(self).face_count,
            final(self).face_count < old(self).face_count <==> has_face(
                old(self).nodes@,
                old(self).nodes@[node_index_a as int].position as int,
                old(self).nodes@[node_index_b as int].position as int,
            ),
            collapsed(
                old(self).nodes@,
                final(self).nodes@,
                old(self).nodes@[node_index_a as int].position as int,
                old(self).nodes@[node_index_b as int].position as int,
            ),
            decimated(old(self).nodes@, final(self).nodes@),
            forall|n: int|
                is_live(final(self).nodes@, n) ==> (#[trigger] final(self).nodes@[n]).position
                    != old(self).nodes@[node_index_b as int].position,
            survivor == first_live(
                final(self).nodes@,
                ring_from(old(self).nodes@, node_index_a as int) + ring_from(
                    old(self).nodes@,
                    node_index_b as int,
                ),
            ),
            survivor != -1 ==> ring_from(final(self).nodes@, survivor as int) == live_members(
                final(self).nodes@,
                ring_from(old(self).nodes@, node_index_a as int) + ring_from(
                    old(self).nodes@,
                    node_index_b as int,
                ),
            ),
            rings_kept(
                old(self).nodes@,
                final(self).nodes@,
                old(self).nodes@[node_index_a as int].position as int,
                old(self).nodes@[node_index_b as int].position as int,
            ),
            survivor == -1 <==> forall|n: int|
                is_live(final(self).nodes@, n) ==> (#[trigger] final(self).nodes@[n]).position
                    != old(self).nodes@[node_index_a as int].position,
            survivor != -1 ==> is_live(final(self).nodes@, survivor as int),
            survivor != -1 ==> final(self).nodes@[survivor as int].position == old(
                self,
            ).nodes@[node_index_a as int].position,
            match *old(position_to_node) {
                Some(before) => {
                    &&& *final(position_to_node) matches Some(after)
                    &&& map_updated(
                        before@,
                        after@,
                        old(self).nodes@,
                        final(self).nodes@,
                        old(self).nodes@[node_index_a as int].position as int,
                        old(self).nodes@[node_index_b as int].position as int,
                        survivor,
                    )
                    &&& registered(before@, old(self).nodes@) ==> registered(
                        after@,
                        final(self).nodes@,
                    )
                },
                None => *final(position_to_node) is None,
            },
    {
        let pos_a = self.nodes[node_index_a as usize].position;
        let pos_b = self.nodes[node_index_b as usize].position;
        let ghost origin = self.nodes@;
        let ghost count = self.positions@.len() as int;
        let ghost a = pos_a as int;
        let ghost b = pos_b as int;
        let ghost ring_a: Seq<int>;
        let ghost ring_b: Seq<int>;
        let ghost mapping = *position_to_node is Some;
        let ghost first_map = map_of(*position_to_node);
        proof {
            assert forall|p: i32| !met(origin, Seq::<int>::empty(), p as int, a, b) by {
                if met(origin, Seq::<int>::empty(), p as int, a, b) {
                    let m = choose|m: int| #[trigger]
                        straddles(origin, m, a, b) && visited(origin, Seq::<int>::empty(), m)
                            && origin[m].position == p as int;
                    assert(!visited(origin, Seq::<int>::empty(), m));
                }
            }
            assert forall|p: i32| #[trigger]
                entry_step(first_map, first_map, origin, origin, Seq::<int>::empty(), a, b, p) by {
                assert(!met(origin, Seq::<int>::empty(), p as int, a, b));
            }
            lemma_order_start(origin, count, a, b);
            assert(node_wf(origin, count, node_index_a as int));
            assert(node_wf(origin, count, node_index_b as int));
            ring_a = lemma_fan_from(origin, node_index_a as int);
            ring_b = lemma_fan_from(origin, node_index_b as int);
            lemma_ring_from(origin, ring_a);
            lemma_ring_from(origin, ring_b);
            assert(ring_a.subrange(0, 0) =~= Seq::<int>::empty());
            assert forall|n: int| 0 <= n < origin.len() implies !visited(
                origin,
                Seq::<int>::empty(),
                n,
            ) by {}
            assert forall|n: int| is_live(origin, n) implies #[trigger] has_fan(
                origin,
                origin[n].position as int,
            ) by {
                assert(node_wf(origin, count, n));
            }
        }
        let mut sibling_of_a: i32 = node_index_a;
        let ghost mut i: int = 0;
        loop
            invariant_except_break
                0 <= i < ring_a.len(),
                sibling_of_a == ring_a[i],
                marks(origin, self.nodes@, ring_a.subrange(0, i), a, b),
                mapping ==> map_step(
                    first_map,
                    map_of(*position_to_node),
                    origin,
                    self.nodes@,
                    ring_a.subrange(0, i),
                    a,
                    b,
                ),
            invariant
                (*position_to_node is Some) == mapping,
                frame(origin, count, ring_a, ring_b, a, b),
                ring_a[0] == node_index_a,
                a == pos_a,
                b == pos_b,
                fans(self.nodes@, a, b),
                ordered(origin, self.nodes@, a, b),
                3 * self.face_count == live_count(self.nodes@),
                self.face_count <= old(self).face_count,
                self.positions == old(self).positions,
            ensures
                marks(origin, self.nodes@, ring_a, a, b),
                mapping ==> map_step(
                    first_map,
                    map_of(*position_to_node),
                    origin,
                    self.nodes@,
                    ring_a,
                    a,
                    b,
                ),
            decreases ring_a.len() - i,
        {
            let ghost seen = ring_a.subrange(0, i);
            let ghost now = self.nodes@;
            let ghost map = map_of(*position_to_node);
            let ghost s = sibling_of_a as int;
            let ghost s1 = next_corner(origin, s);
            let ghost s2 = next_corner(origin, s1);
            proof {
                assert(!origin[ring_a[i]].is_removed);
                lemma_unvisited(origin, count, ring_a, i, a);
                lemma_triangle(origin, count, s);
                lemma_in_triangle(origin, count, s, s1);
                lemma_in_triangle(origin, count, s, s2);
                assert(has_distinct_corners(origin, s));
                assert(!visited(origin, seen, s1) && !visited(origin, seen, s2)) by {
                    assert forall|x: int| seen.contains(x) implies x != s && x != s1 && x
                        != s2 by {
                        let k = choose|k: int| 0 <= k < seen.len() && seen[k] == x;
                        assert(seen[k] == ring_a[k]);
                        assert(origin[ring_a[k]].position == a);
                    }
                }
                assert(now[s] == origin[s]) by {
                    assert(now[s].sibling == origin[s].sibling);
                }
                assert(!now[s1].is_removed && !now[s2].is_removed);
                assert(origin[ring_a[i]].position == a);
            }
            let node = self.nodes[sibling_of_a as usize];
            let corner_1 = node.relative;
            let node_1 = self.nodes[corner_1 as usize];
            let corner_2 = node_1.relative;
            let node_2 = self.nodes[corner_2 as usize];
            if node_1.position == pos_b || node_2.position == pos_b {
                let (node_index_c, pos_c) = if node_1.position == pos_b {
                    (corner_2, node_2.position)
                } else {
                    (corner_1, node_1.position)
                };
                let mut dead = node;
                dead.is_removed = true;
                self.nodes.set(sibling_of_a as usize, dead);
                let mut dead_1 = node_1;
                dead_1.is_removed = true;
                self.nodes.set(corner_1 as usize, dead_1);
                let mut dead_2 = node_2;
                dead_2.is_removed = true;
                self.nodes.set(corner_2 as usize, dead_2);
                let ghost marked = self.nodes@;
                let ghost c = node_index_c as int;
                let ghost ring_c: Seq<int>;
                proof {
                    assert(straddles(origin, s, a, b));
                    assert(marked_from(origin, now, marked, s));
                    lemma_mark(origin, count, now, marked, seen, s, a, b);
                    let m1 = now.update(s, dead);
                    let m2 = m1.update(s1, dead_1);
                    lemma_live_count_update(now, s, dead);
                    lemma_live_count_update(m1, s1, dead_1);
                    lemma_live_count_update(m2, s2, dead_2);
                    assert(live_count(marked) + 3 == live_count(now));
                    assert(is_live(now, c) && now[c].position != a && now[c].position != b);
                    assert(has_fan(now, now[c].position as int));
                    ring_c = lemma_fan_from(now, c);
                    assert(is_ring(marked, ring_c)) by {
                        lemma_ring_kept(now, marked, ring_c);
                    }
                    lemma_ring_from(marked, ring_c);
                }
                let valid_node_at_c = self.reconnect_sibling(node_index_c);
                proof {
                    lemma_repair(
                        origin,
                        count,
                        now,
                        marked,
                        self.nodes@,
                        seen,
                        s,
                        c,
                        ring_c,
                        valid_node_at_c,
                        a,
                        b,
                    );
                    lemma_repair_order(
                        origin,
                        count,
                        now,
                        marked,
                        self.nodes@,
                        seen,
                        s,
                        c,
                        ring_c,
                        valid_node_at_c,
                        a,
                        b,
                    );
                }
                proof {
                    if mapping {
                        lemma_map_step(
                            first_map,
                            map,
                            origin,
                            count,
                            now,
                            self.nodes@,
                            seen,
                            s,
                            c,
                            valid_node_at_c,
                            a,
                            b,
                        );
                    }
                }
                point_at(position_to_node, pos_c, valid_node_at_c);
                self.face_count = self.face_count - 1;
            } else {
                proof {
                    lemma_skip(origin, count, now, seen, s, a, b);
                    if mapping {
                        lemma_map_skip(first_map, map, origin, count, now, seen, s, a, b);
                    }
                }
            }
            let next = node.sibling;
            proof {
                assert(seen.push(s) =~= ring_a.subrange(0, i + 1));
                i = i + 1;
                if i < ring_a.len() {
                    assert(ring_a[i] != ring_a[0]);
                    assert(next == ring_a[i]);
                } else {
                    assert(ring_a.subrange(0, i) =~= ring_a);
                }
            }
            if next == node_index_a {
                break ;
            }
            sibling_of_a = next;
        }
        let ghost now = self.nodes@;
        let ghost map = map_of(*position_to_node);
        proof {
            lemma_ring_kept(origin, now, ring_a);
            lemma_ring_kept(origin, now, ring_b);
            lemma_ring_from(now, ring_a);
            lemma_ring_from(now, ring_b);
            assert(disjoint(ring_a, ring_b)) by {
                assert forall|i: int, j: int|
                    0 <= i < ring_a.len() && 0 <= j < ring_b.len() implies ring_a[i]
                    != ring_b[j] by {
                    assert(origin[ring_a[i]].position == a);
                    assert(origin[ring_b[j]].position == b);
                }
            }
        }
        let valid_node_at_a = self.reconnect_siblings(node_index_a, node_index_b, pos_a);
        proof {
            let fin = self.nodes@;
            lemma_finish_nodes(origin, count, now, fin, ring_a, ring_b, a, b, valid_node_at_a);
            lemma_finish_connected(origin, count, now, fin, ring_a, ring_b, a, b, valid_node_at_a);
            lemma_finish_order(origin, count, now, fin, ring_a, ring_b, a, b, valid_node_at_a);
            crate::ring::lemma_live_members_flags(now, fin, ring_a + ring_b);
            assert forall|n: int| is_live(fin, n) implies (#[trigger] fin[n]).position != b by {
                assert(fin[n] == collapsed_node(origin, n, a, b, fin[n].sibling));
            }
            assert forall|n: int| 0 <= n < origin.len() implies (#[trigger] fin[n]).relative
                == origin[n].relative && fin[n].attribute == origin[n].attribute && (
            origin[n].is_removed ==> fin[n] == origin[n]) by {
                assert(fin[n] == collapsed_node(origin, n, a, b, fin[n].sibling));
            }
            assert forall|n: int| 0 <= n < origin.len() implies (#[trigger] fin[n]).is_removed == (
            origin[n].is_removed || straddles(origin, n, a, b)) by {
                assert(fin[n] == collapsed_node(origin, n, a, b, fin[n].sibling));
            }
            crate::connected_mesh::lemma_live_count_removed(origin, fin);
            if has_face(origin, a, b) {
                let n = choose|n: int| #[trigger] straddles(origin, n, a, b);
                assert(!origin[n].is_removed && fin[n].is_removed);
            } else {
                assert forall|n: int| 0 <= n < origin.len() implies origin[n].is_removed
                    == fin[n].is_removed by {
                    assert(fin[n].is_removed == (origin[n].is_removed || straddles(
                        origin,
                        n,
                        a,
                        b,
                    )));
                }
                crate::connected_mesh::lemma_live_count_flags(origin, fin);
            }
            if mapping {
                lemma_map_finish(
                    first_map,
                    map,
                    origin,
                    count,
                    now,
                    fin,
                    ring_a,
                    a,
                    b,
                    valid_node_at_a,
                );
            }
        }
        point_at(position_to_node, pos_a, valid_node_at_a);
        point_at(position_to_node, pos_b, -1);
        valid_node_at_a
    }
}

} // verus!
