//! Conversion between an indexed mesh and its connectivity graph.

use crate::connected_mesh::{
    connected, is_fan, is_triangle, live_count, next_corner, node_wf, nondegenerate,
    has_distinct_corners, ConnectedMesh,
};
use crate::node::{Group, Node};
use crate::ring::is_live;
use vstd::prelude::*;

verus! {

/// A mesh as a list of positions and a flat list of triangle corners, three
/// position indices for each triangle.
pub struct SharedMesh<P> {
    pub positions: Vec<P>,
    pub triangles: Vec<i32>,
    pub groups: Vec<Group>,
}

/// `triangles` lists whole triangles whose corners index into `count`
/// positions.
pub open spec fn indexes(triangles: Seq<i32>, count: int) -> bool {
    &&& triangles.len() % 3 == 0
    &&& triangles.len() <= i32::MAX
    &&& forall|i: int| 0 <= i < triangles.len() ==> 0 <= #[trigger] triangles[i] < count
}

/// The index of the corner that follows corner `i` in its triangle, where
/// the corners of each triangle stand side by side.
pub open spec fn following(i: int) -> int {
    if i % 3 == 2 {
        i - 2
    } else {
        i + 1
    }
}

/// The node that corner `i` of `triangles` is built into, but for its
/// `sibling`.
pub open spec fn corner_node(triangles: Seq<i32>, i: int, sibling: i32) -> Node {
    Node {
        sibling,
        relative: following(i) as i32,
        position: triangles[i],
        attribute: triangles[i],
        is_removed: false,
    }
}

/// The nodes are those of `triangles`, corner by corner.
pub open spec fn built_from(nodes: Seq<Node>, triangles: Seq<i32>) -> bool {
    &&& nodes.len() == triangles.len()
    &&& forall|i: int|
        0 <= i < nodes.len() ==> #[trigger] nodes[i] == corner_node(triangles, i, nodes[i].sibling)
}

/// No triangle of `triangles` names one position twice.
pub open spec fn distinct_corners(triangles: Seq<i32>) -> bool {
    forall|i: int|
        0 <= i < triangles.len() ==> #[trigger] triangles[i] != triangles[following(i)]
}

/// The nodes met so far at one position, newest first: each is linked to the
/// one met before it, and the oldest is not linked yet.
spec fn chain_open(nodes: Seq<Node>, chain: Seq<int>, first: i32, last: i32, position: int) -> bool {
    if chain.len() == 0 {
        first == -1 && last == -1
    } else {
        &&& first == chain.last()
        &&& last == chain[0]
        &&& forall|j: int|
            0 <= j < chain.len() ==> 0 <= #[trigger] chain[j] < nodes.len()
                && nodes[chain[j]].position == position
        &&& forall|j: int|
            0 <= j < chain.len() - 1 ==> nodes[#[trigger] chain[j]].sibling == chain[j + 1]
        &&& forall|j: int, k: int| 0 <= j < k < chain.len() ==> chain[j] > chain[k]
    }
}

/// Every node met so far is on the chain of its position.
spec fn chains_hold(nodes: Seq<Node>, chains: Seq<Seq<int>>) -> bool {
    forall|n: int|
        0 <= n < nodes.len() ==> 0 <= (#[trigger] nodes[n]).position < chains.len()
            && chains[nodes[n].position as int].contains(n)
}

proof fn lemma_all_live(nodes: Seq<Node>)
    requires
        forall|n: int| 0 <= n < nodes.len() ==> !(#[trigger] nodes[n]).is_removed,
    ensures
        live_count(nodes) == nodes.len(),
    decreases nodes.len(),
{
    if nodes.len() > 0 {
        assert forall|n: int| 0 <= n < nodes.drop_last().len() implies !(
        #[trigger] nodes.drop_last()[n]).is_removed by {
            assert(nodes.drop_last()[n] == nodes[n]);
        }
        lemma_all_live(nodes.drop_last());
    }
}

proof fn lemma_built_triangles(nodes: Seq<Node>, triangles: Seq<i32>, n: int)
    requires
        built_from(nodes, triangles),
        triangles.len() % 3 == 0,
        triangles.len() <= i32::MAX,
        0 <= n < nodes.len(),
    ensures
        is_triangle(nodes, n),
        next_corner(nodes, n) == following(n),
        next_corner(nodes, following(n)) == following(following(n)),
        0 <= following(n) < nodes.len(),
        0 <= following(following(n)) < nodes.len(),
{
    let b = following(n);
    let c = following(b);
    assert(0 <= b < nodes.len() && 0 <= c < nodes.len() && following(c) == n && b != n && c != n
        && b != c) by {
        assert(n % 3 == 0 || n % 3 == 1 || n % 3 == 2);
    }
    assert(nodes[n] == corner_node(triangles, n, nodes[n].sibling));
    assert(nodes[b] == corner_node(triangles, b, nodes[b].sibling));
    assert(nodes[c] == corner_node(triangles, c, nodes[c].sibling));
}

impl<P: Clone> SharedMesh<P> {
    /// The triangle list is made of whole triangles whose corners index into
    /// the positions.
    pub open spec fn wf(&self) -> bool {
        indexes(self.triangles@, self.positions@.len() as int)
    }

    /// Says whether the triangle list is made of whole triangles whose
    /// corners index into the positions.
    pub fn is_well_formed(&self) -> (ok: bool)
        ensures
            ok == self.wf(),
    {
        let len = self.triangles.len();
        if len % 3 != 0 || len > 2147483647 {
            return false;
        }
        let count = self.positions.len();
        let mut i: usize = 0;
        while i < len
            invariant
                len == self.triangles@.len(),
                count == self.positions@.len(),
                0 <= i <= len,
                forall|k: int| 0 <= k < i ==> 0 <= #[trigger] self.triangles@[k] < count,
            decreases len - i,
        {
            let t = self.triangles[i];
            if t < 0 || t as usize >= count {
                return false;
            }
            i = i + 1;
        }
        true
    }

    /// Builds the connectivity graph: three nodes side by side for each
    /// triangle, in the order of the triangle list, each at the position that
    /// the list names and linked to the next corner of its triangle; the
    /// nodes of each position are linked into one ring. The positions are
    /// copied, and the mesh built from is left as it is.
    pub fn to_connected(&self) -> (mesh: ConnectedMesh<P>)
        requires
            self.wf(),
        ensures
            mesh.wf(),
            built_from(mesh.nodes@, self.triangles@),
            mesh.face_count == self.triangles@.len() / 3,
            mesh.positions@.len() == self.positions@.len(),
            forall|i: int|
                0 <= i < self.positions@.len() ==> cloned(
                    #[trigger] self.positions@[i],
                    mesh.positions@[i],
                ),
            mesh.is_nondegenerate() <==> distinct_corners(self.triangles@),
    {
        let triangles = &self.triangles;
        let len = triangles.len();
        let count = self.positions.len();
        let mut first: Vec<i32> = Vec::new();
        let mut last: Vec<i32> = Vec::new();
        let mut p: usize = 0;
        while p < count
            invariant
                0 <= p <= count,
                first@.len() == p,
                last@.len() == p,
                forall|q: int| 0 <= q < p ==> first@[q] == -1 && last@[q] == -1,
            decreases count - p,
        {
            first.push(-1);
            last.push(-1);
            p = p + 1;
        }
        let mut nodes: Vec<Node> = Vec::new();
        let ghost mut chains: Seq<Seq<int>> = Seq::new(count as nat, |q: int| Seq::<int>::empty());
        let mut i: usize = 0;
        while i < len
            invariant
                len == triangles@.len(),
                count == self.positions@.len(),
                indexes(triangles@, count as int),
                0 <= i <= len,
                nodes@.len() == i,
                first@.len() == count,
                last@.len() == count,
                chains.len() == count,
                built_from(nodes@, triangles@.subrange(0, i as int)),
                chains_hold(nodes@, chains),
                forall|q: int|
                    0 <= q < count ==> #[trigger] chain_open(
                        nodes@,
                        chains[q],
                        first@[q],
                        last@[q],
                        q,
                    ),
            decreases len - i,
        {
            let position = triangles[i];
            let at = position as usize;
            let ghost before = nodes@;
            let ghost chain = chains[at as int];
            proof {
                assert(chain_open(before, chain, first@[at as int], last@[at as int], at as int));
            }
            let relative = if i % 3 == 2 {
                (i - 2) as i32
            } else {
                (i + 1) as i32
            };
            let sibling = if first[at] == -1 {
                first.set(at, i as i32);
                i as i32
            } else {
                last[at]
            };
            last.set(at, i as i32);
            nodes.push(Node { sibling, relative, position, attribute: position, is_removed: false });
            proof {
                let longer = seq![i as int] + chain;
                chains = chains.update(at as int, longer);
                assert forall|k: int| 0 <= k < nodes@.len() implies #[trigger] nodes@[k]
                    == corner_node(triangles@.subrange(0, i + 1), k, nodes@[k].sibling) by {
                    if k < i {
                        assert(before[k] == corner_node(
                            triangles@.subrange(0, i as int),
                            k,
                            before[k].sibling,
                        ));
                    }
                }
                assert forall|n: int| 0 <= n < nodes@.len() implies 0 <= (
                #[trigger] nodes@[n]).position < chains.len() && chains[nodes@[n].position as int].contains(
                    n,
                ) by {
                    if n < i {
                        assert(before[n] == nodes@[n]);
                        let at_n = before[n].position as int;
                        assert(chains_hold(before, chains.update(at as int, chain)));
                        if at_n == at {
                            let j = choose|j: int| 0 <= j < chain.len() && chain[j] == n;
                            assert(longer[j + 1] == n);
                        }
                    } else {
                        assert(longer[0] == n);
                    }
                }
                assert forall|q: int| 0 <= q < count implies #[trigger] chain_open(
                    nodes@,
                    chains[q],
                    first@[q],
                    last@[q],
                    q,
                ) by {
                    if q == at {
                        assert forall|j: int| 0 <= j < longer.len() implies 0 <= #[trigger] longer[j]
                            < nodes@.len() && nodes@[longer[j]].position == q by {
                            if j > 0 {
                                assert(longer[j] == chain[j - 1]);
                            }
                        }
                        assert forall|j: int| 0 <= j < longer.len() - 1 implies nodes@[#[trigger] longer[j]].sibling
                            == longer[j + 1] by {
                            if j > 0 {
                                assert(longer[j] == chain[j - 1]);
                                assert(longer[j + 1] == chain[j]);
                            } else {
                                assert(longer[1] == chain[0]);
                            }
                        }
                        assert forall|j: int, k: int| 0 <= j < k < longer.len() implies longer[j]
                            > longer[k] by {
                            assert(longer[k] == chain[k - 1]);
                            if j > 0 {
                                assert(longer[j] == chain[j - 1]);
                            }
                        }
                        if chain.len() > 0 {
                            assert(longer.last() == chain.last());
                        }
                    } else {
                        let other = chains[q];
                        assert(chain_open(before, other, first@[q], last@[q], q));
                        if other.len() > 0 {
                            assert forall|j: int| 0 <= j < other.len() implies 0 <= #[trigger] other[j]
                                < nodes@.len() && nodes@[other[j]].position == q by {
                                assert(before[other[j]] == nodes@[other[j]]);
                            }
                            assert forall|j: int| 0 <= j < other.len() - 1 implies nodes@[#[trigger] other[j]].sibling
                                == other[j + 1] by {
                                assert(before[other[j]] == nodes@[other[j]]);
                            }
                        }
                    }
                }
            }
            i = i + 1;
        }
        proof {
            assert(triangles@.subrange(0, len as int) =~= triangles@);
        }
        let mut q: usize = 0;
        while q < count
            invariant
                len == triangles@.len(),
                count == self.positions@.len(),
                indexes(triangles@, count as int),
                nodes@.len() == len,
                first@.len() == count,
                last@.len() == count,
                chains.len() == count,
                0 <= q <= count,
                built_from(nodes@, triangles@),
                chains_hold(nodes@, chains),
                forall|r: int|
                    q <= r < count ==> #[trigger] chain_open(
                        nodes@,
                        chains[r],
                        first@[r],
                        last@[r],
                        r,
                    ),
                forall|r: int|
                    0 <= r < q && chains[r].len() > 0 ==> #[trigger] is_fan(nodes@, chains[r], r),
            decreases count - q,
        {
            let ghost before = nodes@;
            let ghost chain = chains[q as int];
            proof {
                assert(chain_open(before, chain, first@[q as int], last@[q as int], q as int));
            }
            if first[q] != -1 {
                proof {
                    assert(0 <= chain[chain.len() - 1] < before.len());
                    assert(0 <= chain[0] < before.len());
                }
                let mut oldest = nodes[first[q] as usize];
                oldest.sibling = last[q];
                nodes.set(first[q] as usize, oldest);
                proof {
                    assert forall|k: int| 0 <= k < nodes@.len() implies #[trigger] nodes@[k]
                        == corner_node(triangles@, k, nodes@[k].sibling) by {
                        assert(before[k] == corner_node(triangles@, k, before[k].sibling));
                    }
                    assert(is_fan(nodes@, chain, q as int)) by {
                        assert forall|j: int| 0 <= j < chain.len() - 1 implies nodes@[#[trigger] chain[j]].sibling
                            == chain[j + 1] by {
                            assert(chain[j] > chain[chain.len() - 1]);
                        }
                        assert forall|j: int| 0 <= j < chain.len() implies !nodes@[#[trigger] chain[j]].is_removed
                            && nodes@[chain[j]].position == q by {
                            assert(nodes@[chain[j]] == corner_node(
                                triangles@,
                                chain[j],
                                nodes@[chain[j]].sibling,
                            ));
                            assert(before[chain[j]].position == q);
                        }
                        assert forall|n: int|
                            is_live(nodes@, n) && nodes@[n].position == q implies #[trigger] chain.contains(
                            n,
                        ) by {
                            assert(before[n].position == nodes@[n].position);
                        }
                    }
                }
            }
            proof {
                assert forall|n: int| 0 <= n < nodes@.len() implies 0 <= (
                #[trigger] nodes@[n]).position < chains.len() && chains[nodes@[n].position as int].contains(
                    n,
                ) by {
                    assert(before[n].position == nodes@[n].position);
                }
                assert forall|r: int| q < r < count implies #[trigger] chain_open(
                    nodes@,
                    chains[r],
                    first@[r],
                    last@[r],
                    r,
                ) by {
                    let other = chains[r];
                    assert(chain_open(before, other, first@[r], last@[r], r));
                    if other.len() > 0 {
                        assert forall|j: int| 0 <= j < other.len() implies 0 <= #[trigger] other[j]
                            < nodes@.len() && nodes@[other[j]].position == r by {
                            assert(before[other[j]].position == r);
                        }
                        assert forall|j: int| 0 <= j < other.len() - 1 implies nodes@[#[trigger] other[j]].sibling
                            == other[j + 1] by {
                            assert(before[other[j]].position == r);
                            assert(before[other[j]] == nodes@[other[j]]);
                        }
                    }
                }
                assert forall|r: int| 0 <= r < q && chains[r].len() > 0 implies #[trigger] is_fan(
                    nodes@,
                    chains[r],
                    r,
                ) by {
                    let other = chains[r];
                    assert(is_fan(before, other, r));
                    assert forall|j: int| 0 <= j < other.len() implies nodes@[#[trigger] other[j]]
                        == before[other[j]] by {
                        assert(before[other[j]].position == r);
                    }
                    assert forall|n: int|
                        is_live(nodes@, n) && nodes@[n].position == r implies #[trigger] other.contains(
                        n,
                    ) by {
                        assert(before[n].position == nodes@[n].position);
                        assert(is_live(before, n));
                    }
                }
            }
            q = q + 1;
        }
        let face_count = (len / 3) as u32;
        let mesh = ConnectedMesh { nodes, face_count, positions: self.positions.clone() };
        proof {
            assert forall|n: int| is_live(mesh.nodes@, n) implies #[trigger] node_wf(
                mesh.nodes@,
                count as int,
                n,
            ) by {
                lemma_built_triangles(mesh.nodes@, triangles@, n);
                let at = mesh.nodes@[n].position as int;
                assert(chains[at].contains(n));
                assert(is_fan(mesh.nodes@, chains[at], at));
            }
            assert forall|n: int| 0 <= n < mesh.nodes@.len() implies !(
            #[trigger] mesh.nodes@[n]).is_removed by {
                assert(mesh.nodes@[n] == corner_node(triangles@, n, mesh.nodes@[n].sibling));
            }
            lemma_all_live(mesh.nodes@);
            if distinct_corners(triangles@) {
                assert forall|n: int| is_live(mesh.nodes@, n) implies #[trigger] has_distinct_corners(
                    mesh.nodes@,
                    n,
                ) by {
                    lemma_built_triangles(mesh.nodes@, triangles@, n);
                    let b = following(n);
                    let c = following(b);
                    assert(mesh.nodes@[n] == corner_node(triangles@, n, mesh.nodes@[n].sibling));
                    assert(mesh.nodes@[b] == corner_node(triangles@, b, mesh.nodes@[b].sibling));
                    assert(mesh.nodes@[c] == corner_node(triangles@, c, mesh.nodes@[c].sibling));
                    assert(triangles@[n] != triangles@[following(n)]);
                    assert(triangles@[b] != triangles@[following(b)]);
                    assert(triangles@[c] != triangles@[following(c)]);
                }
            }
            if nondegenerate(mesh.nodes@) {
                assert forall|i: int| 0 <= i < triangles@.len() implies #[trigger] triangles@[i]
                    != triangles@[following(i)] by {
                    lemma_built_triangles(mesh.nodes@, triangles@, i);
                    let b = following(i);
                    assert(mesh.nodes@[i] == corner_node(triangles@, i, mesh.nodes@[i].sibling));
                    assert(mesh.nodes@[b] == corner_node(triangles@, b, mesh.nodes@[b].sibling));
                    assert(is_live(mesh.nodes@, i));
                    assert(has_distinct_corners(mesh.nodes@, i));
                }
            }
        }
        mesh
    }
}

/// `n` is live and comes before the other two corners of its triangle: each
/// live triangle has one such corner.
pub open spec fn leads(nodes: Seq<Node>, n: int) -> bool {
    let b = next_corner(nodes, n);
    let c = next_corner(nodes, b);
    is_live(nodes, n) && n < b && n < c
}

/// The positions of the three corners of the triangle of `n`, that of `n`
/// first, then in the order of the triangle.
pub open spec fn face_of(nodes: Seq<Node>, n: int) -> Seq<i32> {
    let b = next_corner(nodes, n);
    let c = next_corner(nodes, b);
    seq![nodes[n].position, nodes[b].position, nodes[c].position]
}

/// The faces of the live triangles whose first corner is among the first
/// `upto` nodes, in the order of these corners.
pub open spec fn faces_upto(nodes: Seq<Node>, upto: int) -> Seq<i32>
    decreases upto,
{
    if upto <= 0 {
        Seq::empty()
    } else if leads(nodes, upto - 1) {
        faces_upto(nodes, upto - 1) + face_of(nodes, upto - 1)
    } else {
        faces_upto(nodes, upto - 1)
    }
}

/// What was built from a triangle list gives that list back.
pub proof fn lemma_round_trip(nodes: Seq<Node>, triangles: Seq<i32>)
    requires
        built_from(nodes, triangles),
        triangles.len() % 3 == 0,
        triangles.len() <= i32::MAX,
    ensures
        faces_upto(nodes, nodes.len() as int) == triangles,
{
    lemma_round_trip_upto(nodes, triangles, nodes.len() as int);
    assert(triangles.subrange(0, nodes.len() as int) =~= triangles);
}

proof fn lemma_round_trip_upto(nodes: Seq<Node>, triangles: Seq<i32>, upto: int)
    requires
        built_from(nodes, triangles),
        triangles.len() % 3 == 0,
        triangles.len() <= i32::MAX,
        0 <= upto <= nodes.len(),
        upto % 3 == 0,
    ensures
        faces_upto(nodes, upto) == triangles.subrange(0, upto),
    decreases upto,
{
    if upto == 0 {
        assert(triangles.subrange(0, 0) =~= Seq::<i32>::empty());
    } else {
        let n = upto - 3;
        lemma_round_trip_upto(nodes, triangles, n);
        lemma_built_triangles(nodes, triangles, n);
        lemma_built_triangles(nodes, triangles, n + 1);
        lemma_built_triangles(nodes, triangles, n + 2);
        assert(nodes[n] == corner_node(triangles, n, nodes[n].sibling));
        assert(nodes[n + 1] == corner_node(triangles, n + 1, nodes[n + 1].sibling));
        assert(nodes[n + 2] == corner_node(triangles, n + 2, nodes[n + 2].sibling));
        assert(leads(nodes, n));
        assert(!leads(nodes, n + 1));
        assert(!leads(nodes, n + 2));
        reveal_with_fuel(faces_upto, 4);
        assert(faces_upto(nodes, upto) == faces_upto(nodes, n) + face_of(nodes, n));
        assert(faces_upto(nodes, n) + face_of(nodes, n) =~= triangles.subrange(0, upto));
    }
}

/// The first of the three corners of the triangle of `n` in the node array.
spec fn leader(nodes: Seq<Node>, n: int) -> int {
    let b = next_corner(nodes, n);
    let c = next_corner(nodes, b);
    if n < b && n < c {
        n
    } else if b < c {
        b
    } else {
        c
    }
}

/// The live nodes whose triangle has its first corner among the first `upto`
/// nodes.
spec fn covered(nodes: Seq<Node>, upto: int) -> Set<int> {
    Set::new(|n: int| is_live(nodes, n) && leader(nodes, n) < upto)
}

proof fn lemma_leader(nodes: Seq<Node>, count: int, n: int)
    requires
        connected(nodes, count),
        is_live(nodes, n),
    ensures
        leads(nodes, leader(nodes, n)),
        leader(nodes, leader(nodes, n)) == leader(nodes, n),
        leader(nodes, next_corner(nodes, n)) == leader(nodes, n),
        leader(nodes, n) <= n,
        leads(nodes, n) <==> leader(nodes, n) == n,
        n == leader(nodes, n) || n == next_corner(nodes, leader(nodes, n)) || n == next_corner(
            nodes,
            next_corner(nodes, leader(nodes, n)),
        ),
{
    let b = next_corner(nodes, n);
    let c = next_corner(nodes, b);
    assert(node_wf(nodes, count, n));
    assert(node_wf(nodes, count, b));
    assert(node_wf(nodes, count, c));
}

proof fn lemma_covered_step(nodes: Seq<Node>, count: int, upto: int)
    requires
        connected(nodes, count),
        0 <= upto < nodes.len(),
    ensures
        covered(nodes, upto).finite(),
        covered(nodes, upto + 1).finite(),
        covered(nodes, upto + 1).len() == covered(nodes, upto).len() + (if leads(nodes, upto) {
            3nat
        } else {
            0nat
        }),
{
    let all = vstd::set_lib::set_int_range(0, nodes.len() as int);
    vstd::set_lib::lemma_int_range(0, nodes.len() as int);
    let before = covered(nodes, upto);
    let after = covered(nodes, upto + 1);
    assert(before.subset_of(all));
    assert(after.subset_of(all));
    vstd::set_lib::lemma_len_subset(before, all);
    vstd::set_lib::lemma_len_subset(after, all);
    if leads(nodes, upto) {
        let b = next_corner(nodes, upto);
        let c = next_corner(nodes, b);
        assert(node_wf(nodes, count, upto));
        lemma_leader(nodes, count, upto);
        lemma_leader(nodes, count, b);
        lemma_leader(nodes, count, c);
        assert(after =~= before.insert(upto).insert(b).insert(c)) by {
            assert forall|n: int| after.contains(n) <==> before.insert(upto).insert(b).insert(
                c,
            ).contains(n) by {
                if is_live(nodes, n) {
                    lemma_leader(nodes, count, n);
                }
            }
        }
    } else {
        assert(after =~= before) by {
            assert forall|n: int| after.contains(n) <==> before.contains(n) by {
                if is_live(nodes, n) {
                    lemma_leader(nodes, count, n);
                }
            }
        }
    }
}

proof fn lemma_faces_covered(nodes: Seq<Node>, count: int, upto: int)
    requires
        connected(nodes, count),
        0 <= upto <= nodes.len(),
    ensures
        faces_upto(nodes, upto).len() == covered(nodes, upto).len(),
        faces_upto(nodes, upto).len() % 3 == 0,
    decreases upto,
{
    if upto == 0 {
        assert(covered(nodes, 0) =~= Set::<int>::empty()) by {
            assert forall|n: int| !covered(nodes, 0).contains(n) by {
                if is_live(nodes, n) {
                    lemma_leader(nodes, count, n);
                    assert(leads(nodes, leader(nodes, n)));
                }
            }
        }
    } else {
        lemma_faces_covered(nodes, count, upto - 1);
        lemma_covered_step(nodes, count, upto - 1);
    }
}

proof fn lemma_live_set(nodes: Seq<Node>, upto: int)
    requires
        0 <= upto <= nodes.len(),
    ensures
        Set::new(|n: int| 0 <= n < upto && is_live(nodes, n)).finite(),
        Set::new(|n: int| 0 <= n < upto && is_live(nodes, n)).len() == live_count(
            nodes.subrange(0, upto),
        ),
    decreases upto,
{
    let live = Set::new(|n: int| 0 <= n < upto && is_live(nodes, n));
    if upto == 0 {
        assert(live =~= Set::<int>::empty());
        assert(nodes.subrange(0, 0) =~= Seq::<Node>::empty());
    } else {
        let fewer = Set::new(|n: int| 0 <= n < upto - 1 && is_live(nodes, n));
        lemma_live_set(nodes, upto - 1);
        assert(nodes.subrange(0, upto).drop_last() =~= nodes.subrange(0, upto - 1));
        if is_live(nodes, upto - 1) {
            assert(live =~= fewer.insert(upto - 1));
        } else {
            assert(live =~= fewer);
        }
    }
}

/// A well-formed mesh has three corners in its faces for each live node.
pub proof fn lemma_faces_count(nodes: Seq<Node>, count: int)
    requires
        connected(nodes, count),
    ensures
        faces_upto(nodes, nodes.len() as int).len() == live_count(nodes),
{
    let len = nodes.len() as int;
    lemma_faces_covered(nodes, count, len);
    lemma_live_set(nodes, len);
    assert(nodes.subrange(0, len) =~= nodes);
    assert(covered(nodes, len) =~= Set::new(|n: int| 0 <= n < len && is_live(nodes, n))) by {
        assert forall|n: int|
            covered(nodes, len).contains(n) <==> (0 <= n < len && is_live(nodes, n)) by {
            if is_live(nodes, n) {
                lemma_leader(nodes, count, n);
            }
        }
    }
}

proof fn lemma_faces_in_range(nodes: Seq<Node>, count: int, upto: int)
    requires
        connected(nodes, count),
        0 <= upto <= nodes.len(),
    ensures
        forall|i: int|
            0 <= i < faces_upto(nodes, upto).len() ==> 0 <= #[trigger] faces_upto(nodes, upto)[i]
                < count,
    decreases upto,
{
    if upto > 0 {
        lemma_faces_in_range(nodes, count, upto - 1);
        if leads(nodes, upto - 1) {
            let n = upto - 1;
            let b = next_corner(nodes, n);
            assert(node_wf(nodes, count, n));
            assert(node_wf(nodes, count, b));
            assert(node_wf(nodes, count, next_corner(nodes, b)));
            let before = faces_upto(nodes, n);
            let face = face_of(nodes, n);
            let whole = faces_upto(nodes, upto);
            assert(whole == before + face);
            assert forall|i: int| 0 <= i < whole.len() implies 0 <= #[trigger] whole[i]
                < count by {
                if i >= before.len() {
                    assert(whole[i] == face[i - before.len()]);
                    assert(face[0] == nodes[n].position);
                    assert(face[1] == nodes[b].position);
                    assert(face[2] == nodes[next_corner(nodes, b)].position);
                } else {
                    assert(whole[i] == before[i]);
                }
            }
        } else {
            assert(faces_upto(nodes, upto) == faces_upto(nodes, upto - 1));
        }
    }
}

impl<P: Clone> ConnectedMesh<P> {
    /// The mesh as a list of positions and a flat list of triangle corners:
    /// the positions are copied, and each live triangle is listed once, from
    /// the first of its corners in the node array and in the order of its
    /// corners, so that each face keeps the way it is wound.
    pub fn to_indexed(&self) -> (shared: SharedMesh<P>)
        requires
            self.wf(),
        ensures
            shared.triangles@ == faces_upto(self.nodes@, self.nodes@.len() as int),
            shared.triangles@.len() == 3 * self.face_count,
            shared.wf(),
            shared.positions@.len() == self.positions@.len(),
            forall|i: int|
                0 <= i < self.positions@.len() ==> cloned(
                    #[trigger] self.positions@[i],
                    shared.positions@[i],
                ),
            shared.groups@.len() == 0,
    {
        let len = self.nodes.len();
        let mut triangles: Vec<i32> = Vec::new();
        let mut i: usize = 0;
        while i < len
            invariant
                self.wf(),
                len == self.nodes@.len(),
                0 <= i <= len,
                triangles@ == faces_upto(self.nodes@, i as int),
            decreases len - i,
        {
            let node = self.nodes[i];
            if !node.is_removed {
                proof {
                    let count = self.positions@.len() as int;
                    assert(node_wf(self.nodes@, count, i as int));
                }
                let corner_1 = node.relative as usize;
                let node_1 = self.nodes[corner_1];
                let corner_2 = node_1.relative as usize;
                if i < corner_1 && i < corner_2 {
                    let node_2 = self.nodes[corner_2];
                    triangles.push(node.position);
                    triangles.push(node_1.position);
                    triangles.push(node_2.position);
                    proof {
                        assert(triangles@ =~= faces_upto(self.nodes@, i as int) + face_of(
                            self.nodes@,
                            i as int,
                        ));
                    }
                }
            }
            i = i + 1;
        }
        proof {
            let count = self.positions@.len() as int;
            lemma_faces_count(self.nodes@, count);
            lemma_faces_in_range(self.nodes@, count, len as int);
            crate::connected_mesh::lemma_live_count_bounded(self.nodes@);
        }
        SharedMesh { positions: self.positions.clone(), triangles, groups: Vec::new() }
    }
}

} // verus!
