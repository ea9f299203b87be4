//! Edges: unordered pairs of positions.

use vstd::prelude::*;
use vstd::std_specs::cmp::PartialEqSpecImpl;

verus! {

/// The edge between two positions. The order in which the two are given does
/// not matter: two edges that join the same positions are equal.
#[derive(Debug, Copy, Clone)]
pub struct Edge {
    pub pos_a: i32,
    pub pos_b: i32,
}

/// The two positions of an edge, smaller one first.
pub open spec fn ordered(pos_a: i32, pos_b: i32) -> (i32, i32) {
    if pos_a <= pos_b {
        (pos_a, pos_b)
    } else {
        (pos_b, pos_a)
    }
}

impl Edge {
    /// The edge between `pos_a` and `pos_b`.
    pub fn new(pos_a: i32, pos_b: i32) -> (edge: Edge)
        ensures
            edge.pos_a == pos_a,
            edge.pos_b == pos_b,
    {
        Edge { pos_a, pos_b }
    }

    /// The two positions of the edge, smaller one first.
    pub open spec fn spec_key(&self) -> (i32, i32) {
        ordered(self.pos_a, self.pos_b)
    }

    /// The two positions of the edge, smaller one first: the same for both
    /// ways of writing the edge.
    pub fn key(&self) -> (key: (i32, i32))
        ensures
            key == self.spec_key(),
            key.0 <= key.1,
    {
        if self.pos_a <= self.pos_b {
            (self.pos_a, self.pos_b)
        } else {
            (self.pos_b, self.pos_a)
        }
    }
}

impl PartialEq for Edge {
    fn eq(&self, other: &Edge) -> (same: bool) {
        let mine = self.key();
        let theirs = other.key();
        mine.0 == theirs.0 && mine.1 == theirs.1
    }
}

impl PartialEqSpecImpl for Edge {
    open spec fn obeys_eq_spec() -> bool {
        true
    }

    open spec fn eq_spec(&self, other: &Edge) -> bool {
        self.spec_key() == other.spec_key()
    }
}

} // verus!
