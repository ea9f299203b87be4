use vstd::prelude::*;

verus! {

/// One corner of one triangle.
///
/// `relative` is the index of the next corner of the same triangle, `sibling`
/// the index of the next node that claims the same position. A removed node
/// stays in place as a tombstone, so that the indices of all other nodes
/// remain stable.
#[derive(Debug, Copy, Clone)]
pub struct Node {
    /// The next node that claims the same position.
    pub sibling: i32,
    /// The next corner of the same triangle.
    pub relative: i32,
    /// The index of the position that the node is at.
    pub position: i32,
    /// The index of what else belongs to the corner, such as its normal.
    pub attribute: i32,
    /// The node is a tombstone.
    pub is_removed: bool,
}

impl Node {
    /// A live node at `position` with the given links.
    pub fn from_layout(position: i32, sibling: i32, relative: i32) -> (node: Node)
        ensures
            node == (Node { sibling, relative, position, attribute: 0, is_removed: false }),
    {
        Node { position, sibling, relative, attribute: 0, is_removed: false }
    }
}

impl Default for Node {
    fn default() -> (node: Node)
        ensures
            node == (Node { sibling: 0, relative: 0, position: 0, attribute: 0, is_removed: false }),
    {
        Node { position: 0, sibling: 0, relative: 0, attribute: 0, is_removed: false }
    }
}

/// A contiguous run of triangle indices that belong together.
#[derive(Debug, Copy, Clone)]
pub struct Group {
    /// Where the run starts in the triangle list.
    pub first_index: i32,
    /// How many indices the run holds.
    pub index_count: i32,
}

} // verus!
