//! The map from a position to one live node that claims it.

use crate::node::Node;
use crate::ring::is_live;
use std::collections::HashMap;
use vstd::prelude::*;

verus! {

/// Each position that `map` knows is mapped to a live node at that position.
pub open spec fn registered(map: Map<i32, i32>, nodes: Seq<Node>) -> bool {
    forall|p: i32| #[trigger]
        map.contains_key(p) ==> is_live(nodes, map[p] as int) && nodes[map[p] as int].position == p
}

/// What the map holds, where there is one.
pub open spec fn map_of(position_to_node: Option<HashMap<i32, i32>>) -> Map<i32, i32> {
    match position_to_node {
        Some(map) => map@,
        None => Map::empty(),
    }
}

/// `map` after `position` was pointed at `node`, or forgotten where `node` is
/// negative.
pub open spec fn pointed(map: Map<i32, i32>, position: i32, node: i32) -> Map<i32, i32> {
    if node < 0 {
        map.remove(position)
    } else {
        map.insert(position, node)
    }
}

/// Points `position` at `node` in the map, where there is a map. A negative
/// `node` says that no live node is left at `position`, which is then forgotten.
pub fn point_at(position_to_node: &mut Option<HashMap<i32, i32>>, position: i32, node: i32)
    ensures
        match *old(position_to_node) {
            Some(before) => *final(position_to_node) matches Some(after) && after@ == pointed(
                before@,
                position,
                node,
            ),
            None => *final(position_to_node) is None,
        },
{
    match position_to_node {
        Some(map) => {
            if node < 0 {
                map.remove(&position);
            } else {
                map.insert(position, node);
            }
        },
        None => {},
    }
}

/// The node that the map has for `position`, where there is a map and it
/// knows the position.
pub fn lookup(position_to_node: &Option<HashMap<i32, i32>>, position: i32) -> (node: Option<i32>)
    ensures
        node == (if position_to_node is Some && map_of(*position_to_node).contains_key(position) {
            Some(map_of(*position_to_node)[position])
        } else {
            None
        }),
{
    match position_to_node {
        Some(map) => match map.get(&position) {
            Some(node) => Some(*node),
            None => None,
        },
        None => None,
    }
}

} // verus!
