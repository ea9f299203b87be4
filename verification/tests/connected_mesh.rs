use nanomesh::connected_mesh::ConnectedMesh;
use nanomesh::navigation::Link;
use nanomesh::node::Node;
use nanomesh::tracker::{lookup, point_at};
use std::collections::HashMap;

#[derive(Debug, Clone, Copy, PartialEq)]
struct Vector3 {
    x: f64,
    y: f64,
    z: f64,
}

impl Vector3 {
    #[allow(non_snake_case)]
    fn new2D(x: f64, y: f64) -> Vector3 {
        Vector3 { x, y, z: 0. }
    }
}

fn build_test_mesh() -> ConnectedMesh<Vector3> {
    // A────────────────────────B
    // │ \           ...---    / │
    // │  \ ...---            /  │
    // │   E────────────────F   │
    // │  /    ---...        \  │
    // │ /           ---...   \ │
    // D────────────────────────C

    let mut positions = Vec::new();
    positions.push(Vector3::new2D(0., 1.)); // A (0)
    positions.push(Vector3::new2D(2., 1.)); // B (1)
    positions.push(Vector3::new2D(2., 0.)); // C (2)
    positions.push(Vector3::new2D(0., 0.)); // D (3)
    positions.push(Vector3::new2D(0.25, 0.5)); // E (4)
    positions.push(Vector3::new2D(1.75, 0.5)); // F (5)

    let mut nodes = Vec::new();
    // Face AED
    nodes.push(Node::from_layout(0, 3, 1)); // (0)
    nodes.push(Node::from_layout(4, 5, 2)); // (1)
    nodes.push(Node::from_layout(3, 9, 0)); // (2)
    // Face ABE
    nodes.push(Node::from_layout(0, 0, 4)); // (3)
    nodes.push(Node::from_layout(1, 15, 5)); // (4)
    nodes.push(Node::from_layout(4, 6, 3)); // (5)
    // Face EBF
    nodes.push(Node::from_layout(4, 12, 7)); // (6)
    nodes.push(Node::from_layout(1, 4, 8)); // (7)
    nodes.push(Node::from_layout(5, 17, 6)); // (8)
    // Face DEC
    nodes.push(Node::from_layout(3, 2, 10)); // (9)
    nodes.push(Node::from_layout(4, 1, 11)); // (10)
    nodes.push(Node::from_layout(2, 14, 9)); // (11)
    // Face EFC
    nodes.push(Node::from_layout(4, 10, 13)); // (12)
    nodes.push(Node::from_layout(5, 8, 14)); // (13)
    nodes.push(Node::from_layout(2, 16, 12)); // (14)
    // Face BCF
    nodes.push(Node::from_layout(1, 7, 16)); // (15)
    nodes.push(Node::from_layout(2, 11, 17)); // (16)
    nodes.push(Node::from_layout(5, 13, 15)); // (17)

    let connected_mesh = ConnectedMesh { positions: positions, nodes: nodes, face_count: 6 };

    // Verify connectivity
    for i in 0..connected_mesh.nodes.len() {
        assert_eq!(connected_mesh.check_siblings(i as i32), true);
        assert_eq!(connected_mesh.check_relatives(i as i32), true);
    }

    assert_eq!(connected_mesh.face_count, 6);

    return connected_mesh;
}

#[test]
#[allow(non_snake_case)]
fn collapse_EF_to_E() {
    let mut connected_mesh = build_test_mesh();

    connected_mesh.collapse_edge_to_a(1 /*a node of E*/, 8 /*a node of F*/, &mut None);

    let mut nodes_removed = 0;

    for i in 0..connected_mesh.nodes.len() {
        if connected_mesh.nodes[i].is_removed {
            nodes_removed += 1;
        } else {
            // Verify that connectivity is valid
            assert_eq!(connected_mesh.check_siblings(i as i32), true);
            assert_eq!(connected_mesh.check_relatives(i as i32), true);
            // Verify that position of a valid node is never F (5), since it is supposed to be removed
            assert_eq!(connected_mesh.nodes[i].position == 5, false);
        }
    }

    // There should be 2 faces removed
    assert_eq!(connected_mesh.face_count, 4);
    // There should be 2 faces removed, which implies 6 nodes
    assert_eq!(nodes_removed, 6);
}

#[test]
#[allow(non_snake_case)]
fn collapse_EF_to_F() {
    let mut connected_mesh = build_test_mesh();

    connected_mesh.collapse_edge_to_a(8 /*a node of F*/, 1 /*a node of E*/, &mut None);

    let mut nodes_removed = 0;

    for i in 0..connected_mesh.nodes.len() {
        if connected_mesh.nodes[i].is_removed {
            nodes_removed += 1;
        } else {
            // Verify that connectivity is valid
            assert_eq!(connected_mesh.check_siblings(i as i32), true);
            assert_eq!(connected_mesh.check_relatives(i as i32), true);
            // Verify that position of a valid node is never E (4), since it is supposed to be removed
            assert_eq!(connected_mesh.nodes[i].position == 4, false);
        }
    }

    // There should be 2 faces removed
    assert_eq!(connected_mesh.face_count, 4);
    // There should be 2 faces removed, which implies 6 nodes
    assert_eq!(nodes_removed, 6);
}

#[test]
fn collapse_returns_the_first_survivor_and_merges_the_rings() {
    let mut mesh = build_test_mesh();
    let survivor = mesh.collapse_edge_to_a(1, 8, &mut None);
    // the ring of E from node 1 is 1, 5, 6, 12, 10; nodes 6 and 12 are removed with
    // their faces, and the ring of F from node 8 is 8, 17, 13, of which 17 stays
    assert_eq!(survivor, 1);
    assert_eq!(mesh.trace(1, Link::Sibling).unwrap(), vec![1, 5, 10, 17]);
    for i in [1usize, 5, 10, 17] {
        assert_eq!(mesh.nodes[i].position, 4);
    }
    // the faces on the edge are removed whole
    for i in [6usize, 7, 8, 12, 13, 14] {
        assert!(mesh.nodes[i].is_removed);
    }
    // the rings opposite the edge are mended: B keeps 4 and 15, C keeps 11 and 16
    assert_eq!(mesh.trace(4, Link::Sibling).unwrap(), vec![4, 15]);
    assert_eq!(mesh.trace(11, Link::Sibling).unwrap(), vec![11, 16]);
    // the positions themselves are not touched
    assert_eq!(mesh.positions.len(), 6);
    assert_eq!(mesh.positions[5], Vector3::new2D(1.75, 0.5));
}

#[test]
fn collapse_leaves_other_faces_as_they_were() {
    let before = build_test_mesh();
    let mut mesh = build_test_mesh();
    mesh.collapse_edge_to_a(1, 8, &mut None);
    // A (0) and D (3) are neither on the edge nor opposite it
    for i in [0usize, 3, 2, 9] {
        assert_eq!(mesh.nodes[i].sibling, before.nodes[i].sibling);
        assert_eq!(mesh.nodes[i].relative, before.nodes[i].relative);
        assert_eq!(mesh.nodes[i].position, before.nodes[i].position);
        assert_eq!(mesh.nodes[i].is_removed, before.nodes[i].is_removed);
    }
    // no node's triangle changes
    for i in 0..mesh.nodes.len() {
        assert_eq!(mesh.nodes[i].relative, before.nodes[i].relative);
    }
}

#[test]
fn collapse_keeps_the_map_up_to_date() {
    let mut mesh = build_test_mesh();
    let mut map = HashMap::new();
    for i in 0..mesh.nodes.len() {
        map.insert(mesh.nodes[i].position, i as i32);
    }
    let mut position_to_node = Some(map);
    let survivor = mesh.collapse_edge_to_a(1, 8, &mut position_to_node);
    let map = position_to_node.unwrap();
    assert_eq!(map.get(&4), Some(&survivor));
    assert_eq!(map.get(&5), None);
    for (position, node) in map.iter() {
        assert!(!mesh.nodes[*node as usize].is_removed);
        assert_eq!(mesh.nodes[*node as usize].position, *position);
    }
    assert_eq!(map.len(), 5);
}

#[test]
fn collapse_of_a_lone_triangle_leaves_nothing() {
    let mut nodes = Vec::new();
    nodes.push(Node::from_layout(0, 0, 1));
    nodes.push(Node::from_layout(1, 1, 2));
    nodes.push(Node::from_layout(2, 2, 0));
    let mut mesh: ConnectedMesh<Vector3> = ConnectedMesh {
        positions: vec![Vector3::new2D(0., 0.), Vector3::new2D(1., 0.), Vector3::new2D(0., 1.)],
        nodes,
        face_count: 1,
    };
    let mut position_to_node = Some(HashMap::from([(0, 0), (1, 1), (2, 2)]));
    let survivor = mesh.collapse_edge_to_a(0, 1, &mut position_to_node);
    assert_eq!(survivor, -1);
    assert_eq!(mesh.face_count, 0);
    assert!(mesh.nodes.iter().all(|node| node.is_removed));
    assert!(position_to_node.unwrap().is_empty());
}

#[test]
fn single_ring_repair_skips_tombstones() {
    let mut mesh = build_test_mesh();
    // remove node 6 from the ring of E by hand: 1 > 5 > 6 > 12 > 10
    mesh.nodes[6].is_removed = true;
    let first = mesh.reconnect_sibling(6);
    assert_eq!(first, 12);
    assert_eq!(mesh.trace(12, Link::Sibling).unwrap(), vec![12, 10, 1, 5]);
    assert_eq!(mesh.nodes[5].sibling, 12);
}

#[test]
fn single_ring_repair_of_a_dead_ring_fails() {
    let mut mesh = build_test_mesh();
    mesh.nodes[0].is_removed = true;
    mesh.nodes[3].is_removed = true;
    let before: Vec<i32> = mesh.nodes.iter().map(|node| node.sibling).collect();
    assert_eq!(mesh.reconnect_sibling(0), -1);
    let after: Vec<i32> = mesh.nodes.iter().map(|node| node.sibling).collect();
    assert_eq!(before, after);
}

#[test]
fn dual_ring_repair_splices_two_rings() {
    let mut mesh = build_test_mesh();
    // ring of A: 0 > 3, ring of D: 2 > 9
    mesh.nodes[3].is_removed = true;
    let first = mesh.reconnect_siblings(0, 2, 7);
    assert_eq!(first, 0);
    assert_eq!(mesh.trace(0, Link::Sibling).unwrap(), vec![0, 2, 9]);
    for i in [0usize, 2, 9] {
        assert_eq!(mesh.nodes[i].position, 7);
    }
    assert_eq!(mesh.nodes[3].position, 0);
    assert_eq!(mesh.nodes[3].sibling, 0);
}

#[test]
fn a_walk_that_does_not_come_back_is_reported() {
    let mut mesh = build_test_mesh();
    // node 3 now points into the ring of E, which never leads back to it
    mesh.nodes[3].sibling = 1;
    assert_eq!(mesh.check_siblings(3), false);
    assert_eq!(mesh.trace(3, Link::Sibling), None);
    // a link out of the node array
    mesh.nodes[0].relative = 99;
    assert_eq!(mesh.check_relatives(0), false);
    mesh.nodes[0].relative = -1;
    assert_eq!(mesh.check_relatives(0), false);
    assert_eq!(mesh.check_relatives(-5), false);
    assert_eq!(mesh.check_siblings(18), false);
}

#[test]
fn default_values() {
    let node = Node::default();
    assert_eq!(node.sibling, 0);
    assert_eq!(node.relative, 0);
    assert_eq!(node.position, 0);
    assert!(!node.is_removed);
    let mesh: ConnectedMesh<Vector3> = ConnectedMesh::default();
    assert_eq!(mesh.nodes.len(), 0);
    assert_eq!(mesh.face_count, 0);
    assert_eq!(mesh.positions.len(), 0);
}

#[test]
fn faces_and_neighbours_of_a_node() {
    let mesh = build_test_mesh();
    // node 6 is the corner at E of face EBF
    assert_eq!(mesh.face_corners(6), (4, 1, 5));
    // the edge E-F has two faces, the edge A-B only one
    assert_eq!(mesh.faces_attached(1, 8), 2);
    assert_eq!(mesh.faces_attached(0, 4), 1);
    assert_eq!(mesh.faces_attached(0, 8), 0);
    // around A: face AED from node 0, face ABE from node 3
    let around = mesh.neighbours(0);
    assert_eq!(around.len(), 2);
    assert_eq!(around[0].0, 0);
    assert_eq!((around[0].1.pos_a, around[0].1.pos_b), (0, 4));
    assert_eq!(around[1].0, 3);
    assert_eq!((around[1].1.pos_a, around[1].1.pos_b), (0, 1));
}

#[test]
fn the_map_is_pointed_and_looked_up() {
    let mut map = Some(HashMap::new());
    point_at(&mut map, 3, 9);
    point_at(&mut map, 4, 0);
    assert_eq!(lookup(&map, 3), Some(9));
    assert_eq!(lookup(&map, 4), Some(0));
    assert_eq!(lookup(&map, 5), None);
    point_at(&mut map, 3, 10);
    assert_eq!(lookup(&map, 3), Some(10));
    // a negative node forgets the position
    point_at(&mut map, 3, -1);
    assert_eq!(lookup(&map, 3), None);
    assert_eq!(map.as_ref().unwrap().len(), 1);
    // without a map nothing happens
    let mut none: Option<HashMap<i32, i32>> = None;
    point_at(&mut none, 3, 9);
    assert!(none.is_none());
    assert_eq!(lookup(&none, 3), None);
}

#[test]
fn a_removed_node_on_the_edge_keeps_its_sibling() {
    let before = build_test_mesh();
    let mut mesh = build_test_mesh();
    mesh.collapse_edge_to_a(1, 8, &mut None);
    // the corners at E and at F of the two faces on the edge
    for i in [6usize, 8, 12, 13] {
        assert!(mesh.nodes[i].is_removed);
        assert_eq!(mesh.nodes[i].sibling, before.nodes[i].sibling);
        assert_eq!(mesh.nodes[i].position, before.nodes[i].position);
    }
}
