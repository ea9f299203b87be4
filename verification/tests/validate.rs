use nanomesh::builders::SharedMesh;
use nanomesh::connected_mesh::ConnectedMesh;
use nanomesh::node::Node;

fn two_triangles() -> ConnectedMesh<u8> {
    let shared =
        SharedMesh { positions: vec![0u8; 4], triangles: vec![0, 1, 2, 0, 2, 3], groups: Vec::new() };
    shared.to_connected()
}

#[test]
fn a_built_mesh_is_well_formed() {
    let mesh = two_triangles();
    assert!(mesh.is_well_formed());
    assert!(mesh.has_proper_faces());
    let empty: ConnectedMesh<u8> = ConnectedMesh::default();
    assert!(empty.is_well_formed());
    assert!(empty.has_proper_faces());
}

#[test]
fn a_wrong_face_count_is_found() {
    let mut mesh = two_triangles();
    mesh.face_count = 3;
    assert!(!mesh.is_well_formed());
}

#[test]
fn a_broken_triangle_is_found() {
    let mut mesh = two_triangles();
    mesh.nodes[2].relative = 1;
    assert!(!mesh.is_well_formed());
    let mut mesh = two_triangles();
    mesh.nodes[2].relative = 6;
    assert!(!mesh.is_well_formed());
    let mut mesh = two_triangles();
    mesh.nodes[1].is_removed = true;
    assert!(!mesh.is_well_formed());
}

#[test]
fn a_position_out_of_range_is_found() {
    let mut mesh = two_triangles();
    mesh.positions.pop();
    assert!(!mesh.is_well_formed());
    let mut mesh = two_triangles();
    mesh.nodes[1].position = -1;
    assert!(!mesh.is_well_formed());
}

#[test]
fn a_broken_ring_is_found() {
    // two rings at one position
    let mut mesh = two_triangles();
    mesh.nodes[0].sibling = 0;
    mesh.nodes[3].sibling = 3;
    assert!(!mesh.is_well_formed());
    // a ring through two positions
    let mut mesh = two_triangles();
    let (a, b) = (mesh.nodes[1].sibling, mesh.nodes[5].sibling);
    mesh.nodes[1].sibling = b;
    mesh.nodes[5].sibling = a;
    assert!(!mesh.is_well_formed());
    // a ring that does not close
    let mut mesh = two_triangles();
    mesh.nodes[0].sibling = 1;
    assert!(!mesh.is_well_formed());
    // a ring with a tombstone
    let mut mesh = two_triangles();
    mesh.nodes[3].is_removed = true;
    mesh.nodes[4].is_removed = true;
    mesh.nodes[5].is_removed = true;
    mesh.face_count = 1;
    assert!(!mesh.is_well_formed());
    mesh.reconnect_sibling(0);
    mesh.reconnect_sibling(2);
    assert!(mesh.is_well_formed());
}

#[test]
fn a_face_with_two_corners_at_one_position_is_found() {
    let shared =
        SharedMesh { positions: vec![0u8; 3], triangles: vec![0, 1, 1], groups: Vec::new() };
    assert!(shared.is_well_formed());
    let mesh = shared.to_connected();
    assert!(mesh.is_well_formed());
    assert!(!mesh.has_proper_faces());
}

#[test]
fn a_layout_written_by_hand_is_checked() {
    let mut nodes = Vec::new();
    nodes.push(Node::from_layout(0, 0, 1));
    nodes.push(Node::from_layout(1, 1, 2));
    nodes.push(Node::from_layout(2, 2, 0));
    let mesh = ConnectedMesh { nodes, face_count: 1, positions: vec![0u8; 3] };
    assert!(mesh.is_well_formed());
    assert!(mesh.has_proper_faces());
}
