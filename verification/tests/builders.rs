use nanomesh::builders::SharedMesh;
use nanomesh::navigation::Link;

#[derive(Debug, Clone, Copy, PartialEq)]
struct Vector3 {
    x: f64,
    y: f64,
    z: f64,
}

impl Vector3 {
    fn new(x: f64, y: f64, z: f64) -> Vector3 {
        Vector3 { x, y, z }
    }
}

fn square() -> SharedMesh<Vector3> {
    let mut positions = Vec::new();
    // Build a square
    positions.push(Vector3::new(0., 0., 0.));
    positions.push(Vector3::new(1., 0., 0.));
    positions.push(Vector3::new(1., 1., 0.));
    positions.push(Vector3::new(0., 1., 0.));

    let mut triangles = Vec::new();
    // First triangle
    triangles.push(0);
    triangles.push(1);
    triangles.push(2);
    // Second triangle
    triangles.push(0);
    triangles.push(2);
    triangles.push(3);

    SharedMesh { positions: positions, triangles: triangles, groups: Vec::new() }
}

#[test]
fn shared_mesh_to_connected_mesh() {
    let shared_mesh = square();
    assert!(shared_mesh.is_well_formed());
    let connected_mesh = shared_mesh.to_connected();

    assert_eq!(connected_mesh.face_count, 2);
    assert_eq!(connected_mesh.positions.len(), 4);
    assert_eq!(connected_mesh.nodes.len(), 6);
}

#[test]
fn built_nodes_follow_the_triangle_list() {
    let shared_mesh = square();
    let mesh = shared_mesh.to_connected();
    let expected_relative = [1, 2, 0, 4, 5, 3];
    for i in 0..6 {
        assert_eq!(mesh.nodes[i].position, shared_mesh.triangles[i]);
        assert_eq!(mesh.nodes[i].attribute, shared_mesh.triangles[i]);
        assert_eq!(mesh.nodes[i].relative, expected_relative[i]);
        assert!(!mesh.nodes[i].is_removed);
    }
    assert_eq!(mesh.positions[2], Vector3::new(1., 1., 0.));
    // the input is left as it was
    assert_eq!(shared_mesh.triangles, vec![0, 1, 2, 0, 2, 3]);
}

#[test]
fn built_rings_hold_the_nodes_of_one_position() {
    let mesh = square().to_connected();
    // position 0 is claimed by nodes 0 and 3, position 2 by nodes 2 and 4
    let mut ring = mesh.trace(0, Link::Sibling).unwrap();
    ring.sort();
    assert_eq!(ring, vec![0, 3]);
    let mut ring = mesh.trace(4, Link::Sibling).unwrap();
    ring.sort();
    assert_eq!(ring, vec![2, 4]);
    // positions 1 and 3 have one node each
    assert_eq!(mesh.trace(1, Link::Sibling).unwrap(), vec![1]);
    assert_eq!(mesh.trace(5, Link::Sibling).unwrap(), vec![5]);
    for i in 0..6 {
        assert!(mesh.check_siblings(i));
        assert!(mesh.check_relatives(i));
        assert_eq!(mesh.trace(i, Link::Relative).unwrap().len(), 3);
    }
}

#[test]
fn an_empty_triangle_list_builds_an_empty_mesh() {
    let shared: SharedMesh<Vector3> =
        SharedMesh { positions: Vec::new(), triangles: Vec::new(), groups: Vec::new() };
    assert!(shared.is_well_formed());
    let mesh = shared.to_connected();
    assert_eq!(mesh.face_count, 0);
    assert_eq!(mesh.nodes.len(), 0);
}

#[test]
fn a_triangle_list_is_checked() {
    let mut shared = square();
    shared.triangles.push(1);
    assert!(!shared.is_well_formed());
    shared.triangles.push(2);
    shared.triangles.push(4);
    assert!(!shared.is_well_formed());
    shared.triangles[8] = -1;
    assert!(!shared.is_well_formed());
    shared.triangles[8] = 3;
    assert!(shared.is_well_formed());
}

#[test]
fn export_gives_the_triangle_list_back() {
    let shared = square();
    let back = shared.to_connected().to_indexed();
    assert_eq!(back.triangles, shared.triangles);
    assert_eq!(back.positions, shared.positions);
    assert_eq!(back.groups.len(), 0);
}
