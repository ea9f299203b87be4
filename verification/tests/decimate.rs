use nanomesh::builders::SharedMesh;
use nanomesh::connected_mesh::ConnectedMesh;
use nanomesh::decimate::{mirror, pack, Decimator, Step};
use nanomesh::edge::Edge;
use std::cell::RefCell;

/// A flat grid of `side` by `side` squares, two triangles each.
fn grid(side: i32) -> ConnectedMesh<(f64, f64)> {
    let mut positions = Vec::new();
    for y in 0..=side {
        for x in 0..=side {
            positions.push((x as f64, y as f64));
        }
    }
    let mut triangles = Vec::new();
    let row = side + 1;
    for y in 0..side {
        for x in 0..side {
            let corner = y * row + x;
            triangles.extend([corner, corner + 1, corner + row + 1]);
            triangles.extend([corner, corner + row + 1, corner + row]);
        }
    }
    let shared = SharedMesh { positions, triangles, groups: Vec::new() };
    assert!(shared.is_well_formed());
    shared.to_connected()
}

fn midpoint(mesh: &ConnectedMesh<(f64, f64)>, edge: Edge) -> (f64, f64) {
    let a = mesh.positions[edge.pos_a as usize];
    let b = mesh.positions[edge.pos_b as usize];
    ((a.0 + b.0) / 2., (a.1 + b.1) / 2.)
}

fn live_faces(mesh: &ConnectedMesh<(f64, f64)>) -> usize {
    mesh.nodes.iter().filter(|node| !node.is_removed).count() / 3
}

#[test]
fn a_run_starts_with_every_edge_queued_once() {
    let mesh = grid(1);
    let (run, edges) = Decimator::new(&mesh, 0);
    // a square of two triangles has four sides and one diagonal
    assert_eq!(edges.len(), 5);
    assert_eq!(run.queue.len(), 5);
    let mut keys: Vec<(i32, i32)> = edges.iter().map(|edge| edge.1.key()).collect();
    for (node, edge) in edges.iter() {
        // each edge starts from the node that it is listed with
        assert_eq!(mesh.nodes[*node as usize].position, edge.pos_a);
        let next = mesh.nodes[*node as usize].relative;
        assert_eq!(mesh.nodes[next as usize].position, edge.pos_b);
    }
    keys.sort();
    assert_eq!(keys, vec![(0, 1), (0, 2), (0, 3), (1, 3), (2, 3)]);
    for key in keys {
        // cost zero is queued under its mirror image
        assert_eq!(run.queue.get_priority(&key), Some(&-1));
    }
    // the edges are listed by the first node that they start from
    let nodes: Vec<i32> = edges.iter().map(|edge| edge.0).collect();
    assert_eq!(nodes, vec![0, 1, 2, 4, 5]);
    let map = run.position_to_node.as_ref().unwrap();
    assert_eq!(map.len(), 4);
    for (position, node) in map.iter() {
        assert_eq!(mesh.nodes[*node as usize].position, *position);
    }
    // each position points at the last node that claims it
    assert_eq!(map.get(&0), Some(&3));
    assert_eq!(map.get(&1), Some(&1));
    assert_eq!(map.get(&3), Some(&4));
    assert_eq!(map.get(&2), Some(&5));
    assert_eq!(run.target, 0);
    assert!(run.collapse_to.is_empty());
}

#[test]
fn refresh_changes_only_queued_edges() {
    let mesh = grid(1);
    let (mut run, _) = Decimator::new(&mesh, 0);
    assert!(run.refresh(Edge::new(3, 0), 10, (0.5, 0.5)));
    assert_eq!(run.queue.get_priority(&(0, 3)), Some(&-11));
    assert_eq!(run.collapse_to.get(&pack((0, 3))), Some(&(0.5, 0.5)));
    // the other diagonal is no edge of the mesh
    assert!(!run.refresh(Edge::new(1, 2), 10, (0.5, 0.5)));
    assert_eq!(run.queue.len(), 5);
    assert_eq!(run.collapse_to.len(), 1);
    // the extremes of the cost range have a mirror image too
    assert!(run.refresh(Edge::new(0, 1), i64::MIN, (0., 0.)));
    assert_eq!(run.queue.get_priority(&(0, 1)), Some(&i64::MAX));
    assert!(run.refresh(Edge::new(0, 1), i64::MAX, (0., 0.)));
    assert_eq!(run.queue.get_priority(&(0, 1)), Some(&i64::MIN));
}

#[test]
fn the_cheaper_edge_has_the_greater_priority() {
    assert_eq!(mirror(0), -1);
    assert_eq!(mirror(10), -11);
    assert_eq!(mirror(-1), 0);
    assert_eq!(mirror(i64::MAX), i64::MIN);
    assert_eq!(mirror(i64::MIN), i64::MAX);
    assert!(mirror(3) > mirror(4));
}

#[test]
fn pairs_are_packed_apart() {
    assert_eq!(pack((0, 0)), 0);
    assert_eq!(pack((0, 1)), 1);
    assert_eq!(pack((1, 0)), 4294967296);
    assert_eq!(pack((2, 3)), 8589934595);
    assert_eq!(pack((i32::MAX, i32::MAX)), 9223372034707292159);
}

#[test]
fn a_step_collapses_the_cheapest_edge() {
    let mut mesh = grid(2);
    let (mut run, edges) = Decimator::new(&mesh, 0);
    for (_, edge) in edges {
        let cost = if edge.key() == (4, 8) { 1 } else { 100 };
        assert!(run.refresh(edge, cost, (9., 9.)));
    }
    let queued = run.queue.len();
    match run.step(&mut mesh) {
        Step::Collapsed { edge, survivor } => {
            assert_eq!(edge.key(), (4, 8));
            assert!(!mesh.nodes[survivor as usize].is_removed);
            assert_eq!(mesh.nodes[survivor as usize].position, 4);
        }
        other => panic!("{:?}", other),
    }
    // the two faces along the diagonal 4-8 are gone
    assert_eq!(mesh.face_count, 6);
    assert_eq!(live_faces(&mesh), 6);
    // the position collapsed to has moved to the point of the edge
    assert_eq!(mesh.positions[4], (9., 9.));
    assert_eq!(mesh.positions[8], (2., 2.));
    assert_eq!(run.queue.len(), queued - 1);
    let map = run.position_to_node.as_ref().unwrap();
    assert!(map.get(&8).is_none());
    assert!(mesh.is_well_formed());
    assert!(mesh.has_proper_faces());
}

#[test]
fn a_stale_edge_is_dropped() {
    let mut mesh = grid(2);
    let (mut run, edges) = Decimator::new(&mesh, 0);
    for (_, edge) in edges {
        let cost = match edge.key() {
            (4, 8) => 1,
            (5, 8) => 2,
            _ => 100,
        };
        run.refresh(edge, cost, (9., 9.));
    }
    assert!(matches!(run.step(&mut mesh), Step::Collapsed { .. }));
    let faces = mesh.face_count;
    // position 8 is gone, so the edge 5-8 cannot be collapsed any more
    match run.step(&mut mesh) {
        Step::Stale { edge } => assert_eq!(edge.key(), (5, 8)),
        other => panic!("{:?}", other),
    }
    assert_eq!(mesh.face_count, faces);
}

#[test]
fn a_step_at_the_target_does_nothing() {
    let mut mesh = grid(1);
    let (mut run, _) = Decimator::new(&mesh, 2);
    assert!(matches!(run.step(&mut mesh), Step::Finished));
    assert_eq!(run.queue.len(), 5);
    assert_eq!(mesh.face_count, 2);
}

#[test]
fn a_square_collapses_to_nothing() {
    let mut mesh = grid(1);
    let (mut run, _) = Decimator::new(&mesh, 0);
    let mut vanished = 0;
    let mut steps = 0;
    loop {
        match run.step(&mut mesh) {
            Step::Finished => break,
            Step::Vanished { .. } => vanished += 1,
            _ => {}
        }
        steps += 1;
        assert!(steps <= 5);
    }
    assert_eq!(mesh.face_count, 0);
    assert!(vanished <= 1);
    assert!(mesh.is_well_formed());
}

#[test]
fn decimate_stops_at_the_target_or_when_no_edge_is_left() {
    for target in [0u32, 1, 7, 16, 31, 32, 40] {
        let mut mesh = grid(4);
        let before = mesh.face_count;
        assert_eq!(before, 32);
        let quadrics = RefCell::new(0usize);
        let run = mesh.decimate(
            target,
            |_mesh: &ConnectedMesh<(f64, f64)>, _node: i32| {
                *quadrics.borrow_mut() += 1;
            },
            |mesh: &ConnectedMesh<(f64, f64)>, _node: i32, edge: Edge| {
                let a = mesh.positions[edge.pos_a as usize];
                let b = mesh.positions[edge.pos_b as usize];
                let length = (a.0 - b.0).abs() + (a.1 - b.1).abs();
                ((length * 1000.) as i64, midpoint(mesh, edge))
            },
        );
        assert!(mesh.face_count <= before);
        assert!(mesh.face_count <= target || run.queue.is_empty());
        assert_eq!(live_faces(&mesh) as u32, mesh.face_count);
        assert!(mesh.is_well_formed());
        assert!(mesh.has_proper_faces());
        // one quadric for each of the 25 positions at the start
        assert!(*quadrics.borrow() >= 25);
        if target >= before {
            assert_eq!(mesh.face_count, before);
            assert_eq!(*quadrics.borrow(), 25);
        }
    }
}

#[test]
fn decimate_to_half() {
    let mut mesh = grid(4);
    let run = mesh.decimate_to_ratio(
        1,
        2,
        |_mesh: &ConnectedMesh<(f64, f64)>, _node: i32| {},
        |mesh: &ConnectedMesh<(f64, f64)>, _node: i32, edge: Edge| {
            ((edge.pos_a + edge.pos_b) as i64, midpoint(mesh, edge))
        },
    );
    assert_eq!(run.target, 16);
    assert!(mesh.face_count <= 16 || run.queue.is_empty());
    assert!(mesh.face_count <= 16);
    // a collapse takes two faces at most, so the count stops right below the target
    assert!(mesh.face_count >= 14);
    let mut mesh = grid(3);
    let run = mesh.decimate_to_ratio(
        1,
        4,
        |_mesh: &ConnectedMesh<(f64, f64)>, _node: i32| {},
        |mesh: &ConnectedMesh<(f64, f64)>, _node: i32, edge: Edge| (0, midpoint(mesh, edge)),
    );
    // a quarter of 18 faces, rounded down
    assert_eq!(run.target, 4);
    let mut mesh = grid(3);
    let run = mesh.decimate_to_ratio(
        1,
        1,
        |_mesh: &ConnectedMesh<(f64, f64)>, _node: i32| {},
        |mesh: &ConnectedMesh<(f64, f64)>, _node: i32, edge: Edge| (0, midpoint(mesh, edge)),
    );
    assert_eq!(run.target, 18);
    assert_eq!(mesh.face_count, 18);
}

#[test]
fn edges_are_unordered_pairs() {
    assert!(Edge::new(3, 7) == Edge::new(7, 3));
    assert!(Edge::new(3, 7) != Edge::new(3, 8));
    assert_eq!(Edge::new(7, 3).key(), (3, 7));
    assert_eq!(Edge::new(3, 7).key(), (3, 7));
    assert_eq!(Edge::new(5, 5).key(), (5, 5));
    let edge = Edge::new(7, 3);
    assert_eq!((edge.pos_a, edge.pos_b), (7, 3));
}

#[test]
fn a_collapse_that_leaves_nothing_is_told_apart() {
    let shared = SharedMesh {
        positions: vec![(0., 0.), (1., 0.), (0., 1.)],
        triangles: vec![0, 1, 2],
        groups: Vec::new(),
    };
    let mut mesh = shared.to_connected();
    let (mut run, edges) = Decimator::new(&mesh, 0);
    assert_eq!(edges.len(), 3);
    for (_, edge) in edges {
        let cost = if edge.key() == (1, 2) { -5 } else { 5 };
        run.refresh(edge, cost, (7., 7.));
    }
    match run.step(&mut mesh) {
        Step::Vanished { edge } => assert_eq!(edge.key(), (1, 2)),
        other => panic!("{:?}", other),
    }
    assert_eq!(mesh.face_count, 0);
    // nothing is left to move
    assert_eq!(mesh.positions[1], (1., 0.));
    assert!(run.position_to_node.as_ref().unwrap().is_empty());
    // the queue still holds two edges, but the target is reached
    assert_eq!(run.queue.len(), 2);
    assert!(matches!(run.step(&mut mesh), Step::Finished));
    assert_eq!(run.queue.len(), 2);
}

#[test]
fn an_empty_queue_ends_the_run_above_the_target() {
    // two triangles that share no position: nothing is left to try once
    // each has been collapsed, whatever the target
    let shared = SharedMesh {
        positions: vec![(0., 0.); 3],
        triangles: vec![0, 1, 2],
        groups: Vec::new(),
    };
    let mut mesh = shared.to_connected();
    let (mut run, _) = Decimator::new(&mesh, 0);
    while run.queue.pop().is_some() {}
    assert!(matches!(run.step(&mut mesh), Step::Finished));
    assert_eq!(mesh.face_count, 1);
}

#[test]
fn a_collapse_mends_the_rings_opposite_the_edge() {
    let mut mesh = grid(2);
    // the faces 4-5-8 and 4-8-7 lie on the diagonal 4-8; positions 5 and 7 are opposite it
    assert_eq!(mesh.face_corners(18), (4, 5, 8));
    assert_eq!(mesh.face_corners(21), (4, 8, 7));
    // node 8 is the corner at 5 of the face 1-2-5, which touches neither 4 nor 8
    assert_eq!(mesh.face_corners(6), (1, 2, 5));
    assert_eq!(mesh.nodes[8].sibling, 19);
    let before = mesh.nodes.clone();
    let survivor = mesh.collapse_edge_to_a(18, 20, &mut None);
    assert_eq!(mesh.nodes[survivor as usize].position, 4);
    // the ring at 5 has lost node 19, so node 8 is linked to the node after it
    assert!(mesh.nodes[19].is_removed);
    assert_eq!(mesh.nodes[8].sibling, before[19].sibling);
    // all else of that face is as it was
    for i in [6usize, 7, 8] {
        assert_eq!(mesh.nodes[i].relative, before[i].relative);
        assert_eq!(mesh.nodes[i].position, before[i].position);
        assert_eq!(mesh.nodes[i].is_removed, before[i].is_removed);
    }
    assert_eq!(mesh.nodes[6].sibling, before[6].sibling);
    assert_eq!(mesh.nodes[7].sibling, before[7].sibling);
    // nodes away from the edge and from the positions opposite it are untouched
    assert_eq!(mesh.face_corners(0), (0, 1, 4));
    assert_eq!(mesh.nodes[0].sibling, before[0].sibling);
    assert_eq!(mesh.nodes[1].sibling, before[1].sibling);
    assert_eq!(mesh.face_count, 6);
    assert!(mesh.is_well_formed());
}

#[test]
fn a_collapse_may_overshoot_the_target() {
    // half of the two faces of a square is one face, but the diagonal takes both along
    let mut mesh = grid(1);
    let run = mesh.decimate_to_ratio(
        1,
        2,
        |_mesh: &ConnectedMesh<(f64, f64)>, _node: i32| {},
        |mesh: &ConnectedMesh<(f64, f64)>, _node: i32, edge: Edge| {
            let cost = if edge.key() == (0, 3) { 0 } else { 10 };
            (cost, midpoint(mesh, edge))
        },
    );
    assert_eq!(run.target, 1);
    assert_eq!(mesh.face_count, 0);
    // with a side of the square first, one face is left
    let mut mesh = grid(1);
    let run = mesh.decimate_to_ratio(
        1,
        2,
        |_mesh: &ConnectedMesh<(f64, f64)>, _node: i32| {},
        |mesh: &ConnectedMesh<(f64, f64)>, _node: i32, edge: Edge| {
            let cost = if edge.key() == (0, 1) { 0 } else { 10 };
            (cost, midpoint(mesh, edge))
        },
    );
    assert_eq!(run.target, 1);
    assert_eq!(mesh.face_count, 1);
    assert_eq!(mesh.positions[0], (0.5, 0.));
}

fn square_by_hand() -> ConnectedMesh<(f64, f64)> {
    let shared = SharedMesh {
        positions: vec![(0., 0.), (1., 0.), (1., 1.), (0., 1.)],
        triangles: vec![0, 1, 2, 0, 2, 3],
        groups: Vec::new(),
    };
    shared.to_connected()
}

fn one_triangle() -> ConnectedMesh<(f64, f64)> {
    let shared = SharedMesh {
        positions: vec![(0., 0.), (1., 0.), (0., 1.)],
        triangles: vec![0, 1, 2],
        groups: Vec::new(),
    };
    shared.to_connected()
}

#[test]
fn a_mesh_at_the_target_is_left_as_it_is() {
    for target in [2u32, 3, 100] {
        let mut mesh = square_by_hand();
        let before = mesh.nodes.clone();
        let run = mesh.decimate(
            target,
            |_mesh: &ConnectedMesh<(f64, f64)>, _node: i32| {},
            |_mesh: &ConnectedMesh<(f64, f64)>, _node: i32, _edge: Edge| (0, (9., 9.)),
        );
        assert_eq!(mesh.face_count, 2);
        assert_eq!(mesh.positions, vec![(0., 0.), (1., 0.), (1., 1.), (0., 1.)]);
        let positions: Vec<i32> = mesh.nodes.iter().map(|node| node.position).collect();
        assert_eq!(positions, vec![0, 1, 2, 0, 2, 3]);
        for i in 0..mesh.nodes.len() {
            assert!(!mesh.nodes[i].is_removed);
            assert_eq!(mesh.nodes[i].sibling, before[i].sibling);
            assert_eq!(mesh.nodes[i].relative, before[i].relative);
        }
        // every edge is still queued, and every position is known
        assert_eq!(run.queue.len(), 5);
        assert_eq!(run.position_to_node.as_ref().unwrap().len(), 4);
    }
}

#[test]
fn one_triangle_is_decimated_to_nothing() {
    let mut mesh = one_triangle();
    mesh.decimate(
        0,
        |_mesh: &ConnectedMesh<(f64, f64)>, _node: i32| {},
        |mesh: &ConnectedMesh<(f64, f64)>, _node: i32, edge: Edge| (0, midpoint(mesh, edge)),
    );
    assert_eq!(mesh.face_count, 0);
    assert!(mesh.nodes.iter().all(|node| node.is_removed));
}

#[test]
fn half_of_one_triangle_is_nothing() {
    let mut mesh = one_triangle();
    let run = mesh.decimate_to_ratio(
        1,
        2,
        |_mesh: &ConnectedMesh<(f64, f64)>, _node: i32| {},
        |mesh: &ConnectedMesh<(f64, f64)>, _node: i32, edge: Edge| (0, midpoint(mesh, edge)),
    );
    assert_eq!(run.target, 0);
    assert_eq!(mesh.face_count, 0);
    assert!(mesh.nodes.iter().all(|node| node.is_removed));
}

#[test]
fn the_whole_of_a_square_is_the_square() {
    let mut mesh = square_by_hand();
    let run = mesh.decimate_to_ratio(
        1,
        1,
        |_mesh: &ConnectedMesh<(f64, f64)>, _node: i32| {},
        |mesh: &ConnectedMesh<(f64, f64)>, _node: i32, edge: Edge| (0, midpoint(mesh, edge)),
    );
    assert_eq!(run.target, 2);
    assert_eq!(mesh.face_count, 2);
    assert!(mesh.nodes.iter().all(|node| !node.is_removed));
    assert_eq!(mesh.positions, vec![(0., 0.), (1., 0.), (1., 1.), (0., 1.)]);
}

#[test]
fn a_run_above_the_target_takes_a_face() {
    for target in 0..32u32 {
        let mut mesh = grid(4);
        mesh.decimate(
            target,
            |_mesh: &ConnectedMesh<(f64, f64)>, _node: i32| {},
            |mesh: &ConnectedMesh<(f64, f64)>, _node: i32, edge: Edge| {
                ((edge.pos_a * 7 + edge.pos_b * 3) as i64 % 11, midpoint(mesh, edge))
            },
        );
        assert!(mesh.face_count < 32);
    }
}

#[test]
fn a_moved_position_is_at_a_point_that_was_handed_in() {
    let mut mesh = grid(3);
    let before = mesh.positions.clone();
    mesh.decimate(
        6,
        |_mesh: &ConnectedMesh<(f64, f64)>, _node: i32| {},
        |_mesh: &ConnectedMesh<(f64, f64)>, _node: i32, edge: Edge| {
            ((edge.pos_a + edge.pos_b) as i64, (-1. - edge.pos_a as f64, -1. - edge.pos_b as f64))
        },
    );
    let mut moved = 0;
    for i in 0..before.len() {
        if mesh.positions[i] != before[i] {
            // a point of the shape that the second closure makes
            assert!(mesh.positions[i].0 <= -1. && mesh.positions[i].1 <= -1.);
            moved += 1;
        }
    }
    assert!(moved > 0);
}
