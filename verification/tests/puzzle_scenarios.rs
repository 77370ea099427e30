use vertex_puzzle::geometry::PuzzleData;
use vertex_puzzle::puzzle_state::PuzzleState;

fn mesh(lines: &[&str]) -> PuzzleData {
    let owned: Vec<String> = lines.iter().map(|l| l.to_string()).collect();
    PuzzleData::from_lines(&owned).unwrap()
}

fn one_triangle() -> PuzzleData {
    mesh(&["0 0", "1 0", "0 1", "255 0 0", "0 1 2 0"])
}

fn two_triangles() -> PuzzleData {
    mesh(&["0 0", "1 0", "0 1", "1 1", "255 0 0", "0 255 0", "0 1 2 0", "1 2 3 1"])
}

fn drawn(state: &PuzzleState) -> Vec<(u32, u32)> {
    state.get_connected_edges().to_vec()
}

#[test]
fn single_triangle_unlocks_after_third_edge() {
    let orders: [[(u32, u32); 3]; 6] = [
        [(0, 1), (1, 2), (0, 2)],
        [(0, 1), (0, 2), (1, 2)],
        [(1, 2), (0, 1), (0, 2)],
        [(1, 2), (0, 2), (0, 1)],
        [(0, 2), (0, 1), (1, 2)],
        [(0, 2), (1, 2), (0, 1)],
    ];
    for order in orders.iter() {
        let data = one_triangle();
        let mut state = PuzzleState::from_data(&data);
        assert!(!state.is_finished());
        state.connect_edge(&data, &order[0]);
        assert!(!state.is_finished());
        assert_eq!(state.remaining(0), 2);
        state.connect_edge(&data, &order[1]);
        assert!(!state.is_finished());
        assert_eq!(state.remaining(0), 1);
        assert!(state.get_unlocked_triangles().is_empty());
        state.connect_edge(&data, &order[2]);
        assert_eq!(state.remaining(0), 0);
        assert!(state.get_unlocked_triangles().contains(&0));
        assert_eq!(state.get_unlocked_triangles().len(), 1);
        assert!(state.is_finished());
    }
}

#[test]
fn shared_edge_counts_for_both_triangles() {
    let data = two_triangles();
    let mut state = PuzzleState::from_data(&data);
    assert_eq!(state.remaining(0), 3);
    assert_eq!(state.remaining(1), 3);
    state.connect_edge(&data, &(1, 2));
    assert_eq!(state.remaining(0), 2);
    assert_eq!(state.remaining(1), 2);
    assert!(!state.is_finished());
}

#[test]
fn cancel_at_vertex_of_unlocked_triangle_changes_nothing() {
    let data = one_triangle();
    let mut state = PuzzleState::from_data(&data);
    state.connect_edge(&data, &(0, 1));
    state.connect_edge(&data, &(1, 2));
    state.connect_edge(&data, &(0, 2));
    assert!(state.is_permanent_vertex(0));
    let before = drawn(&state);
    state.disconnect_from_vertex(&data, 0);
    assert_eq!(drawn(&state), before);
    assert_eq!(state.get_unlocked_triangles().len(), 1);
    assert!(state.get_unlocked_triangles().contains(&0));
    assert!(state.is_finished());
}

#[test]
fn erasing_an_edge_locks_the_triangle_and_keeps_permanence() {
    let data = one_triangle();
    let mut state = PuzzleState::from_data(&data);
    state.connect_edge(&data, &(0, 1));
    state.connect_edge(&data, &(1, 2));
    state.connect_edge(&data, &(0, 2));
    assert!(state.is_finished());
    state.disconnect_edge(&data, &(1, 2));
    assert!(!state.get_unlocked_triangles().contains(&0));
    assert!(state.get_unlocked_triangles().is_empty());
    assert!(!state.is_finished());
    assert_eq!(state.remaining(0), 1);
    assert!(state.is_permanent_edge(&(0, 1)));
    assert!(state.is_permanent_edge(&(1, 2)));
    assert!(state.is_permanent_edge(&(0, 2)));
    assert!(state.is_permanent_vertex(0));
    assert!(state.is_permanent_vertex(1));
    assert!(state.is_permanent_vertex(2));
    assert_eq!(drawn(&state), vec![(0, 1), (0, 2)]);
}

#[test]
fn all_edges_drawn_gives_one_triple_per_triangle() {
    let data = two_triangles();
    let mut state = PuzzleState::from_data(&data);
    for t in 0..data.num_triangles() {
        for edge in data.get_edges_for_triangle(t as u32) {
            state.connect_edge(&data, &edge);
        }
    }
    assert!(state.is_finished());
    let snapshot = data.get_dynamic_graphics_data(&state, &None, &None);
    assert_eq!(snapshot.triangle_indices, vec![0, 1, 2, 3, 4, 5]);
    assert_eq!(snapshot.triangle_indices.len(), 3 * data.num_triangles());
    assert_eq!(snapshot.active_edge, None);
    assert!(snapshot.selected_vertices.is_empty());
    assert_eq!(snapshot.line_edges.len(), 5);
    assert_eq!(snapshot.line_edges, vec![(0, 1), (1, 2), (0, 2), (2, 3), (1, 3)]);
}

#[test]
fn connecting_twice_is_connecting_once() {
    let data = two_triangles();
    let mut once = PuzzleState::from_data(&data);
    let mut twice = PuzzleState::from_data(&data);
    once.connect_edge(&data, &(2, 1));
    twice.connect_edge(&data, &(2, 1));
    twice.connect_edge(&data, &(1, 2));
    assert_eq!(drawn(&once), vec![(1, 2)]);
    assert_eq!(drawn(&twice), drawn(&once));
    assert_eq!(twice.remaining(0), once.remaining(0));
    assert_eq!(twice.remaining(1), once.remaining(1));
    assert_eq!(twice.remaining(0), 2);
}

#[test]
fn disconnecting_twice_is_disconnecting_once() {
    let data = two_triangles();
    let mut state = PuzzleState::from_data(&data);
    state.connect_edge(&data, &(1, 2));
    state.connect_edge(&data, &(0, 1));
    state.disconnect_edge(&data, &(2, 1));
    assert_eq!(drawn(&state), vec![(0, 1)]);
    assert_eq!(state.remaining(0), 2);
    assert_eq!(state.remaining(1), 3);
    state.disconnect_edge(&data, &(1, 2));
    assert_eq!(drawn(&state), vec![(0, 1)]);
    assert_eq!(state.remaining(0), 2);
    assert_eq!(state.remaining(1), 3);
}

#[test]
fn disconnecting_an_edge_never_drawn_changes_nothing() {
    let data = one_triangle();
    let mut state = PuzzleState::from_data(&data);
    state.disconnect_edge(&data, &(0, 1));
    assert!(drawn(&state).is_empty());
    assert_eq!(state.remaining(0), 3);
}

#[test]
fn counter_is_three_less_the_drawn_edges() {
    let data = two_triangles();
    let mut state = PuzzleState::from_data(&data);
    let moves: [(bool, (u32, u32)); 8] = [
        (true, (0, 1)),
        (true, (2, 1)),
        (true, (3, 0)),
        (false, (0, 1)),
        (true, (2, 3)),
        (true, (1, 3)),
        (false, (1, 2)),
        (true, (0, 2)),
    ];
    for (connect, edge) in moves.iter() {
        if *connect {
            state.connect_edge(&data, edge);
        } else {
            state.disconnect_edge(&data, edge);
        }
        let now = drawn(&state);
        for t in 0..data.num_triangles() {
            let mut have = 0;
            for e in data.get_edges_for_triangle(t as u32) {
                if now.contains(&e) {
                    have += 1;
                }
            }
            assert_eq!(state.remaining(t), 3 - have);
            assert_eq!(state.get_unlocked_triangles().contains(&t), have == 3);
        }
    }
}

#[test]
fn permanent_edges_stay_permanent() {
    let data = two_triangles();
    let mut state = PuzzleState::from_data(&data);
    state.connect_edge(&data, &(0, 1));
    state.connect_edge(&data, &(1, 2));
    assert!(!state.is_permanent_edge(&(0, 1)));
    state.connect_edge(&data, &(0, 2));
    for e in [(0, 1), (1, 2), (0, 2)].iter() {
        assert!(state.is_permanent_edge(e));
    }
    assert!(!state.is_permanent_edge(&(2, 3)));
    state.disconnect_edge(&data, &(0, 1));
    state.disconnect_from_vertex(&data, 1);
    state.disconnect_from_vertex(&data, 2);
    state.connect_edge(&data, &(2, 3));
    state.disconnect_edge(&data, &(1, 2));
    state.connect_edge(&data, &(0, 3));
    for e in [(0, 1), (1, 2), (0, 2), (1, 0), (2, 1), (2, 0)].iter() {
        assert!(state.is_permanent_edge(e));
    }
    assert!(state.is_permanent_vertex(0));
    assert!(!state.is_permanent_vertex(1));
    assert!(!state.is_permanent_vertex(2));
    assert!(!state.is_permanent_vertex(3));
}

#[test]
fn cancel_erases_only_what_is_not_permanent() {
    let data = two_triangles();
    let mut state = PuzzleState::from_data(&data);
    state.connect_edge(&data, &(0, 1));
    state.connect_edge(&data, &(1, 2));
    state.connect_edge(&data, &(0, 2));
    state.connect_edge(&data, &(1, 3));
    state.connect_edge(&data, &(0, 3));
    assert_eq!(state.remaining(1), 1);
    state.disconnect_from_vertex(&data, 1);
    assert_eq!(drawn(&state), vec![(0, 1), (1, 2), (0, 2), (0, 3)]);
    assert_eq!(state.remaining(0), 0);
    assert_eq!(state.remaining(1), 2);
    state.disconnect_from_vertex(&data, 0);
    assert_eq!(drawn(&state), vec![(0, 1), (1, 2), (0, 2)]);
    state.disconnect_from_vertex(&data, 3);
    assert_eq!(drawn(&state), vec![(0, 1), (1, 2), (0, 2)]);
}

#[test]
fn cancel_at_permanent_vertex_erases_a_loose_edge() {
    let data = two_triangles();
    let mut state = PuzzleState::from_data(&data);
    state.connect_edge(&data, &(0, 1));
    state.connect_edge(&data, &(1, 2));
    state.connect_edge(&data, &(0, 2));
    state.connect_edge(&data, &(0, 3));
    state.disconnect_edge(&data, &(0, 1));
    assert!(state.is_permanent_vertex(0));
    state.disconnect_from_vertex(&data, 0);
    assert_eq!(drawn(&state), vec![(1, 2), (0, 2)]);
}

#[test]
fn an_edge_of_no_triangle_is_drawn_and_counts_for_nothing() {
    let data = two_triangles();
    let mut state = PuzzleState::from_data(&data);
    state.connect_edge(&data, &(3, 0));
    assert_eq!(drawn(&state), vec![(0, 3)]);
    assert_eq!(state.remaining(0), 3);
    assert_eq!(state.remaining(1), 3);
    assert!(!state.is_permanent_edge(&(0, 3)));
    state.connect_edge(&data, &(2, 2));
    assert_eq!(drawn(&state), vec![(0, 3), (2, 2)]);
    state.disconnect_from_vertex(&data, 2);
    assert_eq!(drawn(&state), vec![(0, 3)]);
}

#[test]
fn second_triangle_unlocks_through_the_shared_edge() {
    let data = two_triangles();
    let mut state = PuzzleState::from_data(&data);
    state.connect_edge(&data, &(0, 1));
    state.connect_edge(&data, &(0, 2));
    state.connect_edge(&data, &(1, 3));
    state.connect_edge(&data, &(2, 3));
    assert!(state.get_unlocked_triangles().is_empty());
    state.connect_edge(&data, &(1, 2));
    assert_eq!(state.get_unlocked_triangles().len(), 2);
    assert!(state.is_finished());
    for v in 0..4 {
        assert!(state.is_permanent_vertex(v));
    }
}

#[test]
fn a_mesh_without_triangles_is_finished_at_once() {
    let data = mesh(&["0 0", "1 1"]);
    let mut state = PuzzleState::from_data(&data);
    assert!(state.is_finished());
    state.connect_edge(&data, &(1, 0));
    assert_eq!(drawn(&state), vec![(0, 1)]);
    assert!(state.is_finished());
    assert!(!state.is_permanent_vertex(0));
}
