use vertex_puzzle::display::{selected_uniform, ShaderKind};
use vertex_puzzle::events::{Event, EventHandler, Gesture, Session};
use vertex_puzzle::geometry::PuzzleData;
use vertex_puzzle::puzzle_state::PuzzleState;
use vertex_puzzle::snapshot::InteractiveFeatures;

fn two_triangles() -> PuzzleData {
    let lines: Vec<String> =
        ["0 0", "1 0", "0 1", "1 1", "255 0 0", "0 255 0", "0 1 2 0", "1 2 3 1"]
            .iter()
            .map(|l| l.to_string())
            .collect();
    PuzzleData::from_lines(&lines).unwrap()
}

#[test]
fn pending_hands_on_the_events_in_order_once() {
    let mut handler = EventHandler::new();
    assert!(handler.pending().is_empty());
    handler.add_event(Event::MouseDown(1, 2));
    handler.add_event(Event::MouseMove(3, 4));
    handler.add_event(Event::MouseUp(5, 6));
    handler.add_event(Event::MouseLeave);
    let events = handler.pending();
    assert_eq!(events.len(), 4);
    assert!(matches!(events[0], Event::MouseDown(1, 2)));
    assert!(matches!(events[1], Event::MouseMove(3, 4)));
    assert!(matches!(events[2], Event::MouseUp(5, 6)));
    assert!(matches!(events[3], Event::MouseLeave));
    assert!(handler.pending().is_empty());
}

#[test]
fn press_and_release_on_two_vertices_draws_the_edge() {
    let data = two_triangles();
    let mut state = PuzzleState::from_data(&data);
    let mut session = Session::new();
    assert_eq!(session.last_vertex_clicked(), None);
    session.handle(&mut state, &data, Gesture::Press(Some(2)));
    assert_eq!(session.last_vertex_clicked(), Some(2));
    assert!(state.get_connected_edges().to_vec().is_empty());
    session.handle(&mut state, &data, Gesture::Release(Some(1)));
    assert_eq!(session.last_vertex_clicked(), None);
    assert_eq!(state.get_connected_edges().to_vec(), vec![(1, 2)]);
}

#[test]
fn press_and_release_on_one_vertex_erases_its_edges() {
    let data = two_triangles();
    let mut state = PuzzleState::from_data(&data);
    let mut session = Session::new();
    state.connect_edge(&data, &(1, 2));
    state.connect_edge(&data, &(1, 3));
    state.connect_edge(&data, &(0, 2));
    session.handle(&mut state, &data, Gesture::Press(Some(1)));
    session.handle(&mut state, &data, Gesture::Release(Some(1)));
    assert_eq!(session.last_vertex_clicked(), None);
    assert_eq!(state.get_connected_edges().to_vec(), vec![(0, 2)]);
}

#[test]
fn a_release_without_both_vertices_only_forgets_the_press() {
    let data = two_triangles();
    let mut state = PuzzleState::from_data(&data);
    let mut session = Session::new();
    session.handle(&mut state, &data, Gesture::Release(Some(1)));
    assert!(state.get_connected_edges().to_vec().is_empty());
    session.handle(&mut state, &data, Gesture::Press(Some(1)));
    session.handle(&mut state, &data, Gesture::Release(None));
    assert_eq!(session.last_vertex_clicked(), None);
    assert!(state.get_connected_edges().to_vec().is_empty());
    session.handle(&mut state, &data, Gesture::Press(None));
    session.handle(&mut state, &data, Gesture::Release(Some(2)));
    assert!(state.get_connected_edges().to_vec().is_empty());
    session.handle(&mut state, &data, Gesture::Press(Some(0)));
    session.handle(&mut state, &data, Gesture::Leave);
    assert_eq!(session.last_vertex_clicked(), None);
    session.handle(&mut state, &data, Gesture::Release(Some(2)));
    assert!(state.get_connected_edges().to_vec().is_empty());
    session.handle(&mut state, &data, Gesture::Press(Some(0)));
    session.reset();
    assert_eq!(session.last_vertex_clicked(), None);
}

#[test]
fn highlighted_vertices_and_edge_in_progress() {
    let f = InteractiveFeatures::from_interact_info(&None, &None);
    assert!(f.selected_vertices.is_empty());
    assert_eq!(f.active_edge, None);
    let f = InteractiveFeatures::from_interact_info(&Some(3), &None);
    assert_eq!(f.selected_vertices, vec![3]);
    assert_eq!(f.active_edge, None);
    let f = InteractiveFeatures::from_interact_info(&Some(3), &Some(None));
    assert_eq!(f.selected_vertices, vec![3]);
    assert_eq!(f.active_edge, Some(3));
    let f = InteractiveFeatures::from_interact_info(&Some(3), &Some(Some(1)));
    assert_eq!(f.selected_vertices, vec![3, 1]);
    assert_eq!(f.active_edge, Some(3));
    let f = InteractiveFeatures::from_interact_info(&Some(3), &Some(Some(3)));
    assert_eq!(f.selected_vertices, vec![3]);
    assert_eq!(f.active_edge, Some(3));
    let f = InteractiveFeatures::from_interact_info(&None, &Some(Some(2)));
    assert_eq!(f.selected_vertices, vec![2]);
    assert_eq!(f.active_edge, None);
}

#[test]
fn dynamic_picture_follows_the_state() {
    let data = two_triangles();
    let mut state = PuzzleState::from_data(&data);
    let empty = data.get_dynamic_graphics_data(&state, &None, &None);
    assert!(empty.triangle_indices.is_empty());
    assert!(empty.line_edges.is_empty());
    state.connect_edge(&data, &(2, 3));
    state.connect_edge(&data, &(1, 3));
    state.connect_edge(&data, &(1, 2));
    let picture = data.get_dynamic_graphics_data(&state, &Some(0), &Some(Some(1)));
    assert_eq!(picture.triangle_indices, vec![3, 4, 5]);
    assert_eq!(picture.line_edges, vec![(2, 3), (1, 3), (1, 2)]);
    assert_eq!(picture.selected_vertices, vec![0, 1]);
    assert_eq!(picture.active_edge, Some(0));
}

#[test]
fn highlight_slots_are_padded_with_minus_one() {
    assert_eq!(selected_uniform(&vec![]), [-1, -1]);
    assert_eq!(selected_uniform(&vec![7]), [7, -1]);
    assert_eq!(selected_uniform(&vec![7, 0]), [7, 0]);
    assert_eq!(selected_uniform(&vec![7, 0, 9]), [7, 0]);
    assert_eq!(selected_uniform(&vec![u32::MAX, 0x8000_0000]), [-1, i32::MIN]);
    assert_eq!(selected_uniform(&vec![0x7FFF_FFFF]), [i32::MAX, -1]);
}

#[test]
fn shader_kinds_are_told_apart() {
    assert_eq!(ShaderKind::Triangles, ShaderKind::Triangles);
    assert_ne!(ShaderKind::Triangles, ShaderKind::Lines);
    assert_ne!(ShaderKind::Lines, ShaderKind::Points);
}
