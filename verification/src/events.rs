//! What the player does, and what it does to the puzzle: pointer events as
//! they arrive, and the gestures they amount to once each pointer position
//! has been matched to a vertex.

use vstd::prelude::*;
use crate::geometry::PuzzleData;
use crate::mesh_model::MeshView;
use crate::puzzle_state::PuzzleState;
use crate::state_model::{StateView, connect, disconnect_from_vertex};

verus! {

/// A pointer event, with the pointer's position on the canvas in pixels.
#[derive(Clone, Copy, Debug)]
pub enum Event {
    MouseDown(i32, i32),
    MouseMove(i32, i32),
    MouseUp(i32, i32),
    MouseLeave,
}

/// The events that have arrived and were not yet handed on.
pub struct EventHandler {
    event_queue: Vec<Event>,
}

impl EventHandler {
    /// The waiting events, oldest first.
    pub closed spec fn view(&self) -> Seq<Event> {
        self.event_queue@
    }

    pub fn new() -> (handler: EventHandler)
        ensures
            handler@ == Seq::<Event>::empty(),
    {
        EventHandler { event_queue: Vec::new() }
    }

    /// Puts `event` behind the waiting ones.
    pub fn add_event(&mut self, event: Event)
        ensures
            final(self)@ == old(self)@.push(event),
    {
        self.event_queue.push(event);
    }

    /// Hands on the waiting events, oldest first, and forgets them.
    pub fn pending(&mut self) -> (events: Vec<Event>)
        ensures
            events@ == old(self)@,
            final(self)@ == Seq::<Event>::empty(),
    {
        let mut events: Vec<Event> = Vec::new();
        std::mem::swap(&mut events, &mut self.event_queue);
        events
    }
}

/// A pointer event once its position has been matched to the vertex near it,
/// if there is one.
#[derive(Clone, Copy, Debug)]
pub enum Gesture {
    Press(Option<u32>),
    Release(Option<u32>),
    Leave,
}

/// What a gesture does to the puzzle and to the vertex remembered from the
/// last press. A press remembers its vertex. A release forgets it; where
/// both the press and the release met a vertex, releasing on the pressed
/// vertex erases the edges at it, and releasing on another one draws the
/// edge between the two. Leaving the canvas forgets the press.
pub open spec fn after_gesture(m: MeshView, s: StateView, pressed: Option<u32>, g: Gesture) -> (
    StateView,
    Option<u32>,
) {
    match g {
        Gesture::Press(v) => (s, v),
        Gesture::Release(target) => match (pressed, target) {
            (Some(v1), Some(v2)) => if v1 == v2 {
                (disconnect_from_vertex(m, s, v1), None)
            } else {
                (connect(m, s, (v1, v2)), None)
            },
            _ => (s, None),
        },
        Gesture::Leave => (s, None),
    }
}

/// Whether the vertex of a gesture, if it has one, is a vertex of the mesh.
pub open spec fn valid_gesture(m: MeshView, g: Gesture) -> bool {
    match g {
        Gesture::Press(Some(v)) => v < m.num_vertices,
        Gesture::Release(Some(v)) => v < m.num_vertices,
        _ => true,
    }
}

/// The player's hand: the vertex that was pressed and not yet released.
pub struct Session {
    last_vertex_clicked: Option<u32>,
}

impl Session {
    /// The vertex remembered from the last press.
    pub closed spec fn view(&self) -> Option<u32> {
        self.last_vertex_clicked
    }

    /// The remembered vertex, if any, is a vertex of the mesh.
    pub open spec fn wf(&self, m: MeshView) -> bool {
        self@.is_some() ==> self@.unwrap() < m.num_vertices
    }

    pub fn new() -> (session: Session)
        ensures
            session@.is_none(),
    {
        Session { last_vertex_clicked: None }
    }

    pub fn last_vertex_clicked(&self) -> (v: Option<u32>)
        ensures
            v == self@,
    {
        self.last_vertex_clicked
    }

    /// Forgets the press, as when the puzzle is solved.
    pub fn reset(&mut self)
        ensures
            final(self)@.is_none(),
    {
        self.last_vertex_clicked = None;
    }

    /// Lets one gesture act on the puzzle.
    pub fn handle(&mut self, state: &mut PuzzleState, data: &PuzzleData, gesture: Gesture)
        requires
            old(state).wf(),
            old(state).mesh() == data@,
            old(self).wf(data@),
            valid_gesture(data@, gesture),
        ensures
            final(state).wf(),
            final(state).mesh() == data@,
            final(self).wf(data@),
            (final(state)@, final(self)@) == after_gesture(
                data@,
                old(state)@,
                old(self)@,
                gesture,
            ),
    {
        match gesture {
            Gesture::Press(v) => {
                self.last_vertex_clicked = v;
            },
            Gesture::Release(target) => {
                let pressed = self.last_vertex_clicked;
                self.last_vertex_clicked = None;
                match (pressed, target) {
                    (Some(v1), Some(v2)) => {
                        if v1 == v2 {
                            state.disconnect_from_vertex(data, v1);
                        } else {
                            state.connect_edge(data, &(v1, v2));
                        }
                    },
                    _ => {},
                }
            },
            Gesture::Leave => {
                self.last_vertex_clicked = None;
            },
        }
    }
}

} // verus!
