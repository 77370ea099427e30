//! A puzzle played on a triangulated planar mesh. The player draws edges
//! between vertices; a triangle unlocks once all three of its sides have been
//! drawn, and the puzzle is solved when every triangle is unlocked.
//!
//! `mesh_model` and `state_model` say what a mesh and a puzzle state are and
//! how the moves change a state. `geometry` holds the mesh with its adjacency
//! indices, `puzzle_state` the state that the player's moves change, and both
//! are proved to do what the models say. `text` reads the lines of a mesh
//! description, `snapshot` lays out what a renderer draws, `events` turns
//! the player's gestures into moves.

pub mod edge;
pub mod text;
pub mod mesh_model;
pub mod geometry;
pub mod state_model;
pub mod puzzle_state;
pub mod snapshot;
pub mod events;
pub mod display;
