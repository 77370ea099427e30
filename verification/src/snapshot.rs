//! What a renderer needs of a mesh and of a puzzle in play, as indices: the
//! layout of the triangle corners and colours, the drawn edges, the unlocked
//! triangles and the vertices to highlight. Positions are looked up by index
//! by whoever draws.

use vstd::prelude::*;
use crate::edge::Edge;
use crate::geometry::PuzzleData;
use crate::mesh_model::{MeshView, fully_connected};
use crate::puzzle_state::PuzzleState;

verus! {

/// The fixed part of a picture, made once for a mesh.
#[derive(Debug)]
pub struct StaticGraphicsData {
    pub num_vertices: usize,
    /// For each triangle in turn its three corners.
    pub triangle_vertex_indices: Vec<u32>,
    /// For each triangle in turn its colour index, once for each corner.
    pub triangle_color_idx_vertices: Vec<u32>,
    /// The channels of all colours in a row: red, green, blue.
    pub colors_uniform: Vec<u8>,
}

/// The changing part of a picture, made for every frame.
#[derive(Debug)]
pub struct DynamicGraphicsData {
    /// The vertices to highlight, at most two.
    pub selected_vertices: Vec<u32>,
    /// For each unlocked triangle the places of its three corners in the
    /// corner layout of the mesh.
    pub triangle_indices: Vec<u16>,
    /// The drawn edges.
    pub line_edges: Vec<Edge>,
    /// The vertex from which an edge is being drawn to the pointer.
    pub active_edge: Option<u32>,
}

/// What the player is doing at the moment.
#[derive(Debug)]
pub struct InteractiveFeatures {
    pub active_edge: Option<u32>,
    pub selected_vertices: Vec<u32>,
}

/// The pointer as the puzzle sees it: where there is one, the vertex under
/// it, if any.
pub type Pointer = Option<Option<u32>>;

/// The vertices to highlight: the one last pressed, then the one under the
/// pointer unless it is the same.
pub open spec fn selection(last_vertex: Option<u32>, pointer: Pointer) -> Seq<u32> {
    let first: Seq<u32> = match last_vertex {
        Some(v) => seq![v],
        None => Seq::empty(),
    };
    match pointer {
        Some(Some(w)) => if last_vertex == Some(w) {
            first
        } else {
            first.push(w)
        },
        _ => first,
    }
}

/// An edge is in progress when a vertex was pressed and the pointer is on
/// the canvas.
pub open spec fn edge_in_progress(last_vertex: Option<u32>, pointer: Pointer) -> Option<u32> {
    if pointer.is_some() {
        last_vertex
    } else {
        None
    }
}

/// The corner places of the unlocked triangles among the first `n`, in
/// ascending order.
pub open spec fn unlocked_corners(m: MeshView, connected: Set<Edge>, n: nat) -> Seq<u16>
    decreases n,
{
    if n == 0 {
        Seq::empty()
    } else {
        let before = unlocked_corners(m, connected, (n - 1) as nat);
        if fully_connected(m.triangles[n - 1], connected) {
            before.push((3 * (n - 1)) as u16).push((3 * (n - 1) + 1) as u16).push(
                (3 * (n - 1) + 2) as u16,
            )
        } else {
            before
        }
    }
}

/// With every triangle unlocked, the corner places are all places in order.
pub proof fn lemma_all_unlocked_corners(m: MeshView, connected: Set<Edge>, n: nat)
    requires
        n <= m.triangles.len(),
        3 * n <= 0x1_0000,
        forall|t: int| 0 <= t < n ==> fully_connected(#[trigger] m.triangles[t], connected),
    ensures
        unlocked_corners(m, connected, n).len() == 3 * n,
        forall|i: int| 0 <= i < 3 * n ==> #[trigger] unlocked_corners(m, connected, n)[i] == i,
    decreases n,
{
    if n > 0 {
        lemma_all_unlocked_corners(m, connected, (n - 1) as nat);
        assert(fully_connected(m.triangles[n - 1], connected));
    }
}

impl StaticGraphicsData {
    /// Whether this is the picture of the mesh `m`: the corners and the
    /// colour index of every triangle at three places in a row, and the
    /// channels of every colour at three places in a row.
    pub open spec fn lays_out(&self, m: MeshView) -> bool {
        &&& self.num_vertices == m.num_vertices
        &&& self.triangle_vertex_indices@.len() == 3 * m.triangles.len()
        &&& self.triangle_color_idx_vertices@.len() == 3 * m.triangles.len()
        &&& forall|t: int|
            0 <= t < m.triangles.len() ==> {
                let triangle = #[trigger] m.triangles[t];
                &&& self.triangle_vertex_indices@[3 * t] == triangle.v0
                &&& self.triangle_vertex_indices@[3 * t + 1] == triangle.v1
                &&& self.triangle_vertex_indices@[3 * t + 2] == triangle.v2
                &&& self.triangle_color_idx_vertices@[3 * t] == triangle.color
                &&& self.triangle_color_idx_vertices@[3 * t + 1] == triangle.color
                &&& self.triangle_color_idx_vertices@[3 * t + 2] == triangle.color
            }
        &&& self.colors_uniform@.len() == 3 * m.colors.len()
        &&& forall|c: int|
            0 <= c < m.colors.len() ==> {
                let color = #[trigger] m.colors[c];
                &&& self.colors_uniform@[3 * c] == color.0
                &&& self.colors_uniform@[3 * c + 1] == color.1
                &&& self.colors_uniform@[3 * c + 2] == color.2
            }
    }

    /// The picture of the mesh `data`.
    pub fn from_data(data: &PuzzleData) -> (out: StaticGraphicsData)
        ensures
            out.lays_out(data@),
    {
        let triangles = data.triangles();
        let colors = data.colors();
        let mut corners: Vec<u32> = Vec::new();
        let mut corner_colors: Vec<u32> = Vec::new();
        let mut t: usize = 0;
        while t < triangles.len()
            invariant
                t <= triangles@.len(),
                corners@.len() == 3 * t,
                corner_colors@.len() == 3 * t,
                forall|k: int|
                    0 <= k < t ==> {
                        let triangle = #[trigger] triangles@[k];
                        &&& corners@[3 * k] == triangle.v0
                        &&& corners@[3 * k + 1] == triangle.v1
                        &&& corners@[3 * k + 2] == triangle.v2
                        &&& corner_colors@[3 * k] == triangle.color
                        &&& corner_colors@[3 * k + 1] == triangle.color
                        &&& corner_colors@[3 * k + 2] == triangle.color
                    },
            decreases triangles@.len() - t,
        {
            let triangle = triangles[t];
            corners.push(triangle.v0);
            corners.push(triangle.v1);
            corners.push(triangle.v2);
            corner_colors.push(triangle.color);
            corner_colors.push(triangle.color);
            corner_colors.push(triangle.color);
            t += 1;
        }
        let mut channels: Vec<u8> = Vec::new();
        let mut c: usize = 0;
        while c < colors.len()
            invariant
                c <= colors@.len(),
                channels@.len() == 3 * c,
                forall|k: int|
                    0 <= k < c ==> {
                        let color = #[trigger] colors@[k];
                        &&& channels@[3 * k] == color.0
                        &&& channels@[3 * k + 1] == color.1
                        &&& channels@[3 * k + 2] == color.2
                    },
            decreases colors@.len() - c,
        {
            let color = colors[c];
            channels.push(color.0);
            channels.push(color.1);
            channels.push(color.2);
            c += 1;
        }
        StaticGraphicsData {
            num_vertices: data.num_vertices(),
            triangle_vertex_indices: corners,
            triangle_color_idx_vertices: corner_colors,
            colors_uniform: channels,
        }
    }
}

impl InteractiveFeatures {
    /// What to highlight, given the vertex last pressed and the pointer.
    pub fn from_interact_info(last_vertex: &Option<u32>, pointer: &Pointer) -> (out:
        InteractiveFeatures)
        ensures
            out.selected_vertices@ == selection(*last_vertex, *pointer),
            out.active_edge == edge_in_progress(*last_vertex, *pointer),
    {
        let mut selected: Vec<u32> = Vec::new();
        if let Some(v) = last_vertex {
            selected.push(*v);
        }
        if let Some(Some(w)) = pointer {
            let same = match last_vertex {
                Some(v) => *v == *w,
                None => false,
            };
            if !same {
                selected.push(*w);
            }
        }
        let active_edge = match (last_vertex, pointer) {
            (Some(v), Some(_)) => Some(*v),
            _ => None,
        };
        assert(selected@ =~= selection(*last_vertex, *pointer));
        InteractiveFeatures { active_edge, selected_vertices: selected }
    }
}

impl DynamicGraphicsData {
    /// The picture of the puzzle `state` over the mesh `data`.
    pub fn from_data_and_state(
        data: &PuzzleData,
        state: &PuzzleState,
        interactive: &InteractiveFeatures,
    ) -> (out: DynamicGraphicsData)
        requires
            state.wf(),
            state.mesh() == data@,
            3 * data@.triangles.len() <= 0x1_0000,
        ensures
            out.selected_vertices@ == interactive.selected_vertices@,
            out.active_edge == interactive.active_edge,
            out.line_edges@ == state.drawn(),
            out.triangle_indices@ == unlocked_corners(
                data@,
                state@.connected,
                data@.triangles.len(),
            ),
    {
        let drawn = state.get_connected_edges();
        let line_edges = drawn.to_vec();
        let unlocked = state.get_unlocked_triangles();
        let count = data.num_triangles();
        let mut triangle_indices: Vec<u16> = Vec::new();
        let mut t: usize = 0;
        while t < count
            invariant
                t <= count,
                count == data@.triangles.len(),
                3 * count <= 0x1_0000,
                unlocked@ == crate::state_model::unlocked(data@, state@.connected),
                triangle_indices@ == unlocked_corners(data@, state@.connected, t as nat),
            decreases count - t,
        {
            if unlocked.contains(&t) {
                let base: u16 = (3 * t) as u16;
                triangle_indices.push(base);
                triangle_indices.push(base + 1);
                triangle_indices.push(base + 2);
            }
            t += 1;
        }
        let mut selected_vertices: Vec<u32> = Vec::new();
        let mut k: usize = 0;
        while k < interactive.selected_vertices.len()
            invariant
                k <= interactive.selected_vertices@.len(),
                selected_vertices@ == interactive.selected_vertices@.take(k as int),
            decreases interactive.selected_vertices@.len() - k,
        {
            selected_vertices.push(interactive.selected_vertices[k]);
            assert(interactive.selected_vertices@.take(k + 1) =~= interactive.selected_vertices@.take(
                k as int,
            ).push(interactive.selected_vertices@[k as int]));
            k += 1;
        }
        assert(interactive.selected_vertices@.take(interactive.selected_vertices@.len() as int)
            =~= interactive.selected_vertices@);
        DynamicGraphicsData {
            selected_vertices,
            triangle_indices,
            line_edges,
            active_edge: interactive.active_edge,
        }
    }
}

impl PuzzleData {
    /// The fixed part of the picture of this mesh.
    pub fn get_static_graphics_data(&self) -> (out: StaticGraphicsData)
        ensures
            out.lays_out(self@),
    {
        StaticGraphicsData::from_data(self)
    }

    /// The changing part of the picture: the drawn edges, the unlocked
    /// triangles, and what the player is doing.
    pub fn get_dynamic_graphics_data(
        &self,
        state: &PuzzleState,
        last_vertex: &Option<u32>,
        pointer: &Pointer,
    ) -> (out: DynamicGraphicsData)
        requires
            state.wf(),
            state.mesh() == self@,
            3 * self@.triangles.len() <= 0x1_0000,
        ensures
            out.selected_vertices@ == selection(*last_vertex, *pointer),
            out.active_edge == edge_in_progress(*last_vertex, *pointer),
            out.line_edges@ == state.drawn(),
            out.triangle_indices@ == unlocked_corners(
                self@,
                state@.connected,
                self@.triangles.len(),
            ),
    {
        let interactive = InteractiveFeatures::from_interact_info(last_vertex, pointer);
        DynamicGraphicsData::from_data_and_state(self, state, &interactive)
    }
}

} // verus!
