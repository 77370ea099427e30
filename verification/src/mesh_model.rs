//! The mathematical model of a triangulated mesh: triangles as triples of
//! vertex indices, their canonical edges, and the adjacency relations that
//! follow from the sequence of triangles alone.

use vstd::prelude::*;
use crate::edge::{Edge, canonical, touches};
use crate::text::{tokens, parse_unsigned, is_float_literal};

verus! {

/// An RGB colour, one byte per channel.
pub type Color = (u8, u8, u8);

/// Three vertex indices and the index of a colour.
#[derive(Clone, Copy, Debug)]
pub struct Triangle {
    pub v0: u32,
    pub v1: u32,
    pub v2: u32,
    pub color: u32,
}

/// What a mesh is made of. The adjacency relations are functions of
/// `triangles`.
pub struct MeshView {
    pub num_vertices: nat,
    pub colors: Seq<Color>,
    pub triangles: Seq<Triangle>,
}

/// The corners of `t` are three different vertices below `num_vertices`, and
/// its colour index is at most `num_colors`.
pub open spec fn valid_triangle(t: Triangle, num_vertices: nat, num_colors: nat) -> bool {
    &&& t.v0 < num_vertices
    &&& t.v1 < num_vertices
    &&& t.v2 < num_vertices
    &&& t.v0 != t.v1
    &&& t.v1 != t.v2
    &&& t.v0 != t.v2
    &&& t.color <= num_colors
}

/// Every triangle of the mesh is valid, and the counts fit the machine.
pub open spec fn mesh_wf(m: MeshView) -> bool {
    &&& m.num_vertices <= usize::MAX
    &&& m.triangles.len() <= usize::MAX
    &&& forall|t: int|
        0 <= t < m.triangles.len() ==> valid_triangle(
            #[trigger] m.triangles[t],
            m.num_vertices,
            m.colors.len(),
        )
}

/// Why a mesh description was refused.
#[derive(Clone, Copy, Debug, PartialEq, Eq)]
pub enum GeometryError {
    /// A line is neither a vertex, a colour nor a triangle.
    ParseFailure,
    /// A coordinate of a vertex is not a number.
    InvalidVertex,
    /// A triangle names a vertex or a colour that is not there, or one
    /// vertex twice, or one of its fields is not a number.
    InvalidTriangle,
    /// A channel of a colour is not a number from 0 to 255.
    InvalidColor,
}

/// A mesh without vertices, colours or triangles.
pub open spec fn empty_mesh() -> MeshView {
    MeshView { num_vertices: 0, colors: Seq::empty(), triangles: Seq::empty() }
}

/// What one line of a description adds to the mesh read so far. Two tokens
/// are the coordinates of one more vertex, three the channels of one more
/// colour, four a triangle over vertices read before it and a colour index
/// of at most the number of colours read before it.
pub open spec fn read_line(m: MeshView, line: Seq<char>) -> Result<MeshView, GeometryError> {
    let t = tokens(line);
    if t.len() == 2 {
        if is_float_literal(t[0]) && is_float_literal(t[1]) {
            Ok(
                MeshView {
                    num_vertices: m.num_vertices + 1,
                    colors: m.colors,
                    triangles: m.triangles,
                },
            )
        } else {
            Err(GeometryError::InvalidVertex)
        }
    } else if t.len() == 3 {
        let r = parse_unsigned(t[0], 255);
        let g = parse_unsigned(t[1], 255);
        let b = parse_unsigned(t[2], 255);
        if r.is_some() && g.is_some() && b.is_some() {
            Ok(
                MeshView {
                    num_vertices: m.num_vertices,
                    colors: m.colors.push((r.unwrap() as u8, g.unwrap() as u8, b.unwrap() as u8)),
                    triangles: m.triangles,
                },
            )
        } else {
            Err(GeometryError::InvalidColor)
        }
    } else if t.len() == 4 {
        let v0 = parse_unsigned(t[0], u32::MAX as nat);
        let v1 = parse_unsigned(t[1], u32::MAX as nat);
        let v2 = parse_unsigned(t[2], u32::MAX as nat);
        let color = parse_unsigned(t[3], u32::MAX as nat);
        if v0.is_some() && v1.is_some() && v2.is_some() && color.is_some() {
            let triangle = Triangle {
                v0: v0.unwrap() as u32,
                v1: v1.unwrap() as u32,
                v2: v2.unwrap() as u32,
                color: color.unwrap() as u32,
            };
            if valid_triangle(triangle, m.num_vertices, m.colors.len()) {
                Ok(
                    MeshView {
                        num_vertices: m.num_vertices,
                        colors: m.colors,
                        triangles: m.triangles.push(triangle),
                    },
                )
            } else {
                Err(GeometryError::InvalidTriangle)
            }
        } else {
            Err(GeometryError::InvalidTriangle)
        }
    } else {
        Err(GeometryError::ParseFailure)
    }
}

/// The mesh that a description gives, line after line, or the error of the
/// first line that is refused.
pub open spec fn read_lines(lines: Seq<Seq<char>>) -> Result<MeshView, GeometryError>
    decreases lines.len(),
{
    if lines.len() == 0 {
        Ok(empty_mesh())
    } else {
        match read_lines(lines.drop_last()) {
            Ok(m) => read_line(m, lines.last()),
            Err(e) => Err(e),
        }
    }
}

/// A line that is accepted leaves a well-formed mesh well formed, and adds
/// at most one vertex.
pub proof fn lemma_read_line_wf(m: MeshView, line: Seq<char>)
    requires
        mesh_wf(m),
        m.num_vertices < usize::MAX,
        m.triangles.len() < usize::MAX,
        read_line(m, line).is_ok(),
    ensures
        mesh_wf(read_line(m, line).unwrap()),
        read_line(m, line).unwrap().num_vertices <= m.num_vertices + 1,
{
    let after = read_line(m, line).unwrap();
    assert forall|t: int| 0 <= t < after.triangles.len() implies valid_triangle(
        #[trigger] after.triangles[t],
        after.num_vertices,
        after.colors.len(),
    ) by {
        if t < m.triangles.len() {
            assert(after.triangles[t] == m.triangles[t]);
        }
    }
}

/// Whether `e` is one of the three canonical edges of `t`.
pub open spec fn has_edge(t: Triangle, e: Edge) -> bool {
    ||| e == canonical((t.v0, t.v1))
    ||| e == canonical((t.v1, t.v2))
    ||| e == canonical((t.v0, t.v2))
}

/// The corners of `t` in ascending order.
pub open spec fn sorted_corners(t: Triangle) -> (u32, u32, u32) {
    if t.v0 <= t.v1 {
        if t.v1 <= t.v2 {
            (t.v0, t.v1, t.v2)
        } else if t.v0 <= t.v2 {
            (t.v0, t.v2, t.v1)
        } else {
            (t.v2, t.v0, t.v1)
        }
    } else {
        if t.v0 <= t.v2 {
            (t.v1, t.v0, t.v2)
        } else if t.v1 <= t.v2 {
            (t.v1, t.v2, t.v0)
        } else {
            (t.v2, t.v1, t.v0)
        }
    }
}

/// The canonical edges of `t`, listed as low-middle, middle-high, low-high
/// over its sorted corners.
pub open spec fn triangle_edges(t: Triangle) -> Seq<Edge> {
    let s = sorted_corners(t);
    seq![(s.0, s.1), (s.1, s.2), (s.0, s.2)]
}

/// The ids of the triangles that have `e` as an edge, in ascending order.
pub open spec fn triangles_with_edge(triangles: Seq<Triangle>, e: Edge) -> Seq<usize>
    decreases triangles.len(),
{
    if triangles.len() == 0 {
        Seq::empty()
    } else {
        let before = triangles_with_edge(triangles.drop_last(), e);
        if has_edge(triangles.last(), e) {
            before.push((triangles.len() - 1) as usize)
        } else {
            before
        }
    }
}

/// Whether `e` is an edge of at least one triangle.
pub open spec fn is_mesh_edge(triangles: Seq<Triangle>, e: Edge) -> bool {
    exists|t: int| 0 <= t < triangles.len() && has_edge(#[trigger] triangles[t], e)
}

/// The mesh edges that have `v` as an endpoint.
pub open spec fn incident_edges(triangles: Seq<Triangle>, v: u32) -> Set<Edge> {
    Set::new(|e: Edge| touches(e, v) && is_mesh_edge(triangles, e))
}

/// How many of the three edges of `t` are in `connected`.
pub open spec fn connected_count(t: Triangle, connected: Set<Edge>) -> nat {
    let a: nat = if connected.contains(canonical((t.v0, t.v1))) { 1 } else { 0 };
    let b: nat = if connected.contains(canonical((t.v1, t.v2))) { 1 } else { 0 };
    let c: nat = if connected.contains(canonical((t.v0, t.v2))) { 1 } else { 0 };
    a + b + c
}

/// Whether all three edges of `t` are in `connected`.
pub open spec fn fully_connected(t: Triangle, connected: Set<Edge>) -> bool {
    &&& connected.contains(canonical((t.v0, t.v1)))
    &&& connected.contains(canonical((t.v1, t.v2)))
    &&& connected.contains(canonical((t.v0, t.v2)))
}

/// The listed edges of a triangle are exactly those that `has_edge` accepts.
pub proof fn lemma_triangle_edges(t: Triangle)
    ensures
        triangle_edges(t).len() == 3,
        forall|e: Edge| triangle_edges(t).contains(e) <==> has_edge(t, e),
        forall|i: int| 0 <= i < 3 ==> has_edge(t, #[trigger] triangle_edges(t)[i]),
{
    let s = triangle_edges(t);
    assert forall|e: Edge| s.contains(e) <==> has_edge(t, e) by {
        if has_edge(t, e) {
            assert(s[0] == e || s[1] == e || s[2] == e);
        }
    }
}

/// The edges of a valid triangle are three different canonical pairs of
/// valid vertices.
pub proof fn lemma_valid_triangle_edges(t: Triangle, num_vertices: nat, num_colors: nat)
    requires
        valid_triangle(t, num_vertices, num_colors),
    ensures
        triangle_edges(t).no_duplicates(),
        forall|e: Edge| #[trigger]
            has_edge(t, e) ==> e.0 < e.1 && e.1 < num_vertices && canonical(e) == e,
{
}

/// What `triangles_with_edge` lists: each entry is the id of a triangle with
/// that edge, the ids ascend, and no such triangle is left out.
pub proof fn lemma_triangles_with_edge(triangles: Seq<Triangle>, e: Edge)
    requires
        triangles.len() <= usize::MAX,
    ensures
        forall|i: int|
            0 <= i < triangles_with_edge(triangles, e).len() ==> {
                let t = #[trigger] triangles_with_edge(triangles, e)[i];
                t < triangles.len() && has_edge(triangles[t as int], e)
            },
        forall|i: int, j: int|
            0 <= i < j < triangles_with_edge(triangles, e).len() ==> triangles_with_edge(
                triangles,
                e,
            )[i] < triangles_with_edge(triangles, e)[j],
        forall|t: int|
            0 <= t < triangles.len() && has_edge(#[trigger] triangles[t], e)
                ==> triangles_with_edge(triangles, e).contains(t as usize),
        triangles_with_edge(triangles, e).len() <= triangles.len(),
        triangles_with_edge(triangles, e).len() > 0 <==> is_mesh_edge(triangles, e),
    decreases triangles.len(),
{
    let list = triangles_with_edge(triangles, e);
    if triangles.len() > 0 {
        let front = triangles.drop_last();
        let before = triangles_with_edge(front, e);
        lemma_triangles_with_edge(front, e);
        assert forall|t: int|
            0 <= t < triangles.len() && has_edge(#[trigger] triangles[t], e) implies list.contains(
            t as usize,
        ) by {
            if t < front.len() {
                assert(front[t] == triangles[t]);
                assert(before.contains(t as usize));
                let i = choose|i: int| 0 <= i < before.len() && before[i] == t as usize;
                assert(list[i] == t as usize);
            } else {
                assert(list[list.len() - 1] == t as usize);
            }
        }
        assert forall|i: int| 0 <= i < list.len() implies {
            let t = #[trigger] list[i];
            t < triangles.len() && has_edge(triangles[t as int], e)
        } by {
            if i < before.len() {
                assert(list[i] == before[i]);
                assert(front[before[i] as int] == triangles[before[i] as int]);
            }
        }
        if list.len() > 0 {
            let t = list[0];
            assert(has_edge(triangles[t as int], e));
        }
        if is_mesh_edge(triangles, e) {
            let t = choose|t: int| 0 <= t < triangles.len() && has_edge(triangles[t], e);
            assert(list.contains(t as usize));
        }
    } else {
        assert(!is_mesh_edge(triangles, e));
    }
}

/// A mesh edge of a well-formed mesh is a canonical pair of valid vertices.
pub proof fn lemma_mesh_edge_shape(m: MeshView, e: Edge)
    requires
        mesh_wf(m),
        is_mesh_edge(m.triangles, e),
    ensures
        e.0 < e.1,
        e.1 < m.num_vertices,
        canonical(e) == e,
{
    let t = choose|t: int| 0 <= t < m.triangles.len() && has_edge(m.triangles[t], e);
    lemma_valid_triangle_edges(m.triangles[t], m.num_vertices, m.colors.len());
}

} // verus!
