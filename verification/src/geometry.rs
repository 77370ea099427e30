//! The immutable mesh of a puzzle: triangles over indexed vertices, with the
//! adjacency indices that the puzzle state consults on every move.

use vstd::prelude::*;
use std::collections::HashMap;
use crate::edge::{Edge, EdgeSet, touches};
use crate::mesh_model::{
    Color, Triangle, MeshView, GeometryError, mesh_wf, has_edge, sorted_corners, triangle_edges,
    triangles_with_edge, is_mesh_edge, incident_edges, read_line, read_lines, empty_mesh,
    lemma_triangle_edges, lemma_valid_triangle_edges, lemma_triangles_with_edge,
    lemma_mesh_edge_shape, lemma_read_line_wf,
};
use crate::text::{split_whitespace, parse_bounded, is_float_token};

verus! {

broadcast use vstd::std_specs::hash::group_hash_axioms;

/// The key under which the triangle lists of `e` are filed: both indices in
/// one word, the first in the upper half.
spec fn edge_key(e: Edge) -> u64 {
    (e.0 as u64 * 0x1_0000_0000 + e.1 as u64) as u64
}

proof fn lemma_edge_key_injective(a: Edge, b: Edge)
    ensures
        edge_key(a) == edge_key(b) <==> a == b,
{
}

fn key_of(e: &Edge) -> (k: u64)
    ensures
        k == edge_key(*e),
{
    (e.0 as u64) * 0x1_0000_0000u64 + (e.1 as u64)
}

/// The triangle list of `e` once the triangles `done` and, of triangle `next`,
/// the edges `extra` have been filed.
spec fn listed(done: Seq<Triangle>, extra: Seq<Edge>, next: usize, e: Edge) -> Seq<usize> {
    if extra.contains(e) {
        triangles_with_edge(done, e).push(next)
    } else {
        triangles_with_edge(done, e)
    }
}

/// The incident edges of `v` once the triangles `done` and the edges `extra`
/// have been filed.
spec fn filed_at(done: Seq<Triangle>, extra: Seq<Edge>, v: u32) -> Set<Edge> {
    incident_edges(done, v) + Set::new(|e: Edge| extra.contains(e) && touches(e, v))
}

spec fn edge_index_matches(
    index: Map<u64, Vec<usize>>,
    done: Seq<Triangle>,
    extra: Seq<Edge>,
    next: usize,
) -> bool {
    forall|e: Edge|
        {
            &&& #[trigger] index.contains_key(edge_key(e)) <==> listed(done, extra, next, e).len()
                > 0
            &&& index.contains_key(edge_key(e)) ==> index[edge_key(e)]@ == listed(
                done,
                extra,
                next,
                e,
            )
        }
}

spec fn vertex_index_matches(
    index: Seq<EdgeSet>,
    num_vertices: nat,
    done: Seq<Triangle>,
    extra: Seq<Edge>,
) -> bool {
    &&& index.len() == num_vertices
    &&& forall|v: u32|
        v < num_vertices ==> (#[trigger] index[v as int]).wf() && index[v as int]@ == filed_at(
            done,
            extra,
            v,
        )
}

/// Filing the three edges of one more triangle brings both indices from the
/// triangles before it to the triangles up to it.
proof fn lemma_filed_triangle(triangles: Seq<Triangle>, i: usize)
    requires
        0 <= i < triangles.len() <= usize::MAX,
    ensures
        forall|e: Edge| #[trigger]
            listed(triangles.take(i as int), triangle_edges(triangles[i as int]), i, e)
                == triangles_with_edge(triangles.take(i + 1), e),
        forall|v: u32| #[trigger]
            filed_at(triangles.take(i as int), triangle_edges(triangles[i as int]), v) == incident_edges(
                triangles.take(i + 1),
                v,
            ),
        forall|e: Edge| #[trigger]
            listed(triangles.take(i + 1), Seq::empty(), 0, e) == triangles_with_edge(
                triangles.take(i + 1),
                e,
            ),
{
    let done = triangles.take(i as int);
    let upto = triangles.take(i + 1);
    let t = triangles[i as int];
    assert(upto.drop_last() =~= done);
    assert(upto.last() == t);
    lemma_triangle_edges(t);
    assert forall|v: u32| #[trigger]
        filed_at(done, triangle_edges(t), v) == incident_edges(upto, v) by {
        assert forall|e: Edge| is_mesh_edge(upto, e) <==> (is_mesh_edge(done, e) || has_edge(
            t,
            e,
        )) by {
            if is_mesh_edge(upto, e) {
                let k = choose|k: int| 0 <= k < upto.len() && has_edge(upto[k], e);
                if k < i {
                    assert(done[k] == upto[k]);
                }
            }
            if is_mesh_edge(done, e) {
                let k = choose|k: int| 0 <= k < done.len() && has_edge(done[k], e);
                assert(upto[k] == done[k]);
            }
            if has_edge(t, e) {
                assert(upto[i as int] == t);
            }
        }
        assert(filed_at(done, triangle_edges(t), v) =~= incident_edges(upto, v));
    }
}

/// With no edge of a next triangle filed, the indices describe the
/// triangles done, whatever the next one is called.
proof fn lemma_nothing_filed(
    edge_index: Map<u64, Vec<usize>>,
    done: Seq<Triangle>,
    a: usize,
    b: usize,
)
    requires
        edge_index_matches(edge_index, done, Seq::empty(), a),
    ensures
        edge_index_matches(edge_index, done, Seq::empty(), b),
{
    assert forall|e: Edge| listed(done, Seq::empty(), a, e) == #[trigger] listed(
        done,
        Seq::empty(),
        b,
        e,
    ) by {}
    assert forall|e: Edge|
        {
            &&& #[trigger] edge_index.contains_key(edge_key(e)) <==> listed(
                done,
                Seq::empty(),
                b,
                e,
            ).len() > 0
            &&& edge_index.contains_key(edge_key(e)) ==> edge_index[edge_key(e)]@ == listed(
                done,
                Seq::empty(),
                b,
                e,
            )
        } by {
        assert(listed(done, Seq::empty(), a, e) == listed(done, Seq::empty(), b, e));
    }
}

fn sort_corners(t: &Triangle) -> (s: (u32, u32, u32))
    ensures
        s == sorted_corners(*t),
{
    if t.v0 <= t.v1 {
        if t.v1 <= t.v2 {
            (t.v0, t.v1, t.v2)
        } else if t.v0 <= t.v2 {
            (t.v0, t.v2, t.v1)
        } else {
            (t.v2, t.v0, t.v1)
        }
    } else {
        if t.v0 <= t.v2 {
            (t.v1, t.v0, t.v2)
        } else if t.v1 <= t.v2 {
            (t.v1, t.v2, t.v0)
        } else {
            (t.v2, t.v1, t.v0)
        }
    }
}

/// Files edge `e` of triangle `next`: appends the triangle to the edge's list
/// and adds the edge to the sets of both its endpoints.
fn file_edge(
    edge_index: &mut HashMap<u64, Vec<usize>>,
    vertex_index: &mut Vec<EdgeSet>,
    e: Edge,
    next: usize,
    Ghost(done): Ghost<Seq<Triangle>>,
    Ghost(extra): Ghost<Seq<Edge>>,
)
    requires
        edge_index_matches(old(edge_index)@, done, extra, next),
        vertex_index_matches(old(vertex_index)@, old(vertex_index)@.len(), done, extra),
        !extra.contains(e),
        e.0 < old(vertex_index)@.len(),
        e.1 < old(vertex_index)@.len(),
    ensures
        edge_index_matches(final(edge_index)@, done, extra.push(e), next),
        vertex_index_matches(final(vertex_index)@, old(vertex_index)@.len(), done, extra.push(e)),
{
    let key = key_of(&e);
    let ghost wanted = listed(done, extra, next, e);
    assert(old(edge_index)@.contains_key(edge_key(e)) <==> wanted.len() > 0);
    let mut list = match edge_index.remove(&key) {
        Some(list) => list,
        None => Vec::new(),
    };
    assert(list@ =~= wanted);
    list.push(next);
    edge_index.insert(key, list);
    vertex_index[e.0 as usize].insert(e);
    vertex_index[e.1 as usize].insert(e);
    proof {
        let more = extra.push(e);
        assert forall|x: Edge| more.contains(x) <==> (x == e || extra.contains(x)) by {
            if more.contains(x) {
                let j = choose|j: int| 0 <= j < more.len() && more[j] == x;
                if j < extra.len() {
                    assert(extra[j] == x);
                }
            }
            if x == e {
                assert(more[extra.len() as int] == e);
            }
            if extra.contains(x) {
                let j = choose|j: int| 0 <= j < extra.len() && extra[j] == x;
                assert(more[j] == x);
            }
        }
        assert forall|x: Edge|
            {
                &&& #[trigger] edge_index@.contains_key(edge_key(x)) <==> listed(
                    done,
                    more,
                    next,
                    x,
                ).len() > 0
                &&& edge_index@.contains_key(edge_key(x)) ==> edge_index@[edge_key(x)]@ == listed(done, more, next, x)
            } by {
            lemma_edge_key_injective(x, e);
            assert(old(edge_index)@.contains_key(edge_key(x)) <==> listed(
                done,
                extra,
                next,
                x,
            ).len() > 0);
        }
        assert forall|v: u32| v < old(vertex_index)@.len() implies (#[trigger] vertex_index@[v as int]).wf()
            && vertex_index@[v as int]@ == filed_at(done, more, v) by {
            assert(old(vertex_index)@[v as int].wf());
            assert(old(vertex_index)@[v as int]@ == filed_at(done, extra, v));
            if touches(e, v) {
                assert(filed_at(done, more, v) =~= filed_at(done, extra, v).insert(e));
            } else {
                assert(filed_at(done, more, v) =~= filed_at(done, extra, v));
            }
        }
    }
}

/// Builds the adjacency indices of a mesh from its parts.
pub(crate) fn index_mesh(num_vertices: usize, colors: Vec<Color>, triangles: Vec<Triangle>) -> (data:
    PuzzleData)
    requires
        mesh_wf(
            MeshView {
                num_vertices: num_vertices as nat,
                colors: colors@,
                triangles: triangles@,
            },
        ),
    ensures
        data@ == (MeshView {
            num_vertices: num_vertices as nat,
            colors: colors@,
            triangles: triangles@,
        }),
{
    let mut edge_to_triangles: HashMap<u64, Vec<usize>> = HashMap::new();
    let mut triangle_to_edges: Vec<[Edge; 3]> = Vec::new();
    let mut vertices_to_edges: Vec<EdgeSet> = Vec::new();
    let mut v: usize = 0;
    while v < num_vertices
        invariant
            v <= num_vertices,
            vertices_to_edges@.len() == v,
            forall|k: int|
                0 <= k < v ==> (#[trigger] vertices_to_edges@[k]).wf() && vertices_to_edges@[k]@
                    == Set::<Edge>::empty(),
        decreases num_vertices - v,
    {
        vertices_to_edges.push(EdgeSet::new());
        v += 1;
    }
    proof {
        let none = triangles@.take(0);
        assert forall|e: Edge| !is_mesh_edge(none, e) by {}
        assert forall|k: u32| k < num_vertices implies vertices_to_edges@[k as int]@ == filed_at(
            none,
            Seq::empty(),
            k,
        ) by {
            assert(filed_at(none, Seq::empty(), k) =~= Set::<Edge>::empty());
        }
        assert forall|e: Edge| listed(none, Seq::empty(), 0, e).len() == 0 by {
            assert(triangles_with_edge(none, e).len() == 0);
        }
    }
    let mut i: usize = 0;
    while i < triangles.len()
        invariant
            i <= triangles.len(),
            mesh_wf(
                MeshView {
                    num_vertices: num_vertices as nat,
                    colors: colors@,
                    triangles: triangles@,
                },
            ),
            edge_index_matches(edge_to_triangles@, triangles@.take(i as int), Seq::empty(), 0),
            vertex_index_matches(
                vertices_to_edges@,
                num_vertices as nat,
                triangles@.take(i as int),
                Seq::empty(),
            ),
            triangle_to_edges.len() == i,
            forall|t: int|
                0 <= t < i ==> (#[trigger] triangle_to_edges[t])@ == triangle_edges(triangles[t]),
        decreases triangles.len() - i,
    {
        let t = triangles[i];
        let s = sort_corners(&t);
        let edges: [Edge; 3] = [(s.0, s.1), (s.1, s.2), (s.0, s.2)];
        let ghost done = triangles@.take(i as int);
        proof {
            assert(edges@ =~= triangle_edges(t));
            lemma_valid_triangle_edges(t, num_vertices as nat, colors@.len());
            lemma_triangle_edges(t);
            lemma_nothing_filed(edge_to_triangles@, done, 0, i);
            assert(edges@.take(0) =~= Seq::<Edge>::empty());
        }
        let mut j: usize = 0;
        while j < 3
            invariant
                j <= 3,
                edges@ == triangle_edges(t),
                edges@.no_duplicates(),
                forall|k: int| 0 <= k < 3 ==> (#[trigger] edges@[k]).1 < num_vertices && edges@[k].0 < num_vertices,
                edge_index_matches(edge_to_triangles@, done, edges@.take(j as int), i),
                vertex_index_matches(
                    vertices_to_edges@,
                    num_vertices as nat,
                    done,
                    edges@.take(j as int),
                ),
            decreases 3 - j,
        {
            proof {
                let before = edges@.take(j as int);
                if before.contains(edges@[j as int]) {
                    let k = choose|k: int| 0 <= k < before.len() && before[k] == edges@[j as int];
                    assert(edges@[k] == edges@[j as int]);
                }
                assert(edges@.take(j + 1) =~= before.push(edges@[j as int]));
            }
            file_edge(
                &mut edge_to_triangles,
                &mut vertices_to_edges,
                edges[j],
                i,
                Ghost(done),
                Ghost(edges@.take(j as int)),
            );
            j += 1;
        }
        triangle_to_edges.push(edges);
        proof {
            assert(edges@.take(3) =~= triangle_edges(t));
            lemma_filed_triangle(triangles@, i);
            let upto = triangles@.take(i + 1);
            assert forall|e: Edge|
                {
                    &&& #[trigger] edge_to_triangles@.contains_key(edge_key(e)) <==> listed(
                        upto,
                        Seq::empty(),
                        0,
                        e,
                    ).len() > 0
                    &&& edge_to_triangles@.contains_key(edge_key(e)) ==> edge_to_triangles@[edge_key(
                        e,
                    )]@ == listed(upto, Seq::empty(), 0, e)
                } by {
                assert(listed(done, triangle_edges(t), i, e) == triangles_with_edge(upto, e));
                assert(listed(upto, Seq::empty(), 0, e) == triangles_with_edge(upto, e));
            }
            assert forall|v: u32| v < num_vertices implies (#[trigger] vertices_to_edges@[v as int]).wf()
                && vertices_to_edges@[v as int]@ == filed_at(upto, Seq::empty(), v) by {
                assert(filed_at(done, triangle_edges(t), v) == incident_edges(upto, v));
                assert(filed_at(upto, Seq::empty(), v) =~= incident_edges(upto, v));
            }
        }
        i += 1;
    }
    proof {
        assert(triangles@.take(triangles.len() as int) =~= triangles@);
    }
    PuzzleData {
        num_vertices,
        colors,
        triangles,
        edge_to_triangles,
        triangle_to_edges,
        vertices_to_edges,
    }
}

/// An error in a line is the error of every description that goes on after
/// that line.
proof fn lemma_first_error(text: Seq<Seq<char>>, i: int)
    requires
        0 <= i < text.len(),
        read_lines(text.take(i + 1)).is_err(),
    ensures
        read_lines(text) == read_lines(text.take(i + 1)),
    decreases text.len() - i,
{
    if i + 1 < text.len() {
        assert(text.take(i + 2).drop_last() =~= text.take(i + 1));
        lemma_first_error(text, i + 1);
    } else {
        assert(text.take(i + 1) =~= text);
    }
}

/// The mesh that the parts read so far make up.
spec fn parts_view(num_vertices: usize, colors: Seq<Color>, triangles: Seq<Triangle>) -> MeshView {
    MeshView { num_vertices: num_vertices as nat, colors, triangles }
}

/// Reads one line of a description into the parts read so far.
fn read_line_into(
    num_vertices: &mut usize,
    colors: &mut Vec<Color>,
    triangles: &mut Vec<Triangle>,
    line: &str,
) -> (r: Result<(), GeometryError>)
    requires
        *old(num_vertices) < usize::MAX,
    ensures
        match r {
            Ok(_) => read_line(
                parts_view(*old(num_vertices), old(colors)@, old(triangles)@),
                line@,
            ) == Ok::<MeshView, GeometryError>(
                parts_view(*final(num_vertices), final(colors)@, final(triangles)@),
            ),
            Err(e) => read_line(
                parts_view(*old(num_vertices), old(colors)@, old(triangles)@),
                line@,
            ) == Err::<MeshView, GeometryError>(e),
        },
{
    let parts = split_whitespace(line);
    if parts.len() == 2 {
        if is_float_token(&parts[0]) && is_float_token(&parts[1]) {
            *num_vertices = *num_vertices + 1;
            Ok(())
        } else {
            Err(GeometryError::InvalidVertex)
        }
    } else if parts.len() == 3 {
        let r = parse_bounded(&parts[0], 255);
        let g = parse_bounded(&parts[1], 255);
        let b = parse_bounded(&parts[2], 255);
        match (r, g, b) {
            (Some(r), Some(g), Some(b)) => {
                colors.push((r as u8, g as u8, b as u8));
                Ok(())
            },
            _ => Err(GeometryError::InvalidColor),
        }
    } else if parts.len() == 4 {
        let v0 = parse_bounded(&parts[0], u32::MAX);
        let v1 = parse_bounded(&parts[1], u32::MAX);
        let v2 = parse_bounded(&parts[2], u32::MAX);
        let color = parse_bounded(&parts[3], u32::MAX);
        match (v0, v1, v2, color) {
            (Some(v0), Some(v1), Some(v2), Some(color)) => {
                let known = (v0 as usize) < *num_vertices && (v1 as usize) < *num_vertices && (
                v2 as usize) < *num_vertices;
                let distinct = v0 != v1 && v1 != v2 && v0 != v2;
                if known && distinct && color as usize <= colors.len() {
                    triangles.push(Triangle { v0, v1, v2, color });
                    Ok(())
                } else {
                    Err(GeometryError::InvalidTriangle)
                }
            },
            _ => Err(GeometryError::InvalidTriangle),
        }
    } else {
        Err(GeometryError::ParseFailure)
    }
}

/// A triangulated mesh. Vertices are known by index alone; each triangle
/// names three of them and a colour.
pub struct PuzzleData {
    num_vertices: usize,
    colors: Vec<Color>,
    triangles: Vec<Triangle>,
    edge_to_triangles: HashMap<u64, Vec<usize>>,
    triangle_to_edges: Vec<[Edge; 3]>,
    vertices_to_edges: Vec<EdgeSet>,
}

impl PuzzleData {
    /// The vertex count, the colour table and the triangles.
    pub closed spec fn view(&self) -> MeshView {
        MeshView {
            num_vertices: self.num_vertices as nat,
            colors: self.colors@,
            triangles: self.triangles@,
        }
    }

    #[verifier::type_invariant]
    spec fn inv(&self) -> bool {
        &&& mesh_wf(self@)
        &&& edge_index_matches(self.edge_to_triangles@, self.triangles@, Seq::empty(), 0)
        &&& self.triangle_to_edges.len() == self.triangles.len()
        &&& forall|t: int|
            0 <= t < self.triangles.len() ==> (#[trigger] self.triangle_to_edges[t])@
                == triangle_edges(self.triangles[t])
        &&& vertex_index_matches(
            self.vertices_to_edges@,
            self.num_vertices as nat,
            self.triangles@,
            Seq::empty(),
        )
    }

    /// Reads a mesh from the lines of its description and builds its
    /// adjacency indices. A line is a vertex, a colour or a triangle by the
    /// number of its tokens; the first line that is refused gives the error.
    pub fn from_lines(lines: &Vec<String>) -> (r: Result<PuzzleData, GeometryError>)
        ensures
            match r {
                Ok(data) => read_lines(lines.deep_view()) == Ok::<MeshView, GeometryError>(data@),
                Err(e) => read_lines(lines.deep_view()) == Err::<MeshView, GeometryError>(e),
            },
    {
        let mut num_vertices: usize = 0;
        let mut colors: Vec<Color> = Vec::new();
        let mut triangles: Vec<Triangle> = Vec::new();
        let ghost text = lines.deep_view();
        let mut i: usize = 0;
        proof {
            assert(text.take(0) =~= Seq::<Seq<char>>::empty());
            assert(parts_view(0, colors@, triangles@) == empty_mesh());
        }
        while i < lines.len()
            invariant
                i <= lines.len(),
                text == lines.deep_view(),
                text.len() == lines.len(),
                num_vertices <= i,
                triangles@.len() <= i,
                mesh_wf(parts_view(num_vertices, colors@, triangles@)),
                read_lines(text.take(i as int)) == Ok::<MeshView, GeometryError>(
                    parts_view(num_vertices, colors@, triangles@),
                ),
            decreases lines.len() - i,
        {
            let ghost before = parts_view(num_vertices, colors@, triangles@);
            proof {
                assert(text.take(i + 1).drop_last() =~= text.take(i as int));
                assert(text.take(i + 1).last() == lines[i as int]@);
            }
            match read_line_into(&mut num_vertices, &mut colors, &mut triangles, lines[i].as_str()) {
                Ok(_) => {
                    proof {
                        lemma_read_line_wf(before, lines[i as int]@);
                    }
                },
                Err(e) => {
                    proof {
                        lemma_first_error(text, i as int);
                    }
                    return Err(e);
                },
            }
            i += 1;
        }
        proof {
            assert(text.take(lines.len() as int) =~= text);
        }
        Ok(index_mesh(num_vertices, colors, triangles))
    }

    /// The number of triangles. Every mesh is well formed, which callers
    /// learn here.
    pub fn num_triangles(&self) -> (n: usize)
        ensures
            n == self@.triangles.len(),
            mesh_wf(self@),
    {
        proof {
            use_type_invariant(self);
        }
        self.triangles.len()
    }

    /// The number of vertices.
    pub fn num_vertices(&self) -> (n: usize)
        ensures
            n == self@.num_vertices,
            mesh_wf(self@),
    {
        proof {
            use_type_invariant(self);
        }
        self.num_vertices
    }

    /// The triangles that have `edge` as one of their canonical edges, in
    /// ascending order, or `None` where there is none.
    pub fn triangles_with_edge(&self, edge: &Edge) -> (r: Option<&Vec<usize>>)
        ensures
            match r {
                Some(list) => list@.len() > 0 && list@ == triangles_with_edge(
                    self@.triangles,
                    *edge,
                ),
                None => triangles_with_edge(self@.triangles, *edge).len() == 0,
            },
            r.is_some() <==> is_mesh_edge(self@.triangles, *edge),
    {
        proof {
            use_type_invariant(self);
            lemma_triangles_with_edge(self@.triangles, *edge);
            assert(self.edge_to_triangles@.contains_key(edge_key(*edge)) <==> listed(
                self.triangles@,
                Seq::empty(),
                0,
                *edge,
            ).len() > 0);
        }
        let key = key_of(edge);
        self.edge_to_triangles.get(&key)
    }

    /// How many mesh edges have `vertex` as an endpoint.
    pub fn num_edges_from_vertex(&self, vertex: u32) -> (n: usize)
        ensures
            n == incident_edges(self@.triangles, vertex).len(),
            incident_edges(self@.triangles, vertex).finite(),
    {
        proof {
            use_type_invariant(self);
        }
        if (vertex as usize) < self.vertices_to_edges.len() {
            assert(self.vertices_to_edges@[vertex as int]@ =~= incident_edges(
                self@.triangles,
                vertex,
            ));
            self.vertices_to_edges[vertex as usize].len()
        } else {
            proof {
                assert forall|e: Edge| !incident_edges(self@.triangles, vertex).contains(e) by {
                    if is_mesh_edge(self@.triangles, e) {
                        lemma_mesh_edge_shape(self@, e);
                    }
                }
                assert(incident_edges(self@.triangles, vertex) =~= Set::<Edge>::empty());
            }
            0
        }
    }

    /// The three canonical edges of the triangle with id `t`.
    pub fn edges_of_triangle(&self, t: usize) -> (edges: &[Edge; 3])
        requires
            t < self@.triangles.len(),
        ensures
            edges@ == triangle_edges(self@.triangles[t as int]),
    {
        proof {
            use_type_invariant(self);
        }
        &self.triangle_to_edges[t]
    }

    /// The three canonical edges of a triangle.
    pub fn get_edges_for_triangle(&self, triangle: u32) -> (edges: Vec<Edge>)
        requires
            triangle < self@.triangles.len(),
        ensures
            edges@ == triangle_edges(self@.triangles[triangle as int]),
    {
        proof {
            use_type_invariant(self);
        }
        let stored = &self.triangle_to_edges[triangle as usize];
        let mut edges: Vec<Edge> = Vec::new();
        edges.push(stored[0]);
        edges.push(stored[1]);
        edges.push(stored[2]);
        assert(edges@ =~= stored@);
        edges
    }

    /// Whether both indices of `edge` name a vertex of the mesh. The pair need
    /// not be an edge of a triangle.
    pub fn is_valid_edge(&self, edge: &Edge) -> (valid: bool)
        ensures
            valid == (edge.0 < self@.num_vertices && edge.1 < self@.num_vertices),
    {
        (edge.0 as usize) < self.num_vertices && (edge.1 as usize) < self.num_vertices
    }

    /// The vertex that a pointer means: the first of those that `near`
    /// marks, where `near` tells for each vertex in turn whether the pointer
    /// is within reach of it.
    pub fn get_vertex_near(&self, near: &Vec<bool>) -> (found: Option<u32>)
        requires
            near@.len() == self@.num_vertices,
            self@.num_vertices <= 0x1_0000_0000,
        ensures
            match found {
                Some(v) => v < self@.num_vertices && near@[v as int] && forall|k: int|
                    0 <= k < v ==> !near@[k],
                None => forall|k: int| 0 <= k < near@.len() ==> !near@[k],
            },
    {
        let mut idx: usize = 0;
        while idx < near.len()
            invariant
                idx <= near@.len(),
                near@.len() == self@.num_vertices,
                near@.len() <= 0x1_0000_0000,
                forall|k: int| 0 <= k < idx ==> !near@[k],
            decreases near@.len() - idx,
        {
            if near[idx] {
                return Some(idx as u32);
            }
            idx += 1;
        }
        None
    }

    /// The triangles, in the order of their ids.
    pub fn triangles(&self) -> (r: &Vec<Triangle>)
        ensures
            r@ == self@.triangles,
    {
        &self.triangles
    }

    /// The colour table.
    pub fn colors(&self) -> (r: &Vec<Color>)
        ensures
            r@ == self@.colors,
    {
        &self.colors
    }
}

} // verus!
