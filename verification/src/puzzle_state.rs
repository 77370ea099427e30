//! The state of a puzzle in play: which edges are drawn, which triangles are
//! unlocked, and which edges and vertices have become permanent.

use vstd::prelude::*;
use std::collections::HashSet;
use crate::edge::{
    Edge, EdgeSet, canonical, canonical_edge, touches, without, without_all, lemma_without_absent,
    lemma_without_twice,
};
use crate::geometry::PuzzleData;
use crate::mesh_model::{
    MeshView, mesh_wf, has_edge, triangle_edges, triangles_with_edge, is_mesh_edge,
    incident_edges, fully_connected, lemma_triangle_edges, lemma_triangles_with_edge,
    lemma_mesh_edge_shape,
};
use crate::state_model::{
    StateView, initial, remaining, unlocked, all_unlocked, connected_at, permanent_at,
    vertex_is_permanent, permanent_vertices, completed_by, connect, disconnect,
    disconnect_from_vertex, erased_at, state_wf,
};

verus! {

broadcast use vstd::std_specs::hash::group_hash_axioms;

/// A set of indices below `n` is finite, has at most `n` members, and has
/// `n` of them only if it holds every index below `n`.
proof fn lemma_bounded_set(s: Set<usize>, n: nat)
    requires
        n <= usize::MAX,
        forall|x: usize| s.contains(x) ==> x < n,
    ensures
        s.finite(),
        s.len() <= n,
        s.len() == n <==> (forall|x: usize| x < n ==> s.contains(x)),
    decreases n,
{
    if n == 0 {
        assert(s =~= Set::<usize>::empty());
    } else {
        let top = (n - 1) as usize;
        let rest = s.remove(top);
        lemma_bounded_set(rest, (n - 1) as nat);
        if s.contains(top) {
            assert(s =~= rest.insert(top));
        } else {
            assert(s =~= rest);
        }
        if forall|x: usize| x < n ==> s.contains(x) {
            assert forall|x: usize| x < n - 1 implies rest.contains(x) by {}
        }
        if s.len() == n {
            assert(s.contains(top));
            assert forall|x: usize| x < n implies s.contains(x) by {
                if x != top {
                    assert(rest.contains(x));
                }
            }
        }
    }
}

/// Whether `t` is among the first `k` entries of `list`.
spec fn seen(list: Seq<usize>, k: int, t: int) -> bool {
    exists|j: int| 0 <= j < k && #[trigger] list[j] == t
}

/// The edges of those among the first `k` triangles of `list` that are fully
/// drawn.
spec fn marked(m: MeshView, drawn: Set<Edge>, list: Seq<usize>, k: int) -> Set<Edge> {
    Set::new(
        |x: Edge|
            exists|j: int|
                0 <= j < k && fully_connected(
                    m.triangles[(#[trigger] list[j]) as int],
                    drawn,
                ) && has_edge(m.triangles[list[j] as int], x),
    )
}

proof fn lemma_push_to_set(s: Seq<Edge>, e: Edge)
    ensures
        s.push(e).to_set() == s.to_set().insert(e),
{
    let more = s.push(e);
    assert forall|x: Edge| more.contains(x) <==> (x == e || s.contains(x)) by {
        if more.contains(x) {
            let j = choose|j: int| 0 <= j < more.len() && more[j] == x;
            if j < s.len() {
                assert(s[j] == x);
            }
        }
        if x == e {
            assert(more[s.len() as int] == e);
        }
        if s.contains(x) {
            let j = choose|j: int| 0 <= j < s.len() && s[j] == x;
            assert(more[j] == x);
        }
    }
    assert(more.to_set() =~= s.to_set().insert(e));
}

/// One more triangle of the list adds its edges if it is fully drawn, and
/// nothing otherwise.
proof fn lemma_marked_step(m: MeshView, drawn: Set<Edge>, list: Seq<usize>, k: int)
    requires
        0 <= k < list.len(),
    ensures
        marked(m, drawn, list, k + 1) == if fully_connected(m.triangles[list[k] as int], drawn) {
            marked(m, drawn, list, k) + triangle_edges(m.triangles[list[k] as int]).to_set()
        } else {
            marked(m, drawn, list, k)
        },
{
    let t = m.triangles[list[k] as int];
    lemma_triangle_edges(t);
    let more = marked(m, drawn, list, k + 1);
    let less = marked(m, drawn, list, k);
    assert forall|x: Edge| more.contains(x) <==> (less.contains(x) || (fully_connected(t, drawn)
        && has_edge(t, x))) by {
        if more.contains(x) {
            let j = choose|j: int|
                0 <= j < k + 1 && fully_connected(m.triangles[(#[trigger] list[j]) as int], drawn)
                    && has_edge(m.triangles[list[j] as int], x);
            if j < k {
                assert(less.contains(x));
            }
        }
        if less.contains(x) {
            let j = choose|j: int|
                0 <= j < k && fully_connected(m.triangles[(#[trigger] list[j]) as int], drawn)
                    && has_edge(m.triangles[list[j] as int], x);
            assert(0 <= j < k + 1);
        }
        if fully_connected(t, drawn) && has_edge(t, x) {
            assert(fully_connected(m.triangles[list[k] as int], drawn));
        }
    }
    if fully_connected(t, drawn) {
        assert(more =~= less + triangle_edges(t).to_set());
    } else {
        assert(more =~= less);
    }
}

/// Over the whole list of the triangles at `c`, the marked edges are those
/// that drawing `c` completes.
proof fn lemma_marked_all(m: MeshView, connected: Set<Edge>, c: Edge, list: Seq<usize>)
    requires
        m.triangles.len() <= usize::MAX,
        list == triangles_with_edge(m.triangles, c),
    ensures
        marked(m, connected.insert(c), list, list.len() as int) == completed_by(m, connected, c),
{
    lemma_triangles_with_edge(m.triangles, c);
    let drawn = connected.insert(c);
    let a = marked(m, drawn, list, list.len() as int);
    let b = completed_by(m, connected, c);
    assert forall|x: Edge| a.contains(x) <==> b.contains(x) by {
        if a.contains(x) {
            let j = choose|j: int|
                0 <= j < list.len() && fully_connected(
                    m.triangles[(#[trigger] list[j]) as int],
                    drawn,
                ) && has_edge(m.triangles[list[j] as int], x);
            let t = list[j] as int;
            assert(has_edge(m.triangles[t], c));
        }
        if b.contains(x) {
            let t = choose|t: int|
                0 <= t < m.triangles.len() && has_edge(#[trigger] m.triangles[t], c) && has_edge(
                    m.triangles[t],
                    x,
                ) && fully_connected(m.triangles[t], drawn);
            assert(list.contains(t as usize));
            let j = choose|j: int| 0 <= j < list.len() && list[j] == t as usize;
            assert(fully_connected(m.triangles[list[j] as int], drawn));
        }
    }
    assert(a =~= b);
}

/// The unlocked triangles are as many as the triangles of the mesh exactly
/// when every triangle has all three of its edges drawn.
pub proof fn lemma_finished_iff_all_unlocked(m: MeshView, connected: Set<Edge>)
    requires
        m.triangles.len() <= usize::MAX,
    ensures
        unlocked(m, connected).finite(),
        unlocked(m, connected).len() == m.triangles.len() <==> all_unlocked(m, connected),
{
    let set = unlocked(m, connected);
    lemma_bounded_set(set, m.triangles.len());
    if all_unlocked(m, connected) {
        assert forall|x: usize| x < m.triangles.len() implies set.contains(x) by {
            assert(fully_connected(m.triangles[x as int], connected));
        }
    }
    if forall|x: usize| x < m.triangles.len() ==> set.contains(x) {
        assert forall|t: int| 0 <= t < m.triangles.len() implies fully_connected(
            #[trigger] m.triangles[t],
            connected,
        ) by {
            assert(set.contains(t as usize));
        }
    }
}

/// The state of one puzzle over one mesh.
pub struct PuzzleState {
    triangle_reqs: Vec<u32>,
    unlocked_triangles: HashSet<usize>,
    connected_edges: EdgeSet,
    connected_edges_by_vertex: Vec<EdgeSet>,
    permanent_edges_by_vertex: Vec<usize>,
    permanent_edges: EdgeSet,
    permanent_vertices: HashSet<u32>,
    mesh: Ghost<MeshView>,
}

impl PuzzleState {
    /// The drawn edges and the permanent edges.
    pub closed spec fn view(&self) -> StateView {
        StateView {
            connected: self.connected_edges@,
            permanent_edges: self.permanent_edges@,
        }
    }

    /// The mesh that this state was made for.
    pub closed spec fn mesh(&self) -> MeshView {
        self.mesh@
    }

    /// The drawn edges in the order in which they were drawn.
    pub closed spec fn drawn(&self) -> Seq<Edge> {
        self.connected_edges.order()
    }

    /// The set of drawn edges and its per-vertex index agree.
    spec fn drawn_wf(&self) -> bool {
        &&& self.connected_edges.wf()
        &&& self.connected_edges_by_vertex@.len() == self.mesh@.num_vertices
        &&& forall|v: u32|
            v < self.mesh@.num_vertices ==> (#[trigger] self.connected_edges_by_vertex@[v as int]).wf()
                && self.connected_edges_by_vertex@[v as int]@ == connected_at(
                self.connected_edges@,
                v,
            )
    }

    /// The permanent edges, their per-vertex counts and the permanent
    /// vertices agree.
    spec fn permanence_wf(&self) -> bool {
        &&& mesh_wf(self.mesh@)
        &&& self.permanent_edges.wf()
        &&& forall|e: Edge| #[trigger]
            self.permanent_edges@.contains(e) ==> is_mesh_edge(self.mesh@.triangles, e)
        &&& self.permanent_edges_by_vertex@.len() == self.mesh@.num_vertices
        &&& forall|v: u32|
            v < self.mesh@.num_vertices ==> (#[trigger] self.permanent_edges_by_vertex@[v as int])
                == permanent_at(self.permanent_edges@, v).len()
        &&& self.permanent_vertices@ == permanent_vertices(self.mesh@, self.permanent_edges@)
    }

    /// The counters and the set of unlocked triangles are those of the
    /// drawn edges `connected`.
    spec fn counters_wf(&self, connected: Set<Edge>) -> bool {
        &&& self.triangle_reqs@.len() == self.mesh@.triangles.len()
        &&& forall|t: int|
            0 <= t < self.mesh@.triangles.len() ==> (#[trigger] self.triangle_reqs@[t]) == remaining(
                self.mesh@,
                connected,
                t,
            )
        &&& self.unlocked_triangles@ == unlocked(self.mesh@, connected)
    }

    /// All that the state keeps is consistent: every triangle's counter is
    /// three less the number of its drawn edges, the unlocked triangles are
    /// those with counter zero, and the indices by vertex match the sets.
    pub closed spec fn wf(&self) -> bool {
        &&& mesh_wf(self.mesh@)
        &&& state_wf(self.mesh@, self@)
        &&& self.drawn_wf()
        &&& self.permanence_wf()
        &&& self.counters_wf(self.connected_edges@)
    }

    /// What well-formedness says of the model.
    pub proof fn lemma_wf(&self)
        requires
            self.wf(),
        ensures
            mesh_wf(self.mesh()),
            state_wf(self.mesh(), self@),
            self.drawn().no_duplicates(),
            self.drawn().to_set() == self@.connected,
    {
    }

    /// A fresh state for the mesh `data`: nothing drawn, every triangle
    /// three edges short.
    pub fn from_data(data: &PuzzleData) -> (state: PuzzleState)
        ensures
            state.wf(),
            state.mesh() == data@,
            state@ == initial(),
            state.drawn() == Seq::<Edge>::empty(),
    {
        let num_triangles = data.num_triangles();
        let num_vertices = data.num_vertices();
        let mut triangle_reqs: Vec<u32> = Vec::new();
        let mut t: usize = 0;
        while t < num_triangles
            invariant
                t <= num_triangles,
                triangle_reqs@.len() == t,
                forall|k: int| 0 <= k < t ==> triangle_reqs@[k] == 3,
            decreases num_triangles - t,
        {
            triangle_reqs.push(3);
            t += 1;
        }
        let mut connected_edges_by_vertex: Vec<EdgeSet> = Vec::new();
        let mut permanent_edges_by_vertex: Vec<usize> = Vec::new();
        let mut v: usize = 0;
        while v < num_vertices
            invariant
                v <= num_vertices,
                connected_edges_by_vertex@.len() == v,
                permanent_edges_by_vertex@.len() == v,
                forall|k: int|
                    0 <= k < v ==> (#[trigger] connected_edges_by_vertex@[k]).wf()
                        && connected_edges_by_vertex@[k]@ == Set::<Edge>::empty(),
                forall|k: int| 0 <= k < v ==> permanent_edges_by_vertex@[k] == 0,
            decreases num_vertices - v,
        {
            connected_edges_by_vertex.push(EdgeSet::new());
            permanent_edges_by_vertex.push(0);
            v += 1;
        }
        let state = PuzzleState {
            triangle_reqs,
            unlocked_triangles: HashSet::new(),
            connected_edges: EdgeSet::new(),
            connected_edges_by_vertex,
            permanent_edges_by_vertex,
            permanent_edges: EdgeSet::new(),
            permanent_vertices: HashSet::new(),
            mesh: Ghost(data@),
        };
        proof {
            let m = data@;
            let none = Set::<Edge>::empty();
            assert(state@ == initial());
            assert(unlocked(m, none) =~= Set::<usize>::empty());
            assert(permanent_vertices(m, none) =~= Set::<u32>::empty()) by {
                assert forall|v: u32| !vertex_is_permanent(m, none, v) by {
                    if vertex_is_permanent(m, none, v) {
                        let e = choose|e: Edge| incident_edges(m.triangles, v).contains(e);
                        assert(none.contains(e));
                    }
                }
            }
            assert forall|v: u32| #[trigger] connected_at(none, v) == Set::<Edge>::empty() by {
                assert(connected_at(none, v) =~= Set::<Edge>::empty());
            }
            assert forall|v: u32| #[trigger] permanent_at(none, v).len() == 0 by {
                assert(permanent_at(none, v) =~= Set::<Edge>::empty());
            }
        }
        state
    }

    /// Counts the new permanent edge at its endpoint `v`, and makes `v`
    /// permanent when that was the last of its mesh edges.
    fn count_permanent_at(&mut self, data: &PuzzleData, v: u32, Ghost(x): Ghost<Edge>)
        requires
            old(self).mesh@ == data@,
            mesh_wf(data@),
            v < data@.num_vertices,
            touches(x, v),
            is_mesh_edge(data@.triangles, x),
            old(self).permanent_edges_by_vertex@.len() == data@.num_vertices,
            old(self).permanent_edges@.finite(),
            old(self).permanent_edges@.contains(x),
            forall|e: Edge| #[trigger]
                old(self).permanent_edges@.contains(e) ==> is_mesh_edge(data@.triangles, e),
            old(self).permanent_edges_by_vertex@[v as int] == permanent_at(
                old(self).permanent_edges@.remove(x),
                v,
            ).len(),
        ensures
            final(self).mesh == old(self).mesh,
            final(self).triangle_reqs == old(self).triangle_reqs,
            final(self).unlocked_triangles == old(self).unlocked_triangles,
            final(self).connected_edges == old(self).connected_edges,
            final(self).connected_edges_by_vertex == old(self).connected_edges_by_vertex,
            final(self).permanent_edges == old(self).permanent_edges,
            final(self).permanent_edges_by_vertex@ == old(self).permanent_edges_by_vertex@.update(
                v as int,
                permanent_at(old(self).permanent_edges@, v).len() as usize,
            ),
            permanent_at(old(self).permanent_edges@, v).len() <= usize::MAX,
            final(self).permanent_vertices@ == if vertex_is_permanent(
                data@,
                old(self).permanent_edges@,
                v,
            ) {
                old(self).permanent_vertices@.insert(v)
            } else {
                old(self).permanent_vertices@
            },
    {
        let total = data.num_edges_from_vertex(v);
        proof {
            let permanent = self.permanent_edges@;
            let before = permanent_at(permanent.remove(x), v);
            let now = permanent_at(permanent, v);
            let incident = incident_edges(data@.triangles, v);
            assert(now =~= before.insert(x));
            assert(now.subset_of(incident));
            vstd::set_lib::lemma_set_subset_finite(incident, now);
            vstd::set_lib::lemma_set_subset_finite(now, before);
            vstd::set_lib::lemma_len_subset(now, incident);
            assert(incident.contains(x));
            if now.len() == incident.len() {
                vstd::set_lib::lemma_subset_equality(now, incident);
                assert(incident.subset_of(permanent));
            }
            if vertex_is_permanent(data@, permanent, v) {
                assert(incident.subset_of(now));
                assert(incident =~= now);
            }
        }
        let count = self.permanent_edges_by_vertex[v as usize] + 1;
        self.permanent_edges_by_vertex[v as usize] = count;
        if count == total {
            self.permanent_vertices.insert(v);
        }
    }

    /// Makes the mesh edge `x` permanent.
    fn mark_permanent(&mut self, data: &PuzzleData, x: Edge)
        requires
            old(self).permanence_wf(),
            old(self).mesh@ == data@,
            is_mesh_edge(data@.triangles, x),
        ensures
            final(self).permanence_wf(),
            final(self).permanent_edges@ == old(self).permanent_edges@.insert(x),
            final(self).mesh == old(self).mesh,
            final(self).triangle_reqs == old(self).triangle_reqs,
            final(self).unlocked_triangles == old(self).unlocked_triangles,
            final(self).connected_edges == old(self).connected_edges,
            final(self).connected_edges_by_vertex == old(self).connected_edges_by_vertex,
    {
        let ghost m = data@;
        let ghost before = self.permanent_edges@;
        if self.permanent_edges.insert(x) {
            let ghost after = self.permanent_edges@;
            proof {
                lemma_mesh_edge_shape(m, x);
                assert(after.remove(x) =~= before);
            }
            self.count_permanent_at(data, x.0, Ghost(x));
            proof {
                assert forall|e: Edge| !(touches(e, x.1) && touches(e, x.0) && after.remove(
                    x,
                ).contains(e)) by {
                    if after.contains(e) && touches(e, x.1) && touches(e, x.0) {
                        lemma_mesh_edge_shape(m, e);
                    }
                }
            }
            self.count_permanent_at(data, x.1, Ghost(x));
            proof {
                assert forall|v: u32| v < m.num_vertices implies (
                #[trigger] self.permanent_edges_by_vertex@[v as int]) == permanent_at(
                    after,
                    v,
                ).len() by {
                    if v != x.0 && v != x.1 {
                        assert(permanent_at(after, v) =~= permanent_at(before, v));
                    }
                }
                assert(self.permanent_vertices@ =~= permanent_vertices(m, after)) by {
                    assert forall|v: u32|
                        self.permanent_vertices@.contains(v) <==> vertex_is_permanent(
                            m,
                            after,
                            v,
                        ) by {
                        assert(old(self).permanent_vertices@.contains(v) <==> vertex_is_permanent(
                            m,
                            before,
                            v,
                        ));
                        if vertex_is_permanent(m, before, v) {
                            assert(incident_edges(m.triangles, v).subset_of(after));
                        }
                        if v != x.0 && v != x.1 && vertex_is_permanent(m, after, v) {
                            assert(incident_edges(m.triangles, v).subset_of(before));
                        }
                    }
                }
            }
        } else {
            proof {
                assert(before.insert(x) =~= before);
            }
        }
    }

    /// Draws the edge between the two vertices of `edge`. Does nothing if
    /// it is drawn already. Every triangle that it completes is unlocked,
    /// and the edges of that triangle become permanent.
    pub fn connect_edge(&mut self, data: &PuzzleData, edge: &Edge)
        requires
            old(self).wf(),
            old(self).mesh() == data@,
            edge.0 < data@.num_vertices,
            edge.1 < data@.num_vertices,
        ensures
            final(self).wf(),
            final(self).mesh() == data@,
            final(self)@ == connect(data@, old(self)@, *edge),
            final(self).drawn() == if old(self)@.connected.contains(canonical(*edge)) {
                old(self).drawn()
            } else {
                old(self).drawn().push(canonical(*edge))
            },
    {
        let ghost m = data@;
        let ghost before = self@;
        let c = canonical_edge(edge);
        if !self.connected_edges.insert(c) {
            proof {
                assert(self.connected_edges@ =~= before.connected);
            }
            return ;
        }
        self.connected_edges_by_vertex[c.0 as usize].insert(c);
        self.connected_edges_by_vertex[c.1 as usize].insert(c);
        let ghost drawn = before.connected.insert(c);
        let ghost order = self.connected_edges.order();
        proof {
            assert forall|v: u32| v < m.num_vertices implies (
            #[trigger] self.connected_edges_by_vertex@[v as int]).wf()
                && self.connected_edges_by_vertex@[v as int]@ == connected_at(drawn, v) by {
                assert(old(self).connected_edges_by_vertex@[v as int]@ == connected_at(
                    before.connected,
                    v,
                ));
                if touches(c, v) {
                    assert(connected_at(drawn, v) =~= connected_at(before.connected, v).insert(c));
                } else {
                    assert(connected_at(drawn, v) =~= connected_at(before.connected, v));
                }
            }
            lemma_triangles_with_edge(m.triangles, c);
        }
        match data.triangles_with_edge(&c) {
            Some(list) => {
                let mut k: usize = 0;
                while k < list.len()
                    invariant
                        k <= list@.len(),
                        list@ == triangles_with_edge(m.triangles, c),
                        m == data@,
                        self.mesh@ == m,
                        mesh_wf(m),
                        state_wf(m, before),
                        !before.connected.contains(c),
                        drawn == before.connected.insert(c),
                        self.connected_edges@ == drawn,
                        self.connected_edges.order() == order,
                        self.drawn_wf(),
                        self.permanence_wf(),
                        self.triangle_reqs@.len() == m.triangles.len(),
                        forall|t: int|
                            0 <= t < m.triangles.len() ==> (#[trigger] self.triangle_reqs@[t])
                                == remaining(
                                m,
                                if has_edge(m.triangles[t], c) && !seen(list@, k as int, t) {
                                    before.connected
                                } else {
                                    drawn
                                },
                                t,
                            ),
                        self.unlocked_triangles@ == Set::new(
                            |t: usize|
                                t < m.triangles.len() && fully_connected(
                                    m.triangles[t as int],
                                    drawn,
                                ) && (!has_edge(m.triangles[t as int], c) || seen(
                                    list@,
                                    k as int,
                                    t as int,
                                )),
                        ),
                        self.permanent_edges@ == before.permanent_edges + marked(
                            m,
                            drawn,
                            list@,
                            k as int,
                        ),
                    decreases list@.len() - k,
                {
                    let t = list[k];
                    let ghost unlocked_before = self.unlocked_triangles@;
                    let ghost permanent_before = self.permanent_edges@;
                    proof {
                        lemma_triangles_with_edge(m.triangles, c);
                        assert(!seen(list@, k as int, t as int)) by {
                            if seen(list@, k as int, t as int) {
                                let j = choose|j: int| 0 <= j < k && list@[j] == t as int;
                                assert(list@[j] < list@[k as int]);
                            }
                        }
                        assert(has_edge(m.triangles[t as int], c));
                        assert(self.triangle_reqs@[t as int] == remaining(
                            m,
                            before.connected,
                            t as int,
                        ));
                        assert(crate::mesh_model::valid_triangle(
                            m.triangles[t as int],
                            m.num_vertices,
                            m.colors.len(),
                        ));
                        assert forall|u: int| seen(list@, k + 1, u) <==> (seen(list@, k as int, u)
                            || u == t) by {
                            if seen(list@, k + 1, u) {
                                let j = choose|j: int| 0 <= j < k + 1 && list@[j] == u;
                                if j < k {
                                    assert(seen(list@, k as int, u));
                                }
                            }
                            if seen(list@, k as int, u) {
                                let j = choose|j: int| 0 <= j < k && list@[j] == u;
                                assert(0 <= j < k + 1 && list@[j] == u);
                            }
                            if u == t {
                                assert(list@[k as int] == u);
                            }
                        }
                    }
                    let left = self.triangle_reqs[t] - 1;
                    self.triangle_reqs[t] = left;
                    if left == 0 {
                        self.unlocked_triangles.insert(t);
                        let edges = data.edges_of_triangle(t);
                        let mut j: usize = 0;
                        while j < 3
                            invariant
                                j <= 3,
                                m == data@,
                                self.mesh@ == m,
                                mesh_wf(m),
                                t < m.triangles.len(),
                                edges@ == triangle_edges(m.triangles[t as int]),
                                self.permanence_wf(),
                                self.drawn_wf(),
                                self.connected_edges@ == drawn,
                        self.connected_edges.order() == order,
                                self.unlocked_triangles@ == unlocked_before.insert(t),
                                self.permanent_edges@ == permanent_before + edges@.take(
                                    j as int,
                                ).to_set(),
                                self.triangle_reqs@.len() == m.triangles.len(),
                                forall|u: int|
                                    0 <= u < m.triangles.len() ==> (
                                    #[trigger] self.triangle_reqs@[u]) == remaining(
                                        m,
                                        if has_edge(m.triangles[u], c) && !seen(list@, k + 1, u) {
                                            before.connected
                                        } else {
                                            drawn
                                        },
                                        u,
                                    ),
                            decreases 3 - j,
                        {
                            proof {
                                lemma_triangle_edges(m.triangles[t as int]);
                                assert(has_edge(m.triangles[t as int], edges@[j as int]));
                                let shown = edges@.take(j as int);
                                assert(edges@.take(j + 1) =~= shown.push(edges@[j as int]));
                                assert(shown.push(edges@[j as int]).to_set() =~= shown.to_set().insert(
                                    edges@[j as int],
                                )) by {
                                    lemma_push_to_set(shown, edges@[j as int]);
                                }
                            }
                            self.mark_permanent(data, edges[j]);
                            j += 1;
                        }
                        proof {
                            assert(edges@.take(3) =~= edges@);
                            lemma_triangle_edges(m.triangles[t as int]);
                            assert(fully_connected(m.triangles[t as int], drawn));
                            assert(self.permanent_edges@ =~= before.permanent_edges + marked(
                                m,
                                drawn,
                                list@,
                                k + 1,
                            )) by {
                                lemma_marked_step(m, drawn, list@, k as int);
                            }
                        }
                    } else {
                        proof {
                            assert(!fully_connected(m.triangles[t as int], drawn));
                            assert(marked(m, drawn, list@, k + 1) =~= marked(
                                m,
                                drawn,
                                list@,
                                k as int,
                            )) by {
                                lemma_marked_step(m, drawn, list@, k as int);
                            }
                        }
                    }
                    proof {
                        assert(self.unlocked_triangles@ =~= Set::new(
                            |u: usize|
                                u < m.triangles.len() && fully_connected(
                                    m.triangles[u as int],
                                    drawn,
                                ) && (!has_edge(m.triangles[u as int], c) || seen(
                                    list@,
                                    k + 1,
                                    u as int,
                                )),
                        ));
                    }
                    k += 1;
                }
                proof {
                    lemma_triangles_with_edge(m.triangles, c);
                    assert forall|t: int|
                        0 <= t < m.triangles.len() && has_edge(
                            m.triangles[t],
                            c,
                        ) implies #[trigger] seen(list@, list@.len() as int, t) by {
                        assert(list@.contains(t as usize));
                        let j = choose|j: int| 0 <= j < list@.len() && list@[j] == t as usize;
                        assert(list@[j] == t);
                    }
                    assert(self.unlocked_triangles@ =~= unlocked(m, drawn));
                    lemma_marked_all(m, before.connected, c, list@);
                }
            },
            None => {
                proof {
                    assert forall|t: int| 0 <= t < m.triangles.len() implies !has_edge(
                        #[trigger] m.triangles[t],
                        c,
                    ) by {}
                    assert(unlocked(m, drawn) =~= unlocked(m, before.connected));
                    assert(completed_by(m, before.connected, c) =~= Set::<Edge>::empty());
                    assert(self.permanent_edges@ =~= before.permanent_edges + completed_by(
                        m,
                        before.connected,
                        c,
                    ));
                }
            },
        }
        proof {
            crate::state_model::lemma_connect_wf(m, before, *edge);
            assert(self@ == connect(m, before, *edge));
        }
    }

    /// Erases the edge between the two vertices of `edge`. Does nothing if
    /// it is not drawn. Every triangle that has the edge is locked again;
    /// what is permanent stays permanent.
    pub fn disconnect_edge(&mut self, data: &PuzzleData, edge: &Edge)
        requires
            old(self).wf(),
            old(self).mesh() == data@,
        ensures
            final(self).wf(),
            final(self).mesh() == data@,
            final(self)@ == disconnect(data@, old(self)@, *edge),
            final(self).drawn() == without(old(self).drawn(), canonical(*edge)),
    {
        let ghost m = data@;
        let ghost before = self@;
        let c = canonical_edge(edge);
        if !self.connected_edges.remove(&c) {
            proof {
                assert(self.connected_edges@ =~= before.connected);
            }
            return ;
        }
        self.connected_edges_by_vertex[c.0 as usize].remove(&c);
        self.connected_edges_by_vertex[c.1 as usize].remove(&c);
        let ghost drawn = before.connected.remove(c);
        let ghost order = self.connected_edges.order();
        proof {
            assert forall|v: u32| v < m.num_vertices implies (
            #[trigger] self.connected_edges_by_vertex@[v as int]).wf()
                && self.connected_edges_by_vertex@[v as int]@ == connected_at(drawn, v) by {
                assert(old(self).connected_edges_by_vertex@[v as int]@ == connected_at(
                    before.connected,
                    v,
                ));
                if touches(c, v) {
                    assert(connected_at(drawn, v) =~= connected_at(before.connected, v).remove(c));
                } else {
                    assert(connected_at(drawn, v) =~= connected_at(before.connected, v));
                    assert(connected_at(before.connected, v).remove(c) =~= connected_at(
                        before.connected,
                        v,
                    ));
                }
            }
            lemma_triangles_with_edge(m.triangles, c);
        }
        match data.triangles_with_edge(&c) {
            Some(list) => {
                let mut k: usize = 0;
                while k < list.len()
                    invariant
                        k <= list@.len(),
                        list@ == triangles_with_edge(m.triangles, c),
                        m == data@,
                        self.mesh@ == m,
                        mesh_wf(m),
                        before.connected.contains(c),
                        drawn == before.connected.remove(c),
                        self.connected_edges@ == drawn,
                        self.connected_edges.order() == order,
                        self.permanent_edges@ == before.permanent_edges,
                        self.drawn_wf(),
                        self.permanence_wf(),
                        self.triangle_reqs@.len() == m.triangles.len(),
                        forall|t: int|
                            0 <= t < m.triangles.len() ==> (#[trigger] self.triangle_reqs@[t])
                                == remaining(
                                m,
                                if has_edge(m.triangles[t], c) && !seen(list@, k as int, t) {
                                    before.connected
                                } else {
                                    drawn
                                },
                                t,
                            ),
                        self.unlocked_triangles@ == Set::new(
                            |t: usize|
                                t < m.triangles.len() && fully_connected(
                                    m.triangles[t as int],
                                    before.connected,
                                ) && !(has_edge(m.triangles[t as int], c) && seen(
                                    list@,
                                    k as int,
                                    t as int,
                                )),
                        ),
                    decreases list@.len() - k,
                {
                    let t = list[k];
                    proof {
                        lemma_triangles_with_edge(m.triangles, c);
                        assert(!seen(list@, k as int, t as int)) by {
                            if seen(list@, k as int, t as int) {
                                let j = choose|j: int| 0 <= j < k && list@[j] == t as int;
                                assert(list@[j] < list@[k as int]);
                            }
                        }
                        assert(has_edge(m.triangles[t as int], c));
                        assert(self.triangle_reqs@[t as int] == remaining(
                            m,
                            before.connected,
                            t as int,
                        ));
                        assert(crate::mesh_model::valid_triangle(
                            m.triangles[t as int],
                            m.num_vertices,
                            m.colors.len(),
                        ));
                        assert forall|u: int| seen(list@, k + 1, u) <==> (seen(list@, k as int, u)
                            || u == t) by {
                            if seen(list@, k + 1, u) {
                                let j = choose|j: int| 0 <= j < k + 1 && list@[j] == u;
                                if j < k {
                                    assert(seen(list@, k as int, u));
                                }
                            }
                            if seen(list@, k as int, u) {
                                let j = choose|j: int| 0 <= j < k && list@[j] == u;
                                assert(0 <= j < k + 1 && list@[j] == u);
                            }
                            if u == t {
                                assert(list@[k as int] == u);
                            }
                        }
                    }
                    let lacking = self.triangle_reqs[t];
                    if lacking == 0 {
                        self.unlocked_triangles.remove(&t);
                    }
                    self.triangle_reqs[t] = lacking + 1;
                    proof {
                        assert(self.unlocked_triangles@ =~= Set::new(
                            |u: usize|
                                u < m.triangles.len() && fully_connected(
                                    m.triangles[u as int],
                                    before.connected,
                                ) && !(has_edge(m.triangles[u as int], c) && seen(
                                    list@,
                                    k + 1,
                                    u as int,
                                )),
                        ));
                    }
                    k += 1;
                }
                proof {
                    lemma_triangles_with_edge(m.triangles, c);
                    assert forall|t: int|
                        0 <= t < m.triangles.len() && has_edge(
                            m.triangles[t],
                            c,
                        ) implies #[trigger] seen(list@, list@.len() as int, t) by {
                        assert(list@.contains(t as usize));
                        let j = choose|j: int| 0 <= j < list@.len() && list@[j] == t as usize;
                        assert(list@[j] == t);
                    }
                    assert(self.unlocked_triangles@ =~= unlocked(m, drawn));
                }
            },
            None => {
                proof {
                    assert forall|t: int| 0 <= t < m.triangles.len() implies !has_edge(
                        #[trigger] m.triangles[t],
                        c,
                    ) by {}
                    assert(unlocked(m, drawn) =~= unlocked(m, before.connected));
                }
            },
        }
        proof {
            crate::state_model::lemma_disconnect_wf(m, before, *edge);
            assert(self@ == disconnect(m, before, *edge));
        }
    }

    /// Erases every drawn edge at `vertex` that is not permanent. At a
    /// permanent vertex whose drawn edges are all permanent nothing is
    /// looked at further.
    pub fn disconnect_from_vertex(&mut self, data: &PuzzleData, vertex: u32)
        requires
            old(self).wf(),
            old(self).mesh() == data@,
            vertex < data@.num_vertices,
        ensures
            final(self).wf(),
            final(self).mesh() == data@,
            final(self)@ == disconnect_from_vertex(data@, old(self)@, vertex),
            final(self).drawn() == without_all(
                old(self).drawn(),
                Set::new(|x: Edge| erased_at(old(self)@, vertex, x)),
            ),
    {
        let ghost m = data@;
        let ghost before = self@;
        let ghost order = self.drawn();
        let ghost erased = Set::new(|x: Edge| erased_at(before, vertex, x));
        let edges = self.connected_edges_by_vertex[vertex as usize].to_vec();
        if self.permanent_vertices.contains(&vertex) && self.all_permanent(&edges) {
            proof {
                assert(connected_at(before.connected, vertex).subset_of(before.permanent_edges));
                crate::state_model::lemma_disconnect_from_vertex_noop(m, before, vertex);
                assert forall|x: Edge| !erased.contains(x) by {
                    if erased_at(before, vertex, x) {
                        assert(connected_at(before.connected, vertex).contains(x));
                    }
                }
                lemma_without_absent(order, erased);
            }
            return ;
        }
        proof {
            assert(Set::new(
                |x: Edge| edges@.take(0).contains(x) && !before.permanent_edges.contains(x),
            ) =~= Set::<Edge>::empty());
            lemma_without_absent(order, Set::<Edge>::empty());
        }
        let mut k: usize = 0;
        while k < edges.len()
            invariant
                k <= edges@.len(),
                m == data@,
                self.wf(),
                self.mesh@ == m,
                state_wf(m, before),
                edges@.to_set() == connected_at(before.connected, vertex),
                self@.permanent_edges == before.permanent_edges,
                self.drawn() == without_all(
                    order,
                    Set::new(
                        |x: Edge|
                            edges@.take(k as int).contains(x) && !before.permanent_edges.contains(
                                x,
                            ),
                    ),
                ),
                self@.connected == Set::new(
                    |x: Edge|
                        before.connected.contains(x) && !(edges@.take(k as int).contains(x)
                            && !before.permanent_edges.contains(x)),
                ),
            decreases edges@.len() - k,
        {
            let e = edges[k];
            let ghost drawn = self@.connected;
            let ghost gone = Set::new(
                |x: Edge| edges@.take(k as int).contains(x) && !before.permanent_edges.contains(x),
            );
            proof {
                assert(edges@.to_set().contains(e));
                assert(before.connected.contains(e));
                assert(canonical(e) == e);
                lemma_push_to_set(edges@.take(k as int), e);
                assert(edges@.take(k + 1) =~= edges@.take(k as int).push(e));
            }
            if !self.permanent_edges.contains(&e) {
                self.disconnect_edge(data, &e);
            }
            proof {
                let shown = edges@.take(k as int);
                let next = edges@.take(k + 1);
                assert forall|x: Edge| next.contains(x) <==> (shown.contains(x) || x == e) by {
                    assert(next.to_set().contains(x) <==> shown.to_set().insert(e).contains(x));
                }
                let wanted = Set::new(
                    |x: Edge|
                        before.connected.contains(x) && !(edges@.take(k + 1).contains(x)
                            && !before.permanent_edges.contains(x)),
                );
                assert forall|x: Edge| self@.connected.contains(x) <==> wanted.contains(x) by {
                    assert(drawn.contains(x) <==> (before.connected.contains(x) && !(
                    shown.contains(x) && !before.permanent_edges.contains(x))));
                }
                assert(self@.connected =~= wanted);
                let gone_next = Set::new(
                    |x: Edge| edges@.take(k + 1).contains(x) && !before.permanent_edges.contains(x),
                );
                if before.permanent_edges.contains(e) {
                    assert(gone_next =~= gone);
                } else {
                    lemma_without_twice(order, gone, set![e]);
                    assert(gone_next =~= gone + set![e]);
                }
            }
            k += 1;
        }
        proof {
            assert(edges@.take(edges@.len() as int) =~= edges@);
            assert(self@.connected =~= disconnect_from_vertex(m, before, vertex).connected) by {
                assert forall|x: Edge|
                    edges@.contains(x) <==> (before.connected.contains(x) && touches(
                        x,
                        vertex,
                    )) by {
                    assert(edges@.to_set().contains(x) <==> connected_at(
                        before.connected,
                        vertex,
                    ).contains(x));
                }
            }
            assert(self@ == disconnect_from_vertex(m, before, vertex));
            let gone = Set::new(
                |x: Edge|
                    edges@.take(edges@.len() as int).contains(x) && !before.permanent_edges.contains(
                        x,
                    ),
            );
            assert forall|x: Edge| gone.contains(x) <==> erased.contains(x) by {
                assert(edges@.to_set().contains(x) <==> connected_at(
                    before.connected,
                    vertex,
                ).contains(x));
            }
            assert(gone =~= erased);
        }
    }

    /// Whether each of `edges` is permanent.
    fn all_permanent(&self, edges: &Vec<Edge>) -> (all: bool)
        ensures
            all == edges@.to_set().subset_of(self.permanent_edges@),
    {
        let mut k: usize = 0;
        while k < edges.len()
            invariant
                k <= edges@.len(),
                forall|j: int| 0 <= j < k ==> self.permanent_edges@.contains(#[trigger] edges@[j]),
            decreases edges@.len() - k,
        {
            if !self.permanent_edges.contains(&edges[k]) {
                proof {
                    assert(edges@.to_set().contains(edges@[k as int]));
                }
                return false;
            }
            k += 1;
        }
        proof {
            assert forall|x: Edge| edges@.to_set().contains(x) implies self.permanent_edges@.contains(
                x,
            ) by {
                let j = choose|j: int| 0 <= j < edges@.len() && edges@[j] == x;
                assert(self.permanent_edges@.contains(edges@[j]));
            }
        }
        true
    }

    /// Whether every triangle is unlocked: whether the unlocked triangles
    /// are as many as the mesh has triangles.
    pub fn is_finished(&self) -> (finished: bool)
        requires
            self.wf(),
        ensures
            finished == all_unlocked(self.mesh(), self@.connected),
    {
        proof {
            lemma_finished_iff_all_unlocked(self.mesh@, self@.connected);
        }
        self.unlocked_triangles.len() == self.triangle_reqs.len()
    }

    /// The drawn edges, in the order in which they were drawn.
    pub fn get_connected_edges(&self) -> (edges: &EdgeSet)
        requires
            self.wf(),
        ensures
            edges.wf(),
            edges@ == self@.connected,
            edges.order() == self.drawn(),
    {
        &self.connected_edges
    }

    /// The ids of the unlocked triangles.
    pub fn get_unlocked_triangles(&self) -> (triangles: &HashSet<usize>)
        requires
            self.wf(),
        ensures
            triangles@ == unlocked(self.mesh(), self@.connected),
    {
        &self.unlocked_triangles
    }

    /// How many edges triangle `triangle` still lacks.
    pub fn remaining(&self, triangle: usize) -> (count: u32)
        requires
            self.wf(),
            triangle < self.mesh().triangles.len(),
        ensures
            count == remaining(self.mesh(), self@.connected, triangle as int),
            count == 3 - crate::mesh_model::connected_count(
                self.mesh().triangles[triangle as int],
                self@.connected,
            ),
    {
        self.triangle_reqs[triangle]
    }

    /// Whether `edge`, taken in canonical form, is permanent.
    pub fn is_permanent_edge(&self, edge: &Edge) -> (permanent: bool)
        requires
            self.wf(),
        ensures
            permanent == self@.permanent_edges.contains(canonical(*edge)),
    {
        let c = canonical_edge(edge);
        self.permanent_edges.contains(&c)
    }

    /// Whether `vertex` is permanent: it has mesh edges, and all of them are
    /// permanent.
    pub fn is_permanent_vertex(&self, vertex: u32) -> (permanent: bool)
        requires
            self.wf(),
        ensures
            permanent == vertex_is_permanent(self.mesh(), self@.permanent_edges, vertex),
    {
        self.permanent_vertices.contains(&vertex)
    }
}

} // verus!
