//! The puzzle as a transition system over sets of edges. A state is the set
//! of edges the player has drawn together with the set of edges that have
//! become permanent; every counter and index the engine keeps is a function
//! of these two and of the mesh.

use vstd::prelude::*;
use crate::edge::{Edge, canonical, touches};
use crate::mesh_model::{
    MeshView, Triangle, mesh_wf, valid_triangle, has_edge, is_mesh_edge, incident_edges,
    connected_count, fully_connected,
};

verus! {

/// What a puzzle state is: the drawn edges and the permanent ones.
pub struct StateView {
    pub connected: Set<Edge>,
    pub permanent_edges: Set<Edge>,
}

/// One request of the player.
pub enum Move {
    Connect(Edge),
    Disconnect(Edge),
    DisconnectFromVertex(u32),
}

/// The state of a fresh puzzle: nothing drawn, nothing permanent.
pub open spec fn initial() -> StateView {
    StateView { connected: Set::empty(), permanent_edges: Set::empty() }
}

/// How many edges triangle `t` still lacks.
pub open spec fn remaining(m: MeshView, connected: Set<Edge>, t: int) -> nat {
    (3 - connected_count(m.triangles[t], connected)) as nat
}

/// The triangles all of whose edges are drawn.
pub open spec fn unlocked(m: MeshView, connected: Set<Edge>) -> Set<usize> {
    Set::new(|t: usize| t < m.triangles.len() && fully_connected(m.triangles[t as int], connected))
}

/// Whether every triangle of the mesh is unlocked.
pub open spec fn all_unlocked(m: MeshView, connected: Set<Edge>) -> bool {
    forall|t: int|
        0 <= t < m.triangles.len() ==> fully_connected(#[trigger] m.triangles[t], connected)
}

/// The drawn edges that end in `v`.
pub open spec fn connected_at(connected: Set<Edge>, v: u32) -> Set<Edge> {
    Set::new(|e: Edge| connected.contains(e) && touches(e, v))
}

/// The permanent edges that end in `v`.
pub open spec fn permanent_at(permanent: Set<Edge>, v: u32) -> Set<Edge> {
    Set::new(|e: Edge| permanent.contains(e) && touches(e, v))
}

/// A vertex is permanent when it has mesh edges and all of them are
/// permanent.
pub open spec fn vertex_is_permanent(m: MeshView, permanent: Set<Edge>, v: u32) -> bool {
    &&& exists|e: Edge| incident_edges(m.triangles, v).contains(e)
    &&& incident_edges(m.triangles, v).subset_of(permanent)
}

/// The permanent vertices.
pub open spec fn permanent_vertices(m: MeshView, permanent: Set<Edge>) -> Set<u32> {
    Set::new(|v: u32| vertex_is_permanent(m, permanent, v))
}

/// The edges of the triangles that drawing the canonical edge `c` completes.
pub open spec fn completed_by(m: MeshView, connected: Set<Edge>, c: Edge) -> Set<Edge> {
    Set::new(
        |x: Edge|
            exists|t: int|
                0 <= t < m.triangles.len() && has_edge(#[trigger] m.triangles[t], c) && has_edge(
                    m.triangles[t],
                    x,
                ) && fully_connected(m.triangles[t], connected.insert(c)),
    )
}

/// Drawing an edge. An edge that is drawn already changes nothing; otherwise
/// the edge joins the drawn ones, and the edges of every triangle it
/// completes become permanent.
pub open spec fn connect(m: MeshView, s: StateView, e: Edge) -> StateView {
    let c = canonical(e);
    if s.connected.contains(c) {
        s
    } else {
        StateView {
            connected: s.connected.insert(c),
            permanent_edges: s.permanent_edges + completed_by(m, s.connected, c),
        }
    }
}

/// Erasing an edge. Permanence stays as it is.
pub open spec fn disconnect(m: MeshView, s: StateView, e: Edge) -> StateView {
    StateView { connected: s.connected.remove(canonical(e)), permanent_edges: s.permanent_edges }
}

/// Erasing every drawn edge at `v` that is not permanent.
pub open spec fn disconnect_from_vertex(m: MeshView, s: StateView, v: u32) -> StateView {
    StateView {
        connected: Set::new(
            |x: Edge| s.connected.contains(x) && !(touches(x, v) && !s.permanent_edges.contains(x)),
        ),
        permanent_edges: s.permanent_edges,
    }
}

/// Whether a move names vertices of the mesh only.
pub open spec fn valid_move(m: MeshView, mv: Move) -> bool {
    match mv {
        Move::Connect(e) => e.0 < m.num_vertices && e.1 < m.num_vertices,
        Move::Disconnect(e) => e.0 < m.num_vertices && e.1 < m.num_vertices,
        Move::DisconnectFromVertex(v) => v < m.num_vertices,
    }
}

pub open spec fn step(m: MeshView, s: StateView, mv: Move) -> StateView {
    match mv {
        Move::Connect(e) => connect(m, s, e),
        Move::Disconnect(e) => disconnect(m, s, e),
        Move::DisconnectFromVertex(v) => disconnect_from_vertex(m, s, v),
    }
}

/// The state after a sequence of moves, first to last.
pub open spec fn run(m: MeshView, s: StateView, moves: Seq<Move>) -> StateView
    decreases moves.len(),
{
    if moves.len() == 0 {
        s
    } else {
        step(m, run(m, s, moves.drop_last()), moves.last())
    }
}

/// What holds of every state that play can reach: both sets are finite, drawn
/// edges are canonical pairs of vertices of the mesh, permanent edges are
/// mesh edges, and the edges of every unlocked triangle are permanent.
pub open spec fn state_wf(m: MeshView, s: StateView) -> bool {
    &&& s.connected.finite()
    &&& s.permanent_edges.finite()
    &&& forall|e: Edge| #[trigger]
        s.connected.contains(e) ==> canonical(e) == e && e.0 < m.num_vertices && e.1
            < m.num_vertices
    &&& forall|e: Edge| #[trigger] s.permanent_edges.contains(e) ==> is_mesh_edge(m.triangles, e)
    &&& forall|t: int, x: Edge|
        0 <= t < m.triangles.len() && fully_connected(m.triangles[t], s.connected) && has_edge(
            #[trigger] m.triangles[t],
            x,
        ) ==> #[trigger] s.permanent_edges.contains(x)
}

/// The edges that drawing `c` makes permanent are mesh edges, finitely many.
proof fn lemma_completed_by_finite(m: MeshView, connected: Set<Edge>, c: Edge)
    ensures
        completed_by(m, connected, c).finite(),
        forall|x: Edge| #[trigger]
            completed_by(m, connected, c).contains(x) ==> is_mesh_edge(m.triangles, x),
{
    lemma_edges_of_mesh_finite(m.triangles, m.triangles.len() as int);
    let all = mesh_edges_upto(m.triangles, m.triangles.len() as int);
    assert(completed_by(m, connected, c).subset_of(all)) by {
        assert forall|x: Edge| completed_by(m, connected, c).contains(x) implies all.contains(
            x,
        ) by {
            let t = choose|t: int|
                0 <= t < m.triangles.len() && has_edge(#[trigger] m.triangles[t], c) && has_edge(
                    m.triangles[t],
                    x,
                ) && fully_connected(m.triangles[t], connected.insert(c));
            assert(has_edge(m.triangles[t], x));
        }
    }
    vstd::set_lib::lemma_set_subset_finite(all, completed_by(m, connected, c));
}

/// The edges of the first `n` triangles.
spec fn mesh_edges_upto(triangles: Seq<Triangle>, n: int) -> Set<Edge> {
    Set::new(
        |x: Edge|
            exists|t: int| 0 <= t < n && t < triangles.len() && has_edge(#[trigger] triangles[t], x),
    )
}

proof fn lemma_edges_of_mesh_finite(triangles: Seq<Triangle>, n: int)
    requires
        0 <= n <= triangles.len(),
    ensures
        mesh_edges_upto(triangles, n).finite(),
    decreases n,
{
    if n == 0 {
        assert(mesh_edges_upto(triangles, 0) =~= Set::<Edge>::empty());
    } else {
        lemma_edges_of_mesh_finite(triangles, n - 1);
        let t = triangles[n - 1];
        let prev = mesh_edges_upto(triangles, n - 1);
        let now = prev.insert(canonical((t.v0, t.v1))).insert(canonical((t.v1, t.v2))).insert(
            canonical((t.v0, t.v2)),
        );
        assert(mesh_edges_upto(triangles, n) =~= now) by {
            assert forall|x: Edge| mesh_edges_upto(triangles, n).contains(x) <==> now.contains(
                x,
            ) by {
                if mesh_edges_upto(triangles, n).contains(x) {
                    let k = choose|k: int|
                        0 <= k < n && k < triangles.len() && has_edge(#[trigger] triangles[k], x);
                    if k < n - 1 {
                        assert(prev.contains(x));
                    }
                }
                if prev.contains(x) {
                    let k = choose|k: int|
                        0 <= k < n - 1 && k < triangles.len() && has_edge(
                            #[trigger] triangles[k],
                            x,
                        );
                    assert(has_edge(triangles[k], x));
                }
                if has_edge(t, x) {
                    assert(has_edge(triangles[n - 1], x));
                }
            }
        }
    }
}

/// A fresh puzzle is well formed.
pub proof fn lemma_initial_wf(m: MeshView)
    requires
        mesh_wf(m),
    ensures
        state_wf(m, initial()),
{
}

/// Drawing an edge between vertices of the mesh keeps the state well formed.
pub proof fn lemma_connect_wf(m: MeshView, s: StateView, e: Edge)
    requires
        mesh_wf(m),
        state_wf(m, s),
        e.0 < m.num_vertices,
        e.1 < m.num_vertices,
    ensures
        state_wf(m, connect(m, s, e)),
{
    let c = canonical(e);
    let after = connect(m, s, e);
    if !s.connected.contains(c) {
        lemma_completed_by_finite(m, s.connected, c);
        assert forall|t: int, x: Edge|
            0 <= t < m.triangles.len() && fully_connected(m.triangles[t], after.connected)
                && has_edge(#[trigger] m.triangles[t], x) implies #[trigger] after.permanent_edges.contains(
            x,
        ) by {
            if has_edge(m.triangles[t], c) {
                assert(completed_by(m, s.connected, c).contains(x));
            } else {
                assert(fully_connected(m.triangles[t], s.connected));
            }
        }
    }
}

/// Erasing an edge keeps the state well formed.
pub proof fn lemma_disconnect_wf(m: MeshView, s: StateView, e: Edge)
    requires
        state_wf(m, s),
    ensures
        state_wf(m, disconnect(m, s, e)),
{
    let after = disconnect(m, s, e);
    assert forall|t: int, x: Edge|
        0 <= t < m.triangles.len() && fully_connected(m.triangles[t], after.connected) && has_edge(
            #[trigger] m.triangles[t],
            x,
        ) implies #[trigger] after.permanent_edges.contains(x) by {
        assert(fully_connected(m.triangles[t], s.connected));
    }
}

/// Erasing the edges at a vertex keeps the state well formed.
pub proof fn lemma_disconnect_from_vertex_wf(m: MeshView, s: StateView, v: u32)
    requires
        state_wf(m, s),
    ensures
        state_wf(m, disconnect_from_vertex(m, s, v)),
{
    let after = disconnect_from_vertex(m, s, v);
    assert(after.connected.subset_of(s.connected));
    vstd::set_lib::lemma_set_subset_finite(s.connected, after.connected);
    assert forall|t: int, x: Edge|
        0 <= t < m.triangles.len() && fully_connected(m.triangles[t], after.connected) && has_edge(
            #[trigger] m.triangles[t],
            x,
        ) implies #[trigger] after.permanent_edges.contains(x) by {
        assert(fully_connected(m.triangles[t], s.connected));
    }
}

/// Every sequence of valid moves leads from a well-formed state to a
/// well-formed state.
pub proof fn lemma_run_wf(m: MeshView, s: StateView, moves: Seq<Move>)
    requires
        mesh_wf(m),
        state_wf(m, s),
        forall|i: int| 0 <= i < moves.len() ==> valid_move(m, #[trigger] moves[i]),
    ensures
        state_wf(m, run(m, s, moves)),
    decreases moves.len(),
{
    if moves.len() > 0 {
        let front = moves.drop_last();
        assert forall|i: int| 0 <= i < front.len() implies valid_move(m, #[trigger] front[i]) by {
            assert(front[i] == moves[i]);
        }
        lemma_run_wf(m, s, front);
        let before = run(m, s, front);
        assert(valid_move(m, moves[moves.len() - 1]));
        match moves.last() {
            Move::Connect(e) => lemma_connect_wf(m, before, e),
            Move::Disconnect(e) => lemma_disconnect_wf(m, before, e),
            Move::DisconnectFromVertex(v) => lemma_disconnect_from_vertex_wf(m, before, v),
        }
    }
}

/// The count of a triangle goes down by one when one of its edges is newly
/// drawn, and is untouched by any other edge.
pub proof fn lemma_connect_remaining(m: MeshView, s: StateView, e: Edge, t: int)
    requires
        mesh_wf(m),
        0 <= t < m.triangles.len(),
        !s.connected.contains(canonical(e)),
    ensures
        remaining(m, connect(m, s, e).connected, t) == if has_edge(m.triangles[t], canonical(e)) {
            remaining(m, s.connected, t) - 1
        } else {
            remaining(m, s.connected, t) as int
        },
{
    assert(valid_triangle(m.triangles[t], m.num_vertices, m.colors.len()));
}

/// The count of a triangle goes up by one when one of its drawn edges is
/// erased, and is untouched by any other edge.
pub proof fn lemma_disconnect_remaining(m: MeshView, s: StateView, e: Edge, t: int)
    requires
        mesh_wf(m),
        0 <= t < m.triangles.len(),
        s.connected.contains(canonical(e)),
    ensures
        remaining(m, disconnect(m, s, e).connected, t) == if has_edge(
            m.triangles[t],
            canonical(e),
        ) {
            remaining(m, s.connected, t) + 1
        } else {
            remaining(m, s.connected, t)
        },
{
    assert(valid_triangle(m.triangles[t], m.num_vertices, m.colors.len()));
}

/// Whether erasing at `v` erases the edge `x`: it is drawn, ends in `v`
/// and is not permanent.
pub open spec fn erased_at(s: StateView, v: u32, x: Edge) -> bool {
    s.connected.contains(x) && touches(x, v) && !s.permanent_edges.contains(x)
}

/// By how much a move changes the counter of triangle `t`, as the engine
/// keeps it: one down for an edge of the triangle that is newly drawn, one
/// up for each drawn edge of the triangle that is erased.
pub open spec fn counter_change(m: MeshView, s: StateView, mv: Move, t: int) -> int {
    let triangle = m.triangles[t];
    match mv {
        Move::Connect(e) => if !s.connected.contains(canonical(e)) && has_edge(
            triangle,
            canonical(e),
        ) {
            -1
        } else {
            0
        },
        Move::Disconnect(e) => if s.connected.contains(canonical(e)) && has_edge(
            triangle,
            canonical(e),
        ) {
            1
        } else {
            0
        },
        Move::DisconnectFromVertex(v) => {
            let a: int = if erased_at(s, v, canonical((triangle.v0, triangle.v1))) { 1 } else { 0 };
            let b: int = if erased_at(s, v, canonical((triangle.v1, triangle.v2))) { 1 } else { 0 };
            let c: int = if erased_at(s, v, canonical((triangle.v0, triangle.v2))) { 1 } else { 0 };
            a + b + c
        },
    }
}

/// The counter of triangle `t` after `moves` on a fresh puzzle, kept move
/// by move from its start at three.
pub open spec fn counter_after(m: MeshView, moves: Seq<Move>, t: int) -> int
    decreases moves.len(),
{
    if moves.len() == 0 {
        3
    } else {
        counter_after(m, moves.drop_last(), t) + counter_change(
            m,
            run(m, initial(), moves.drop_last()),
            moves.last(),
            t,
        )
    }
}

/// After every sequence of moves, the counter of a triangle is three less
/// the number of its edges that are drawn.
pub proof fn lemma_counter_is_three_less_drawn(m: MeshView, moves: Seq<Move>, t: int)
    requires
        mesh_wf(m),
        0 <= t < m.triangles.len(),
    ensures
        counter_after(m, moves, t) == 3 - connected_count(
            m.triangles[t],
            run(m, initial(), moves).connected,
        ),
    decreases moves.len(),
{
    assert(valid_triangle(m.triangles[t], m.num_vertices, m.colors.len()));
    if moves.len() > 0 {
        lemma_counter_is_three_less_drawn(m, moves.drop_last(), t);
    }
}

/// A triangle is unlocked exactly when it lacks no edge.
pub proof fn lemma_unlocked_iff_none_remaining(m: MeshView, connected: Set<Edge>, t: int)
    requires
        0 <= t < m.triangles.len(),
    ensures
        fully_connected(m.triangles[t], connected) <==> remaining(m, connected, t) == 0,
        remaining(m, connected, t) <= 3,
{
}

/// Drawing the same edge a second time changes nothing.
pub proof fn lemma_connect_idempotent(m: MeshView, s: StateView, e: Edge)
    ensures
        connect(m, connect(m, s, e), e) == connect(m, s, e),
{
}

/// Erasing the same edge a second time changes nothing.
pub proof fn lemma_disconnect_idempotent(m: MeshView, s: StateView, e: Edge)
    ensures
        disconnect(m, disconnect(m, s, e), e) == disconnect(m, s, e),
{
    let once = disconnect(m, s, e);
    assert(once.connected.remove(canonical(e)) =~= once.connected);
}

/// No move takes an edge out of the permanent ones.
pub proof fn lemma_step_keeps_permanent(m: MeshView, s: StateView, mv: Move)
    ensures
        s.permanent_edges.subset_of(step(m, s, mv).permanent_edges),
{
}

/// No sequence of moves takes an edge out of the permanent ones.
pub proof fn lemma_run_keeps_permanent(m: MeshView, s: StateView, moves: Seq<Move>)
    ensures
        s.permanent_edges.subset_of(run(m, s, moves).permanent_edges),
    decreases moves.len(),
{
    if moves.len() > 0 {
        lemma_run_keeps_permanent(m, s, moves.drop_last());
        lemma_step_keeps_permanent(m, run(m, s, moves.drop_last()), moves.last());
    }
}

/// A permanent vertex stays permanent under every sequence of moves.
pub proof fn lemma_run_keeps_permanent_vertices(m: MeshView, s: StateView, moves: Seq<Move>)
    ensures
        permanent_vertices(m, s.permanent_edges).subset_of(
            permanent_vertices(m, run(m, s, moves).permanent_edges),
        ),
{
    lemma_run_keeps_permanent(m, s, moves);
}

/// At a permanent vertex whose drawn edges are all permanent, erasing the
/// edges at the vertex changes nothing.
pub proof fn lemma_disconnect_from_vertex_noop(m: MeshView, s: StateView, v: u32)
    requires
        connected_at(s.connected, v).subset_of(s.permanent_edges),
    ensures
        disconnect_from_vertex(m, s, v) == s,
{
    let after = disconnect_from_vertex(m, s, v);
    assert forall|x: Edge| after.connected.contains(x) <==> s.connected.contains(x) by {
        if s.connected.contains(x) && touches(x, v) {
            assert(connected_at(s.connected, v).contains(x));
        }
    }
    assert(after.connected =~= s.connected);
}

} // verus!
