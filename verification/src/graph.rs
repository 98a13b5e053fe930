//! Cycle detection and build-order computation on the subproject reference
//! graph, over plain node indices.
//!
//! The traversal is a depth-first search with three per-node states —
//! unvisited, on the active path, finished — rooted at every node in
//! declaration order, following children in declaration order. Re-meeting a
//! node on the active path exhibits a cycle, reported as the closed walk
//! from that node; otherwise every node is appended to the output when it
//! finishes, so dependencies precede dependents in the output.
//!
//! The whole search is modelled as a small-step state machine whose step
//! function is a spec function; the executable search is proved to compute
//! exactly the machine's final state. The outcome is therefore a function of
//! the graph alone, which makes determinism a theorem rather than a hope.

use vstd::prelude::*;

verus! {

/// A directed graph on nodes `0 .. g.len()`, each node listing its children
/// in order: well-formed when every child is a node.
pub open spec fn wf_graph(g: Seq<Seq<int>>) -> bool {
    forall|u: int, j: int|
        0 <= u < g.len() && 0 <= j < g[u].len() ==> 0 <= #[trigger] g[u][j] < g.len()
}

/// The `j`-th child of node `u`.
pub open spec fn child(g: Seq<Seq<int>>, u: int, j: int) -> int {
    g[u][j]
}

/// The least index at or after `from` where `s` holds `x`, or `s.len()` if
/// there is none.
pub open spec fn first_pos(s: Seq<int>, x: int, from: int) -> int
    decreases s.len() - from,
{
    if from < 0 || from >= s.len() {
        s.len() as int
    } else if s[from] == x {
        from
    } else {
        first_pos(s, x, from + 1)
    }
}

/// `first_pos` returns the least matching index, and `s.len()` exactly when
/// there is no match.
pub proof fn lemma_first_pos(s: Seq<int>, x: int, from: int)
    requires
        0 <= from <= s.len(),
    ensures
        from <= first_pos(s, x, from) <= s.len(),
        first_pos(s, x, from) < s.len() ==> s[first_pos(s, x, from)] == x,
        forall|i: int| from <= i < first_pos(s, x, from) && i < s.len() ==> s[i] != x,
    decreases s.len() - from,
{
    if from < s.len() && s[from] != x {
        lemma_first_pos(s, x, from + 1);
    }
}

/// Appending to a sequence does not move the least index of an element
/// already present.
pub proof fn lemma_first_pos_push(s: Seq<int>, y: int, x: int)
    requires
        first_pos(s, x, 0) < s.len(),
    ensures
        first_pos(s.push(y), x, 0) == first_pos(s, x, 0),
{
    lemma_first_pos_push_from(s, y, x, 0);
}

proof fn lemma_first_pos_push_from(s: Seq<int>, y: int, x: int, from: int)
    requires
        0 <= from <= s.len(),
        first_pos(s, x, from) < s.len(),
    ensures
        first_pos(s.push(y), x, from) == first_pos(s, x, from),
    decreases s.len() - from,
{
    if s[from] != x {
        lemma_first_pos_push_from(s, y, x, from + 1);
    }
}

/// An element a sequence contains has a least index within it.
pub proof fn lemma_first_pos_found(s: Seq<int>, x: int)
    requires
        s.contains(x),
    ensures
        0 <= first_pos(s, x, 0) < s.len(),
        s[first_pos(s, x, 0)] == x,
{
    let w = choose|i: int| 0 <= i < s.len() && s[i] == x;
    lemma_first_pos(s, x, 0);
    if first_pos(s, x, 0) == s.len() {
        assert(s[w] != x);
    }
}

/// A closed walk in the graph: at least one edge, first and last node
/// equal, every hop an edge.
pub open spec fn is_cycle(g: Seq<Seq<int>>, p: Seq<int>) -> bool {
    &&& p.len() >= 2
    &&& p[0] == p[p.len() - 1]
    &&& forall|a: int|
        0 <= a < p.len() - 1 ==> 0 <= #[trigger] p[a] < g.len() && g[p[a]].contains(p[a + 1])
}

/// A dependency-respecting order: a permutation of the nodes in which every
/// child of a node appears strictly earlier than the node itself.
pub open spec fn is_topo_order(g: Seq<Seq<int>>, ord: Seq<int>) -> bool {
    &&& ord.len() == g.len()
    &&& ord.no_duplicates()
    &&& forall|p: int| 0 <= p < ord.len() ==> 0 <= #[trigger] ord[p] < g.len()
    &&& forall|u: int| 0 <= u < g.len() ==> ord.contains(u)
    &&& forall|p: int, j: int|
        #![trigger child(g, ord[p], j)]
        0 <= p < ord.len() && 0 <= j < g[ord[p]].len() ==> first_pos(ord, child(g, ord[p], j), 0)
            < p
}

/// The state of the depth-first search machine.
pub struct SearchState {
    /// Per-node state: 0 unvisited, 1 on the active path, 2 finished.
    pub color: Seq<int>,
    /// The active path, innermost last: node and index of its next child.
    pub frames: Seq<(int, int)>,
    /// Finished nodes in finish order: dependencies precede dependents.
    pub order: Seq<int>,
    /// The next node to be tried as a root.
    pub root: int,
    /// Once a cycle is met: the root whose traversal met it, and the walk.
    pub cycle: Option<(int, Seq<int>)>,
}

/// The least frame index at or after `from` holding node `v`, or the frame
/// count if there is none.
pub open spec fn first_frame_at(frames: Seq<(int, int)>, v: int, from: int) -> int
    decreases frames.len() - from,
{
    if from < 0 || from >= frames.len() {
        frames.len() as int
    } else if frames[from].0 == v {
        from
    } else {
        first_frame_at(frames, v, from + 1)
    }
}

/// The closed walk exhibited when the active path re-meets node `v`: the
/// path from `v`'s frame to the innermost frame, closed by `v` itself.
pub open spec fn cycle_walk(frames: Seq<(int, int)>, v: int) -> Seq<int> {
    let m = first_frame_at(frames, v, 0);
    frames.subrange(m, frames.len() as int).map_values(|f: (int, int)| f.0).push(v)
}

/// Whether the machine has halted: a cycle was met, or every root was tried
/// and the active path is empty.
pub open spec fn dfs_done(g: Seq<Seq<int>>, st: SearchState) -> bool {
    st.cycle is Some || (st.frames.len() == 0 && st.root >= g.len())
}

/// One step of the machine. With an empty active path the next root is
/// tried; otherwise the innermost frame either finishes its node or
/// processes its next child, which may close a cycle, open a new frame, or
/// already be finished.
pub open spec fn dfs_step(g: Seq<Seq<int>>, st: SearchState) -> SearchState {
    if dfs_done(g, st) {
        st
    } else if st.frames.len() == 0 {
        if st.color[st.root] != 0 {
            SearchState { root: st.root + 1, ..st }
        } else {
            SearchState {
                color: st.color.update(st.root, 1),
                frames: seq![(st.root, 0)],
                root: st.root + 1,
                ..st
            }
        }
    } else {
        let u = st.frames.last().0;
        let k = st.frames.last().1;
        if k >= g[u].len() {
            SearchState {
                color: st.color.update(u, 2),
                frames: st.frames.drop_last(),
                order: st.order.push(u),
                ..st
            }
        } else {
            let v = g[u][k];
            let advanced = st.frames.update(st.frames.len() - 1, (u, k + 1));
            if st.color[v] == 1 {
                SearchState { cycle: Some((st.frames[0].0, cycle_walk(st.frames, v))), ..st }
            } else if st.color[v] == 0 {
                SearchState { color: st.color.update(v, 1), frames: advanced.push((v, 0)), ..st }
            } else {
                SearchState { frames: advanced, ..st }
            }
        }
    }
}

/// The machine after at most `fuel` steps.
pub open spec fn dfs_iter(g: Seq<Seq<int>>, st: SearchState, fuel: int) -> SearchState
    decreases fuel,
{
    if fuel <= 0 {
        st
    } else {
        dfs_iter(g, dfs_step(g, st), fuel - 1)
    }
}

/// The machine's starting state on `n` nodes.
pub open spec fn dfs_init(n: int) -> SearchState {
    SearchState {
        color: Seq::new(n as nat, |u: int| 0),
        frames: Seq::empty(),
        order: Seq::empty(),
        root: 0,
        cycle: None,
    }
}

/// The weight the unvisited nodes below `bound` contribute to the measure.
pub open spec fn white_weight(g: Seq<Seq<int>>, color: Seq<int>, bound: int) -> int
    decreases bound,
{
    if bound <= 0 {
        0
    } else {
        white_weight(g, color, bound - 1) + (if color[bound - 1] == 0 {
            g[bound - 1].len() + 2
        } else {
            0
        })
    }
}

/// The weight the active path contributes to the measure.
pub open spec fn frames_weight(g: Seq<Seq<int>>, frames: Seq<(int, int)>) -> int
    decreases frames.len(),
{
    if frames.len() == 0 {
        0
    } else {
        frames_weight(g, frames.drop_last()) + (g[frames.last().0].len() - frames.last().1 + 1)
    }
}

/// A measure that strictly shrinks with every step the machine takes short
/// of halting.
pub open spec fn dfs_measure(g: Seq<Seq<int>>, st: SearchState) -> int {
    white_weight(g, st.color, g.len() as int) + frames_weight(g, st.frames) + (g.len() - st.root)
}

/// Fuel on which the machine is sure to halt from its starting state.
pub open spec fn dfs_fuel(g: Seq<Seq<int>>) -> int {
    dfs_measure(g, dfs_init(g.len() as int)) + 1
}

/// The machine's final state on graph `g`: the whole search as one value.
pub open spec fn dfs_model(g: Seq<Seq<int>>) -> SearchState {
    dfs_iter(g, dfs_init(g.len() as int), dfs_fuel(g))
}

/// The computed outcome: the build order, or the traversal root and closed
/// walk of a detected cycle.
pub open spec fn build_order_model(g: Seq<Seq<int>>) -> Result<Seq<int>, (int, Seq<int>)> {
    let st = dfs_model(g);
    match st.cycle {
        Some(c) => Err(c),
        None => Ok(st.order),
    }
}

} // verus!

verus! {

/// Whether node `u` lies on the active path.
pub open spec fn on_frames(st: SearchState, u: int) -> bool {
    exists|f: int| 0 <= f < st.frames.len() && (#[trigger] st.frames[f]).0 == u
}

/// Node states are within range.
pub open spec fn inv_colors(g: Seq<Seq<int>>, st: SearchState) -> bool {
    &&& st.color.len() == g.len()
    &&& forall|u: int| 0 <= u < g.len() ==> 0 <= #[trigger] st.color[u] <= 2
}

/// Every node below the root cursor has been reached.
pub open spec fn inv_root(g: Seq<Seq<int>>, st: SearchState) -> bool {
    &&& 0 <= st.root <= g.len()
    &&& forall|u: int| 0 <= u < st.root ==> #[trigger] st.color[u] != 0
}

/// Frames name nodes and child positions within range.
pub open spec fn inv_frames_wf(g: Seq<Seq<int>>, st: SearchState) -> bool {
    forall|f: int|
        0 <= f < st.frames.len() ==> 0 <= (#[trigger] st.frames[f]).0 < g.len() && 0
            <= st.frames[f].1 <= g[st.frames[f].0].len()
}

/// A node is on the active path exactly when its state says so.
pub open spec fn inv_gray_iff(g: Seq<Seq<int>>, st: SearchState) -> bool {
    forall|u: int| 0 <= u < g.len() ==> ((#[trigger] st.color[u] == 1) <==> on_frames(st, u))
}

/// No node occupies two frames.
pub open spec fn inv_frames_distinct(st: SearchState) -> bool {
    forall|f1: int, f2: int|
        0 <= f1 < f2 < st.frames.len() ==> (#[trigger] st.frames[f1]).0 != (
        #[trigger] st.frames[f2]).0
}

/// Consecutive frames are joined by the edge the outer frame just followed.
pub open spec fn inv_frames_edges(g: Seq<Seq<int>>, st: SearchState) -> bool {
    forall|f: int|
        0 <= f < st.frames.len() - 1 ==> (#[trigger] st.frames[f]).1 >= 1 && st.frames[f + 1].0
            == g[st.frames[f].0][st.frames[f].1 - 1]
}

/// A node is finished exactly when it stands in the output.
pub open spec fn inv_black_iff(g: Seq<Seq<int>>, st: SearchState) -> bool {
    forall|u: int| 0 <= u < g.len() ==> ((#[trigger] st.color[u] == 2) <==> st.order.contains(u))
}

/// The output lists nodes, each at most once.
pub open spec fn inv_order(g: Seq<Seq<int>>, st: SearchState) -> bool {
    &&& st.order.no_duplicates()
    &&& forall|p: int| 0 <= p < st.order.len() ==> 0 <= #[trigger] st.order[p] < g.len()
}

/// Every child a frame has already passed is finished, or is the node of
/// the frame directly above.
pub open spec fn inv_children_done(g: Seq<Seq<int>>, st: SearchState) -> bool {
    forall|f: int, j: int|
        0 <= f < st.frames.len() && 0 <= j < st.frames[f].1 ==> st.color[#[trigger] child(
            g,
            st.frames[f].0,
            j,
        )] == 2 || (f + 1 < st.frames.len() && child(g, st.frames[f].0, j) == st.frames[f + 1].0)
}

/// Every child of a node in the output stands strictly earlier in it.
pub open spec fn inv_order_closed(g: Seq<Seq<int>>, st: SearchState) -> bool {
    forall|p: int, j: int|
        #![trigger child(g, st.order[p], j)]
        0 <= p < st.order.len() && 0 <= j < g[st.order[p]].len() ==> first_pos(
            st.order,
            child(g, st.order[p], j),
            0,
        ) < p
}

/// The machine invariant of a running (cycle-free) state.
pub open spec fn st_inv(g: Seq<Seq<int>>, st: SearchState) -> bool {
    &&& st.cycle is None
    &&& inv_colors(g, st)
    &&& inv_root(g, st)
    &&& inv_frames_wf(g, st)
    &&& inv_gray_iff(g, st)
    &&& inv_frames_distinct(st)
    &&& inv_frames_edges(g, st)
    &&& inv_black_iff(g, st)
    &&& inv_order(g, st)
    &&& inv_children_done(g, st)
    &&& inv_order_closed(g, st)
}

/// Every reachable state: still running and holding the invariant, or
/// halted on a sound cycle report.
pub open spec fn good_state(g: Seq<Seq<int>>, st: SearchState) -> bool {
    match st.cycle {
        None => st_inv(g, st),
        Some((r0, p)) => is_cycle(g, p) && 0 <= r0 < g.len(),
    }
}

/// A halted machine no longer moves.
proof fn lemma_iter_fixed(g: Seq<Seq<int>>, st: SearchState, fuel: int)
    requires
        dfs_done(g, st),
    ensures
        dfs_iter(g, st, fuel) == st,
    decreases fuel,
{
    if fuel > 0 {
        lemma_iter_fixed(g, st, fuel - 1);
    }
}

/// One step of fuel performs exactly one step.
proof fn lemma_iter_one(g: Seq<Seq<int>>, st: SearchState)
    ensures
        dfs_iter(g, st, 1) == dfs_step(g, st),
{
    assert(dfs_iter(g, dfs_step(g, st), 0) == dfs_step(g, st));
}

/// Running `a + b` steps is running `a`, then `b`.
proof fn lemma_iter_add(g: Seq<Seq<int>>, st: SearchState, a: int, b: int)
    requires
        a >= 0,
        b >= 0,
    ensures
        dfs_iter(g, st, a + b) == dfs_iter(g, dfs_iter(g, st, a), b),
    decreases a,
{
    if a > 0 {
        lemma_iter_add(g, dfs_step(g, st), a - 1, b);
    }
}

/// The unvisited weight is never negative.
proof fn lemma_white_weight_nonneg(g: Seq<Seq<int>>, color: Seq<int>, bound: int)
    ensures
        white_weight(g, color, bound) >= 0,
    decreases bound,
{
    if bound > 0 {
        lemma_white_weight_nonneg(g, color, bound - 1);
    }
}

/// Marking an unvisited node removes its weight; recoloring a visited node
/// changes nothing.
proof fn lemma_white_weight_update(g: Seq<Seq<int>>, color: Seq<int>, bound: int, u: int, c: int)
    requires
        0 <= u < color.len(),
        bound <= color.len(),
        c != 0,
    ensures
        white_weight(g, color.update(u, c), bound) == white_weight(g, color, bound) - (if u < bound
            && color[u] == 0 {
            g[u].len() + 2
        } else {
            0
        }),
    decreases bound,
{
    if bound > 0 {
        lemma_white_weight_update(g, color, bound - 1, u, c);
    }
}

/// Appending a frame adds that frame's weight.
proof fn lemma_frames_weight_push(g: Seq<Seq<int>>, frames: Seq<(int, int)>, x: (int, int))
    ensures
        frames_weight(g, frames.push(x)) == frames_weight(g, frames) + (g[x.0].len() - x.1 + 1),
{
    assert(frames.push(x).drop_last() =~= frames);
}

/// Replacing the innermost frame leaves the others' weight alone.
proof fn lemma_frames_weight_update_last(g: Seq<Seq<int>>, frames: Seq<(int, int)>, x: (int, int))
    requires
        frames.len() > 0,
    ensures
        frames_weight(g, frames.update(frames.len() - 1, x)) == frames_weight(
            g,
            frames.drop_last(),
        ) + (g[x.0].len() - x.1 + 1),
{
    let updated = frames.update(frames.len() - 1, x);
    assert(updated.drop_last() =~= frames.drop_last());
    assert(updated.last() == x);
}

/// The active path's weight is never negative while frames are well-formed.
proof fn lemma_frames_weight_nonneg(g: Seq<Seq<int>>, frames: Seq<(int, int)>)
    requires
        forall|f: int|
            0 <= f < frames.len() ==> 0 <= (#[trigger] frames[f]).0 < g.len() && 0 <= frames[f].1
                <= g[frames[f].0].len(),
    ensures
        frames_weight(g, frames) >= 0,
    decreases frames.len(),
{
    if frames.len() > 0 {
        assert(forall|f: int|
            0 <= f < frames.drop_last().len() ==> (#[trigger] frames.drop_last()[f])
                == frames[f]);
        lemma_frames_weight_nonneg(g, frames.drop_last());
    }
}

/// A running state with the invariant has a non-negative measure.
proof fn lemma_measure_nonneg(g: Seq<Seq<int>>, st: SearchState)
    requires
        inv_root(g, st),
        inv_frames_wf(g, st),
    ensures
        dfs_measure(g, st) >= 0,
{
    lemma_white_weight_nonneg(g, st.color, g.len() as int);
    lemma_frames_weight_nonneg(g, st.frames);
}

/// `first_frame_at` finds the least frame holding `v`, if any frame does.
proof fn lemma_first_frame_at(frames: Seq<(int, int)>, v: int, from: int)
    requires
        0 <= from <= frames.len(),
    ensures
        from <= first_frame_at(frames, v, from) <= frames.len(),
        first_frame_at(frames, v, from) < frames.len() ==> frames[first_frame_at(
            frames,
            v,
            from,
        )].0 == v,
        forall|f: int|
            from <= f < first_frame_at(frames, v, from) && f < frames.len() ==> (
            #[trigger] frames[f]).0 != v,
    decreases frames.len() - from,
{
    if from < frames.len() && frames[from].0 != v {
        lemma_first_frame_at(frames, v, from + 1);
    }
}

} // verus!

verus! {

/// The order-closure invariant depends only on the output, which most
/// steps leave alone.
proof fn lemma_order_closed_preserved(g: Seq<Seq<int>>, st: SearchState, st2: SearchState)
    requires
        inv_order_closed(g, st),
        st2.order == st.order,
    ensures
        inv_order_closed(g, st2),
{
    assert forall|p: int, j: int|
        #![trigger child(g, st2.order[p], j)]
        0 <= p < st2.order.len() && 0 <= j < g[st2.order[p]].len() implies first_pos(
        st2.order,
        child(g, st2.order[p], j),
        0,
    ) < p by {
        assert(first_pos(st.order, child(g, st.order[p], j), 0) < p);
    }
}

/// One step of the machine keeps the invariant and shrinks the measure, or
/// halts on a sound cycle report.
proof fn lemma_step_preserves(g: Seq<Seq<int>>, st: SearchState)
    requires
        wf_graph(g),
        st_inv(g, st),
        !dfs_done(g, st),
    ensures
        dfs_step(g, st).cycle is None ==> st_inv(g, dfs_step(g, st)) && dfs_measure(
            g,
            dfs_step(g, st),
        ) <= dfs_measure(g, st) - 1,
        dfs_step(g, st).cycle matches Some((r0, p)) ==> is_cycle(g, p) && 0 <= r0 < g.len(),
{
    let n = g.len() as int;
    let st2 = dfs_step(g, st);
    if st.frames.len() == 0 {
        assert(st.root < n);
        if st.color[st.root] != 0 {
            assert(st2.frames == st.frames);
            assert forall|u: int| 0 <= u < n implies ((#[trigger] st2.color[u] == 1) <==> on_frames(
                st2,
                u,
            )) by {
                if on_frames(st2, u) {
                    let f = choose|f: int|
                        0 <= f < st2.frames.len() && (#[trigger] st2.frames[f]).0 == u;
                    assert(on_frames(st, u));
                }
                if st2.color[u] == 1 {
                    assert(on_frames(st, u));
                }
            }
            lemma_order_closed_preserved(g, st, st2);
            assert(st_inv(g, st2));
        } else {
            let r = st.root;
            // No node is on the empty active path, so nothing is gray.
            assert forall|u: int| 0 <= u < n implies !on_frames(st, u) by {
                if on_frames(st, u) {
                    let f = choose|f: int|
                        0 <= f < st.frames.len() && (#[trigger] st.frames[f]).0 == u;
                }
            }
            assert forall|u: int| 0 <= u < n implies ((#[trigger] st2.color[u] == 1) <==> on_frames(
                st2,
                u,
            )) by {
                if u == r {
                    assert(st2.frames[0].0 == r);
                    assert(on_frames(st2, u));
                } else {
                    assert(st2.color[u] == st.color[u]);
                    assert(st.color[u] != 1);
                    if on_frames(st2, u) {
                        let f = choose|f: int|
                            0 <= f < st2.frames.len() && (#[trigger] st2.frames[f]).0 == u;
                        assert(f == 0);
                        assert(false);
                    }
                }
            }
            lemma_order_closed_preserved(g, st, st2);
            assert(st_inv(g, st2));
            lemma_white_weight_update(g, st.color, n, r, 1);
            assert(st2.frames.drop_last() =~= st.frames);
            assert(frames_weight(g, st2.frames) == frames_weight(g, st.frames) + (g[r].len()
                + 1));
            assert(dfs_measure(g, st2) <= dfs_measure(g, st) - 1);
        }
    } else {
        let fl = st.frames.len() as int;
        let u = st.frames.last().0;
        let k = st.frames.last().1;
        assert(st.frames[fl - 1] == st.frames.last());
        assert(0 <= u < n && 0 <= k <= g[u].len());
        assert(on_frames(st, u));
        assert(st.color[u] == 1);
        if k >= g[u].len() {
            // The innermost node finishes: it leaves the path, turns
            // finished, and is appended to the output.
            assert(k == g[u].len());
            assert(st2.frames =~= st.frames.drop_last());
            assert forall|w: int| 0 <= w < n implies ((#[trigger] st2.color[w] == 1)
                <==> on_frames(st2, w)) by {
                if w == u {
                    assert(st2.color[w] == 2);
                    if on_frames(st2, w) {
                        let f = choose|f: int|
                            0 <= f < st2.frames.len() && (#[trigger] st2.frames[f]).0 == w;
                        assert(st.frames[f].0 == u);
                        assert(st.frames[fl - 1].0 == u);
                        assert(false);
                    }
                } else {
                    assert(st2.color[w] == st.color[w]);
                    if on_frames(st2, w) {
                        let f = choose|f: int|
                            0 <= f < st2.frames.len() && (#[trigger] st2.frames[f]).0 == w;
                        assert(st.frames[f].0 == w);
                        assert(on_frames(st, w));
                    }
                    if on_frames(st, w) {
                        let f = choose|f: int|
                            0 <= f < st.frames.len() && (#[trigger] st.frames[f]).0 == w;
                        assert(f < fl - 1);
                        assert(st2.frames[f].0 == w);
                        assert(on_frames(st2, w));
                    }
                }
            }
            assert(!st.order.contains(u));
            assert forall|i: int, j: int| 0 <= i < j < st2.order.len() implies st2.order[i]
                != st2.order[j] by {
                if j < st.order.len() {
                    assert(st.order[i] != st.order[j]);
                } else {
                    assert(st2.order[j] == u);
                    if st2.order[i] == u {
                        assert(st.order[i] == u);
                        assert(st.order.contains(u));
                        assert(false);
                    }
                }
            }
            assert(st2.order.no_duplicates());
            assert forall|w: int| 0 <= w < n implies ((#[trigger] st2.color[w] == 2)
                <==> st2.order.contains(w)) by {
                if w == u {
                    assert(st2.order[st.order.len() as int] == u);
                    assert(st2.order.contains(u));
                } else {
                    if st2.order.contains(w) {
                        let q = choose|q: int|
                            0 <= q < st2.order.len() && st2.order[q] == w;
                        assert(q < st.order.len());
                        assert(st.order[q] == w);
                        assert(st.order.contains(w));
                    }
                    if st.order.contains(w) {
                        let q = choose|q: int| 0 <= q < st.order.len() && st.order[q] == w;
                        assert(st2.order[q] == w);
                        assert(st2.order.contains(w));
                    }
                }
            }
            assert forall|f: int, j: int|
                0 <= f < st2.frames.len() && 0 <= j < st2.frames[f].1 implies st2.color[
            #[trigger] child(g, st2.frames[f].0, j)] == 2 || (f + 1 < st2.frames.len() && child(
                g,
                st2.frames[f].0,
                j,
            ) == st2.frames[f + 1].0) by {
                assert(st2.frames[f] == st.frames[f]);
                assert(st.color[child(g, st.frames[f].0, j)] == 2 || (f + 1 < fl && child(
                    g,
                    st.frames[f].0,
                    j,
                ) == st.frames[f + 1].0));
                if st.color[child(g, st.frames[f].0, j)] == 2 {
                    assert(st2.color[child(g, st.frames[f].0, j)] == 2);
                } else {
                    assert(f + 1 < fl && child(g, st.frames[f].0, j) == st.frames[f + 1].0);
                    if f + 1 == fl - 1 {
                        assert(child(g, st.frames[f].0, j) == u);
                        assert(st2.color[u] == 2);
                    } else {
                        assert(f + 1 < st2.frames.len());
                        assert(st2.frames[f + 1].0 == st.frames[f + 1].0);
                    }
                }
            }
            assert forall|p: int, j: int|
                #![trigger child(g, st2.order[p], j)]
                0 <= p < st2.order.len() && 0 <= j < g[st2.order[p]].len() implies first_pos(
                st2.order,
                child(g, st2.order[p], j),
                0,
            ) < p by {
                if p < st.order.len() {
                    assert(st2.order[p] == st.order[p]);
                    let c = child(g, st.order[p], j);
                    assert(first_pos(st.order, c, 0) < p);
                    lemma_first_pos(st.order, c, 0);
                    lemma_first_pos_push(st.order, u, c);
                } else {
                    assert(st2.order[p] == u);
                    let c = child(g, u, j);
                    assert(st.color[c] == 2 || (fl - 1 + 1 < fl && c == st.frames[fl - 1 + 1].0));
                    assert(st.color[c] == 2);
                    assert(0 <= c < n);
                    assert(st.order.contains(c));
                    lemma_first_pos_found(st.order, c);
                    lemma_first_pos_push(st.order, u, c);
                }
            }
            assert(st_inv(g, st2));
            lemma_white_weight_update(g, st.color, n, u, 2);
            assert(frames_weight(g, st.frames) == frames_weight(g, st2.frames) + (g[u].len() - k
                + 1));
            assert(dfs_measure(g, st2) <= dfs_measure(g, st) - 1);
        } else {
            let v = g[u][k];
            assert(0 <= v < n) by {
                assert(g[u][k] == child(g, u, k));
            }
            let advanced = st.frames.update(fl - 1, (u, k + 1));
            assert(advanced.len() == fl);
            assert forall|f: int| 0 <= f < fl implies (#[trigger] advanced[f]).0
                == st.frames[f].0 by {}
            if st.color[v] == 1 {
                // The child is on the active path: the walk from its frame
                // down to here, closed by the child, is a cycle.
                assert(on_frames(st, v));
                let fv = choose|f: int|
                    0 <= f < st.frames.len() && (#[trigger] st.frames[f]).0 == v;
                lemma_first_frame_at(st.frames, v, 0);
                let m = first_frame_at(st.frames, v, 0);
                assert(m < fl);
                assert(st.frames[m].0 == v);
                let walk = cycle_walk(st.frames, v);
                let seg = st.frames.subrange(m, fl).map_values(|fr: (int, int)| fr.0);
                assert(seg.len() == fl - m);
                assert forall|a: int| 0 <= a < fl - m implies seg[a] == st.frames[m + a].0 by {}
                assert(walk.len() == fl - m + 1);
                assert(walk[0] == v);
                assert(walk[walk.len() - 1] == v);
                assert forall|a: int|
                    0 <= a < walk.len() - 1 implies 0 <= #[trigger] walk[a] < g.len() && g[walk[
                    a]].contains(walk[a + 1]) by {
                    assert(walk[a] == st.frames[m + a].0);
                    if a < fl - m - 1 {
                        assert(walk[a + 1] == st.frames[m + a + 1].0);
                        assert(st.frames[m + a].1 >= 1 && st.frames[m + a + 1].0 == g[st.frames[m
                            + a].0][st.frames[m + a].1 - 1]);
                        assert(g[walk[a]][st.frames[m + a].1 - 1] == walk[a + 1]);
                        assert(g[walk[a]].contains(walk[a + 1]));
                    } else {
                        assert(walk[a] == u);
                        assert(walk[a + 1] == v);
                        assert(g[u][k] == v);
                        assert(g[walk[a]].contains(walk[a + 1]));
                    }
                }
                assert(is_cycle(g, walk));
                assert(0 <= st.frames[0].0 < n);
            } else if st.color[v] == 0 {
                // The child is unvisited: a new frame opens for it.
                assert(!on_frames(st, v));
                assert(v != u);
                assert forall|w: int| 0 <= w < n implies ((#[trigger] st2.color[w] == 1)
                    <==> on_frames(st2, w)) by {
                    if w == v {
                        assert(st2.frames[fl].0 == v);
                        assert(on_frames(st2, w));
                    } else {
                        assert(st2.color[w] == st.color[w]);
                        if on_frames(st2, w) {
                            let f = choose|f: int|
                                0 <= f < st2.frames.len() && (#[trigger] st2.frames[f]).0 == w;
                            assert(f < fl);
                            assert(st2.frames[f].0 == advanced[f].0);
                            assert(on_frames(st, w));
                        }
                        if on_frames(st, w) {
                            let f = choose|f: int|
                                0 <= f < st.frames.len() && (#[trigger] st.frames[f]).0 == w;
                            assert(st2.frames[f].0 == w);
                            assert(on_frames(st2, w));
                        }
                    }
                }
                assert forall|f1: int, f2: int|
                    0 <= f1 < f2 < st2.frames.len() implies (#[trigger] st2.frames[f1]).0 != (
                #[trigger] st2.frames[f2]).0 by {
                    if f2 < fl {
                        assert(st2.frames[f1].0 == st.frames[f1].0);
                        assert(st2.frames[f2].0 == st.frames[f2].0);
                    } else {
                        assert(st2.frames[f2].0 == v);
                        assert(st2.frames[f1].0 == st.frames[f1].0);
                        if st.frames[f1].0 == v {
                            assert(on_frames(st, v));
                            assert(false);
                        }
                    }
                }
                assert forall|f: int|
                    0 <= f < st2.frames.len() - 1 implies (#[trigger] st2.frames[f]).1 >= 1
                    && st2.frames[f + 1].0 == g[st2.frames[f].0][st2.frames[f].1 - 1] by {
                    if f < fl - 1 {
                        assert(st2.frames[f] == st.frames[f]);
                        assert(st2.frames[f + 1].0 == st.frames[f + 1].0);
                    } else {
                        assert(f == fl - 1);
                        assert(st2.frames[f] == (u, k + 1));
                        assert(st2.frames[f + 1].0 == v);
                        assert(g[u][k] == v);
                    }
                }
                assert forall|f: int, j: int|
                    0 <= f < st2.frames.len() && 0 <= j < st2.frames[f].1 implies st2.color[
                #[trigger] child(g, st2.frames[f].0, j)] == 2 || (f + 1 < st2.frames.len()
                    && child(g, st2.frames[f].0, j) == st2.frames[f + 1].0) by {
                    if f < fl - 1 {
                        assert(st2.frames[f] == st.frames[f]);
                        assert(st.color[child(g, st.frames[f].0, j)] == 2 || (f + 1 < fl && child(
                            g,
                            st.frames[f].0,
                            j,
                        ) == st.frames[f + 1].0));
                        if st.color[child(g, st.frames[f].0, j)] == 2 {
                            assert(st2.color[child(g, st2.frames[f].0, j)] == 2);
                        } else {
                            assert(st2.frames[f + 1].0 == st.frames[f + 1].0);
                        }
                    } else if f == fl - 1 {
                        assert(st2.frames[f].0 == u && st2.frames[f].1 == k + 1);
                        if j < k {
                            assert(st.color[child(g, st.frames[fl - 1].0, j)] == 2 || (fl - 1 + 1
                                < fl && child(g, st.frames[fl - 1].0, j) == st.frames[fl - 1
                                + 1].0));
                            assert(st.color[child(g, u, j)] == 2);
                            assert(st2.color[child(g, u, j)] == 2);
                        } else {
                            assert(j == k);
                            assert(child(g, u, j) == v);
                            assert(st2.frames[f + 1].0 == v);
                        }
                    } else {
                        assert(f == fl);
                        assert(st2.frames[f].1 == 0);
                    }
                }
                lemma_order_closed_preserved(g, st, st2);
                assert(st_inv(g, st2));
                lemma_white_weight_update(g, st.color, n, v, 1);
                lemma_frames_weight_update_last(g, st.frames, (u, k + 1));
                lemma_frames_weight_push(g, advanced, (v, 0));
                assert(frames_weight(g, st.frames) == frames_weight(g, st.frames.drop_last()) + (
                g[u].len() - k + 1));
                assert(dfs_measure(g, st2) <= dfs_measure(g, st) - 1);
            } else {
                // The child is already finished: only the child cursor moves.
                assert forall|w: int| 0 <= w < n implies ((#[trigger] st2.color[w] == 1)
                    <==> on_frames(st2, w)) by {
                    if on_frames(st2, w) {
                        let f = choose|f: int|
                            0 <= f < st2.frames.len() && (#[trigger] st2.frames[f]).0 == w;
                        assert(st.frames[f].0 == w);
                        assert(on_frames(st, w));
                    }
                    if on_frames(st, w) {
                        let f = choose|f: int|
                            0 <= f < st.frames.len() && (#[trigger] st.frames[f]).0 == w;
                        assert(st2.frames[f].0 == w);
                        assert(on_frames(st2, w));
                    }
                }
                assert forall|f1: int, f2: int|
                    0 <= f1 < f2 < st2.frames.len() implies (#[trigger] st2.frames[f1]).0 != (
                #[trigger] st2.frames[f2]).0 by {
                    assert(st2.frames[f1].0 == st.frames[f1].0);
                    assert(st2.frames[f2].0 == st.frames[f2].0);
                }
                assert forall|f: int|
                    0 <= f < st2.frames.len() - 1 implies (#[trigger] st2.frames[f]).1 >= 1
                    && st2.frames[f + 1].0 == g[st2.frames[f].0][st2.frames[f].1 - 1] by {
                    assert(f < fl - 1);
                    assert(st2.frames[f] == st.frames[f]);
                    assert(st2.frames[f + 1].0 == st.frames[f + 1].0);
                }
                assert forall|f: int, j: int|
                    0 <= f < st2.frames.len() && 0 <= j < st2.frames[f].1 implies st2.color[
                #[trigger] child(g, st2.frames[f].0, j)] == 2 || (f + 1 < st2.frames.len()
                    && child(g, st2.frames[f].0, j) == st2.frames[f + 1].0) by {
                    if f < fl - 1 {
                        assert(st2.frames[f] == st.frames[f]);
                        assert(st.color[child(g, st.frames[f].0, j)] == 2 || (f + 1 < fl && child(
                            g,
                            st.frames[f].0,
                            j,
                        ) == st.frames[f + 1].0));
                        if !(st.color[child(g, st.frames[f].0, j)] == 2) {
                            assert(st2.frames[f + 1].0 == st.frames[f + 1].0);
                        }
                    } else {
                        assert(f == fl - 1);
                        if j < k {
                            assert(st.color[child(g, st.frames[fl - 1].0, j)] == 2 || (fl - 1 + 1
                                < fl && child(g, st.frames[fl - 1].0, j) == st.frames[fl - 1
                                + 1].0));
                            assert(st.color[child(g, u, j)] == 2);
                        } else {
                            assert(j == k);
                            assert(child(g, u, j) == v);
                            assert(st.color[v] == 2);
                        }
                    }
                }
                lemma_order_closed_preserved(g, st, st2);
                assert(st_inv(g, st2));
                lemma_frames_weight_update_last(g, st.frames, (u, k + 1));
                assert(frames_weight(g, st.frames) == frames_weight(g, st.frames.drop_last()) + (
                g[u].len() - k + 1));
                assert(dfs_measure(g, st2) <= dfs_measure(g, st) - 1);
            }
        }
    }
}

} // verus!

verus! {

/// The machine's starting state satisfies the invariant.
proof fn lemma_init_inv(g: Seq<Seq<int>>)
    ensures
        st_inv(g, dfs_init(g.len() as int)),
{
    let st = dfs_init(g.len() as int);
    assert forall|u: int| 0 <= u < g.len() implies ((#[trigger] st.color[u] == 1) <==> on_frames(
        st,
        u,
    )) by {
        if on_frames(st, u) {
            let f = choose|f: int| 0 <= f < st.frames.len() && (#[trigger] st.frames[f]).0 == u;
        }
    }
    assert forall|u: int| 0 <= u < g.len() implies ((#[trigger] st.color[u] == 2)
        <==> st.order.contains(u)) by {
        if st.order.contains(u) {
            let q = choose|q: int| 0 <= q < st.order.len() && st.order[q] == u;
        }
    }
}

/// Run long enough, the machine halts in a sound state: either the
/// invariant holds of a finished search, or a cycle was reported.
proof fn lemma_run_halts(g: Seq<Seq<int>>, st: SearchState, fuel: int)
    requires
        wf_graph(g),
        good_state(g, st),
        fuel >= 0,
        st.cycle is Some || fuel >= dfs_measure(g, st) + 1,
    ensures
        good_state(g, dfs_iter(g, st, fuel)),
        dfs_done(g, dfs_iter(g, st, fuel)),
    decreases fuel,
{
    if st.cycle is Some {
        lemma_iter_fixed(g, st, fuel);
    } else if dfs_done(g, st) {
        lemma_iter_fixed(g, st, fuel);
    } else {
        lemma_measure_nonneg(g, st);
        let st2 = dfs_step(g, st);
        lemma_step_preserves(g, st);
        if st2.cycle is Some {
            lemma_run_halts(g, st2, fuel - 1);
        } else {
            lemma_run_halts(g, st2, fuel - 1);
        }
    }
}

/// The machine's final state is halted and sound.
proof fn lemma_model_sound(g: Seq<Seq<int>>)
    requires
        wf_graph(g),
    ensures
        good_state(g, dfs_model(g)),
        dfs_done(g, dfs_model(g)),
{
    lemma_init_inv(g);
    let init = dfs_init(g.len() as int);
    lemma_measure_nonneg(g, init);
    lemma_run_halts(g, init, dfs_fuel(g));
}

/// A search that halts without a cycle has produced a topological order of
/// the whole graph.
proof fn lemma_done_topo(g: Seq<Seq<int>>, st: SearchState)
    requires
        wf_graph(g),
        st_inv(g, st),
        dfs_done(g, st),
        st.cycle is None,
    ensures
        is_topo_order(g, st.order),
{
    let n = g.len() as int;
    assert forall|u: int| 0 <= u < n implies st.order.contains(u) by {
        assert(st.color[u] != 0);
        if st.color[u] == 1 {
            let f = choose|f: int| 0 <= f < st.frames.len() && (#[trigger] st.frames[f]).0 == u;
            assert(false);
        }
        assert(st.color[u] == 2);
    }
    assert(st.order.to_set() =~= vstd::set_lib::set_int_range(0, n)) by {
        assert forall|x: int| st.order.to_set().contains(x) implies 0 <= x < n by {
            let q = choose|q: int| 0 <= q < st.order.len() && st.order[q] == x;
        }
    }
    st.order.unique_seq_to_set();
    vstd::set_lib::lemma_int_range(0, n);
    assert(st.order.len() == n);
}

/// The machine's outcome is sound: an order is a topological order of the
/// whole graph, a reported cycle is a closed walk with its traversal root a
/// node.
pub proof fn lemma_build_order_sound(g: Seq<Seq<int>>)
    requires
        wf_graph(g),
    ensures
        build_order_model(g) matches Ok(ord) ==> is_topo_order(g, ord),
        build_order_model(g) matches Err((r0, p)) ==> is_cycle(g, p) && 0 <= r0 < g.len(),
{
    lemma_model_sound(g);
    let st = dfs_model(g);
    if st.cycle is None {
        lemma_done_topo(g, st);
    }
}

/// Along a closed walk, least positions in a topological order would
/// descend without end: a graph with a topological order has no closed walk.
pub proof fn lemma_topo_excludes_cycle(g: Seq<Seq<int>>, ord: Seq<int>, p: Seq<int>)
    requires
        is_topo_order(g, ord),
    ensures
        !is_cycle(g, p),
{
    if is_cycle(g, p) {
        lemma_pos_descent(g, ord, p, p.len() - 1);
        lemma_first_pos(ord, p[0], 0);
        assert(p[p.len() - 1] == p[0]);
        assert(false);
    }
}

/// The least position of the `a`-th walk node lies at least `a` below the
/// walk head's.
proof fn lemma_pos_descent(g: Seq<Seq<int>>, ord: Seq<int>, p: Seq<int>, a: int)
    requires
        is_topo_order(g, ord),
        is_cycle(g, p),
        0 <= a < p.len(),
    ensures
        first_pos(ord, p[a], 0) <= first_pos(ord, p[0], 0) - a,
    decreases a,
{
    if a > 0 {
        lemma_pos_descent(g, ord, p, a - 1);
        assert(0 <= p[a - 1] < g.len() && g[p[a - 1]].contains(p[a]));
        let j = choose|j: int| 0 <= j < g[p[a - 1]].len() && #[trigger] g[p[a - 1]][j] == p[a];
        assert(ord.contains(p[a - 1]));
        lemma_first_pos_found(ord, p[a - 1]);
        let q = first_pos(ord, p[a - 1], 0);
        assert(ord[q] == p[a - 1]);
        assert(child(g, ord[q], j) == p[a]);
        assert(first_pos(ord, child(g, ord[q], j), 0) < q);
    }
}

/// Law (cycle soundness, completeness half): a graph containing any closed
/// walk never yields a build order.
pub proof fn lemma_cycle_always_detected(g: Seq<Seq<int>>, p: Seq<int>)
    requires
        wf_graph(g),
        is_cycle(g, p),
    ensures
        build_order_model(g) is Err,
{
    lemma_build_order_sound(g);
    if let Ok(ord) = build_order_model(g) {
        lemma_topo_excludes_cycle(g, ord, p);
    }
}

} // verus!

verus! {

/// The spec view of the executable search state (a running state: no cycle
/// reported yet).
pub open spec fn abs_state(
    color: Seq<u8>,
    frames: Seq<(usize, usize)>,
    order: Seq<usize>,
    root: usize,
) -> SearchState {
    SearchState {
        color: color.map_values(|c: u8| c as int),
        frames: frames.map_values(|fr: (usize, usize)| (fr.0 as int, fr.1 as int)),
        order: order.map_values(|x: usize| x as int),
        root: root as int,
        cycle: None,
    }
}

/// The spec view of an executable adjacency list.
pub open spec fn graph_view(g: Seq<Vec<usize>>) -> Seq<Seq<int>> {
    g.map_values(|column: Vec<usize>| column@.map_values(|x: usize| x as int))
}

/// Runs the depth-first search over the adjacency list `g` and returns the
/// machine's outcome: the build order (dependencies first), or the node
/// whose traversal met a cycle together with the closed walk.
#[verifier::rlimit(60)]
pub fn compute_build_order(g: &Vec<Vec<usize>>) -> (outcome: Result<Vec<usize>, (usize, Vec<usize>)>)
    requires
        wf_graph(graph_view(g@)),
    ensures
        match outcome {
            Ok(ord) => build_order_model(graph_view(g@)) == Ok::<Seq<int>, (int, Seq<int>)>(
                ord@.map_values(|x: usize| x as int),
            ),
            Err((r0, walk)) => build_order_model(graph_view(g@)) == Err::<Seq<int>, (int, Seq<int>)>(
                ((r0 as int), walk@.map_values(|x: usize| x as int)),
            ),
        },
{
    let ghost gv = graph_view(g@);
    let n = g.len();
    let mut color: Vec<u8> = Vec::new();
    while color.len() < n
        invariant
            color@.len() <= n,
            forall|i: int| 0 <= i < color@.len() ==> color@[i] == 0u8,
        decreases n - color.len(),
    {
        color.push(0u8);
    }
    let mut frames: Vec<(usize, usize)> = Vec::new();
    let mut order: Vec<usize> = Vec::new();
    let mut root: usize = 0;
    let ghost mut steps: int = 0;
    proof {
        assert(abs_state(color@, frames@, order@, root).color =~= dfs_init(n as int).color);
        assert(abs_state(color@, frames@, order@, root).frames =~= dfs_init(n as int).frames);
        assert(abs_state(color@, frames@, order@, root).order =~= dfs_init(n as int).order);
        assert(abs_state(color@, frames@, order@, root) == dfs_init(n as int));
        lemma_init_inv(gv);
        lemma_measure_nonneg(gv, dfs_init(n as int));
    }
    loop
        invariant
            gv == graph_view(g@),
            wf_graph(gv),
            gv.len() == n,
            g@.len() == n,
            color@.len() == n,
            root <= n,
            steps >= 0,
            abs_state(color@, frames@, order@, root) == dfs_iter(gv, dfs_init(n as int), steps),
            st_inv(gv, abs_state(color@, frames@, order@, root)),
            steps + dfs_measure(gv, abs_state(color@, frames@, order@, root)) + 1 <= dfs_fuel(gv),
        decreases dfs_measure(gv, abs_state(color@, frames@, order@, root)),
    {
        let ghost st = abs_state(color@, frames@, order@, root);
        proof {
            lemma_measure_nonneg(gv, st);
        }
        if frames.len() == 0 {
            if root >= n {
                proof {
                    assert(dfs_done(gv, st));
                    lemma_iter_add(gv, dfs_init(n as int), steps, dfs_fuel(gv) - steps);
                    lemma_iter_fixed(gv, st, dfs_fuel(gv) - steps);
                    assert(dfs_model(gv) == st);
                }
                return Ok(order);
            }
            let ghost st2 = dfs_step(gv, st);
            proof {
                lemma_step_preserves(gv, st);
            }
            if color[root] != 0 {
                root = root + 1;
                proof {
                    assert(abs_state(color@, frames@, order@, root) == st2);
                    lemma_iter_add(gv, dfs_init(n as int), steps, 1);
                    lemma_iter_one(gv, st);
                    steps = steps + 1;
                    assert(dfs_measure(gv, abs_state(color@, frames@, order@, root))
                        <= dfs_measure(gv, st) - 1);
                    lemma_measure_nonneg(gv, abs_state(color@, frames@, order@, root));
                }
            } else {
                color[root] = 1;
                frames.push((root, 0));
                root = root + 1;
                proof {
                    assert(abs_state(color@, frames@, order@, root).color =~= st2.color);
                    assert(abs_state(color@, frames@, order@, root).frames =~= st2.frames);
                    assert(abs_state(color@, frames@, order@, root) == st2);
                    lemma_iter_add(gv, dfs_init(n as int), steps, 1);
                    lemma_iter_one(gv, st);
                    steps = steps + 1;
                    assert(dfs_measure(gv, abs_state(color@, frames@, order@, root))
                        <= dfs_measure(gv, st) - 1);
                    lemma_measure_nonneg(gv, abs_state(color@, frames@, order@, root));
                }
            }
        } else {
            let fl = frames.len();
            let frame = frames[fl - 1];
            let u = frame.0;
            let k = frame.1;
            proof {
                assert(st.frames[fl - 1] == (u as int, k as int));
                assert(st.frames.last() == st.frames[fl - 1]);
                assert(0 <= u < n && k <= gv[u as int].len());
                assert(gv[u as int] == g@[u as int]@.map_values(|x: usize| x as int));
            }
            let ghost st2 = dfs_step(gv, st);
            proof {
                lemma_step_preserves(gv, st);
            }
            if k >= g[u].len() {
                color[u] = 2;
                order.push(u);
                frames.pop();
                proof {
                    assert(abs_state(color@, frames@, order@, root).color =~= st2.color);
                    assert(abs_state(color@, frames@, order@, root).frames =~= st2.frames);
                    assert(abs_state(color@, frames@, order@, root).order =~= st2.order);
                    assert(abs_state(color@, frames@, order@, root) == st2);
                    lemma_iter_add(gv, dfs_init(n as int), steps, 1);
                    lemma_iter_one(gv, st);
                    steps = steps + 1;
                    assert(dfs_measure(gv, abs_state(color@, frames@, order@, root))
                        <= dfs_measure(gv, st) - 1);
                    lemma_measure_nonneg(gv, abs_state(color@, frames@, order@, root));
                }
            } else {
                let v = g[u][k];
                proof {
                    assert(st2 == dfs_step(gv, st));
                    assert(gv[u as int][k as int] == v as int);
                    assert(0 <= (v as int) < n) by {
                        assert(child(gv, u as int, k as int) == v as int);
                    }
                }
                if color[v] == 1 {
                    // The child is on the active path: report the closed
                    // walk from its frame down to here.
                    let mut m: usize = 0;
                    while m < frames.len() && frames[m].0 != v
                        invariant
                            m <= frames@.len(),
                            forall|f: int| 0 <= f < m ==> (#[trigger] frames@[f]).0 != v,
                        decreases frames@.len() - m,
                    {
                        m = m + 1;
                    }
                    proof {
                        assert(st.color[v as int] == 1);
                        assert(on_frames(st, v as int));
                        if m == frames@.len() {
                            let f = choose|f: int|
                                0 <= f < st.frames.len() && (#[trigger] st.frames[f]).0 == (
                                v as int);
                            assert(frames@[f].0 == v);
                            assert(false);
                        }
                        lemma_first_frame_at(st.frames, v as int, 0);
                        assert forall|f: int|
                            0 <= f < m implies (#[trigger] st.frames[f]).0 != v as int by {
                            assert(frames@[f].0 != v);
                        }
                        assert(st.frames[m as int].0 == v as int);
                        assert(first_frame_at(st.frames, v as int, 0) == m as int);
                    }
                    let mut walk: Vec<usize> = Vec::new();
                    let mut t = m;
                    while t < frames.len()
                        invariant
                            m <= t <= frames@.len(),
                            walk@.len() == t - m,
                            forall|a: int|
                                0 <= a < walk@.len() ==> #[trigger] walk@[a] == frames@[m
                                    + a].0,
                        decreases frames@.len() - t,
                    {
                        let node = frames[t].0;
                        walk.push(node);
                        t = t + 1;
                    }
                    walk.push(v);
                    let r0 = frames[0].0;
                    proof {
                        let spec_walk = cycle_walk(st.frames, v as int);
                        let seg = st.frames.subrange(m as int, fl as int).map_values(
                            |fr: (int, int)| fr.0,
                        );
                        assert(walk@.map_values(|x: usize| x as int) =~= spec_walk) by {
                            assert(spec_walk.len() == fl - m + 1);
                            assert forall|a: int|
                                0 <= a < spec_walk.len() implies spec_walk[a] == walk@.map_values(
                                |x: usize| x as int,
                            )[a] by {
                                if a < fl - m {
                                    assert(seg[a] == st.frames[m + a].0);
                                    assert(walk@[a] == frames@[m + a].0);
                                }
                            }
                        }
                        assert(st2.cycle == Some((st.frames[0].0, spec_walk)));
                        assert(st.frames[0].0 == r0 as int);
                        assert(dfs_iter(gv, dfs_init(n as int), steps + 1) == st2) by {
                            lemma_iter_add(gv, dfs_init(n as int), steps, 1);
                            lemma_iter_one(gv, st);
                        }
                        assert(steps + 1 <= dfs_fuel(gv));
                        lemma_iter_add(gv, dfs_init(n as int), steps + 1, dfs_fuel(gv) - (steps
                            + 1));
                        lemma_iter_fixed(gv, st2, dfs_fuel(gv) - (steps + 1));
                        assert(dfs_model(gv) == st2);
                    }
                    return Err((r0, walk));
                } else if color[v] == 0 {
                    frames.pop();
                    frames.push((u, k + 1));
                    color[v] = 1;
                    frames.push((v, 0));
                    proof {
                        let advanced = st.frames.update(fl - 1, (u as int, k + 1));
                        assert(abs_state(color@, frames@, order@, root).color =~= st2.color);
                        assert(abs_state(color@, frames@, order@, root).frames =~= advanced.push(
                            ((v as int), 0),
                        ));
                        assert(abs_state(color@, frames@, order@, root) == st2);
                        lemma_iter_add(gv, dfs_init(n as int), steps, 1);
                    lemma_iter_one(gv, st);
                    steps = steps + 1;
                    assert(dfs_measure(gv, abs_state(color@, frames@, order@, root))
                        <= dfs_measure(gv, st) - 1);
                    lemma_measure_nonneg(gv, abs_state(color@, frames@, order@, root));
                    }
                } else {
                    frames.pop();
                    frames.push((u, k + 1));
                    proof {
                        let advanced = st.frames.update(fl - 1, (u as int, k + 1));
                        assert(abs_state(color@, frames@, order@, root).frames =~= advanced);
                        assert(abs_state(color@, frames@, order@, root) == st2);
                        lemma_iter_add(gv, dfs_init(n as int), steps, 1);
                    lemma_iter_one(gv, st);
                    steps = steps + 1;
                    assert(dfs_measure(gv, abs_state(color@, frames@, order@, root))
                        <= dfs_measure(gv, st) - 1);
                    lemma_measure_nonneg(gv, abs_state(color@, frames@, order@, root));
                    }
                }
            }
        }
    }
}

} // verus!

verus! {

/// Whether every edge points strictly backwards: the node order itself is
/// already topological.
pub open spec fn sorted_graph(g: Seq<Seq<int>>) -> bool {
    forall|u: int, j: int| 0 <= u < g.len() && 0 <= j < g[u].len() ==> #[trigger] g[u][j] < u
}

/// The state after the first `r` roots of a sorted graph have been searched:
/// they are finished in node order, nothing else has been touched.
spec fn sorted_state(g: Seq<Seq<int>>, r: int) -> SearchState {
    SearchState {
        color: Seq::new(g.len(), |u: int| if u < r { 2int } else { 0int }),
        frames: Seq::empty(),
        order: Seq::new(r as nat, |i: int| i),
        root: r,
        cycle: None,
    }
}

/// The mid-root state of a sorted graph: root `r` on the path with `k`
/// children already skipped.
spec fn sorted_mid_state(g: Seq<Seq<int>>, r: int, k: int) -> SearchState {
    SearchState {
        color: Seq::new(g.len(), |u: int| if u < r { 2int } else if u == r { 1int } else { 0int }),
        frames: seq![(r, k)],
        order: Seq::new(r as nat, |i: int| i),
        root: r + 1,
        cycle: None,
    }
}

/// On a sorted graph, the children sweep of root `r` only meets finished
/// nodes and then finishes `r`.
proof fn lemma_sorted_sweep(g: Seq<Seq<int>>, r: int, k: int)
    requires
        wf_graph(g),
        sorted_graph(g),
        0 <= r < g.len(),
        0 <= k <= g[r].len(),
    ensures
        dfs_iter(g, sorted_mid_state(g, r, k), g[r].len() - k + 1) == sorted_state(g, r + 1),
    decreases g[r].len() - k,
{
    let st = sorted_mid_state(g, r, k);
    if k == g[r].len() {
        let st2 = dfs_step(g, st);
        assert(st2.color =~= sorted_state(g, r + 1).color);
        assert(st2.frames =~= sorted_state(g, r + 1).frames);
        assert(st2.order =~= sorted_state(g, r + 1).order);
        assert(st2 == sorted_state(g, r + 1));
        lemma_iter_one(g, st);
    } else {
        let v = g[r][k];
        assert(0 <= v < r) by {
            assert(g[r][k] < r);
        }
        assert(st.color[v] == 2);
        let st2 = dfs_step(g, st);
        assert(st2.frames =~= sorted_mid_state(g, r, k + 1).frames) by {
            assert(st.frames.update(0, (r, k + 1)) =~= seq![(r, k + 1)]);
        }
        assert(st2 == sorted_mid_state(g, r, k + 1));
        lemma_sorted_sweep(g, r, k + 1);
        lemma_iter_add(g, st, 1, g[r].len() - k);
        lemma_iter_one(g, st);
    }
}

/// On a sorted graph, searching from root `r` takes the machine to the
/// state with `r + 1` roots finished.
proof fn lemma_sorted_root(g: Seq<Seq<int>>, r: int)
    requires
        wf_graph(g),
        sorted_graph(g),
        0 <= r < g.len(),
    ensures
        dfs_iter(g, sorted_state(g, r), g[r].len() + 2int) == sorted_state(g, r + 1),
{
    let st = sorted_state(g, r);
    assert(!dfs_done(g, st));
    assert(st.color[r] == 0);
    let st2 = dfs_step(g, st);
    assert(st2.color =~= sorted_mid_state(g, r, 0).color);
    assert(st2.order =~= sorted_mid_state(g, r, 0).order);
    assert(st2 == sorted_mid_state(g, r, 0));
    lemma_sorted_sweep(g, r, 0);
    lemma_iter_add(g, st, 1, g[r].len() + 1int);
    lemma_iter_one(g, st);
}

/// The fuel the first `r` roots of a sorted graph consume.
spec fn sorted_fuel(g: Seq<Seq<int>>, r: int) -> int
    decreases r,
{
    if r <= 0 {
        0
    } else {
        sorted_fuel(g, r - 1) + g[r - 1].len() + 2
    }
}

/// Searching a sorted graph from the start finishes all roots in node
/// order.
proof fn lemma_sorted_run(g: Seq<Seq<int>>, r: int)
    requires
        wf_graph(g),
        sorted_graph(g),
        0 <= r <= g.len(),
    ensures
        sorted_fuel(g, r) >= 0,
        dfs_iter(g, sorted_state(g, 0), sorted_fuel(g, r)) == sorted_state(g, r),
    decreases r,
{
    if r > 0 {
        lemma_sorted_run(g, r - 1);
        lemma_sorted_root(g, r - 1);
        lemma_iter_add(g, sorted_state(g, 0), sorted_fuel(g, r - 1), g[r - 1].len() + 2int);
    }
}

/// The consumed fuel never exceeds the starting measure.
proof fn lemma_sorted_fuel_bound(g: Seq<Seq<int>>, r: int)
    requires
        0 <= r <= g.len(),
    ensures
        sorted_fuel(g, r) <= white_weight(g, sorted_state(g, 0).color, r),
    decreases r,
{
    if r > 0 {
        lemma_sorted_fuel_bound(g, r - 1);
    }
}

/// Law (stability): on a graph whose node order is already topological —
/// every edge points backwards — the search returns the identity order: the
/// input order is kept.
pub proof fn lemma_sorted_graph_identity(g: Seq<Seq<int>>)
    requires
        wf_graph(g),
        sorted_graph(g),
    ensures
        build_order_model(g) == Ok::<Seq<int>, (int, Seq<int>)>(
            Seq::new(g.len(), |i: int| i),
        ),
{
    let n = g.len() as int;
    let init = dfs_init(n);
    assert(init.color =~= sorted_state(g, 0).color);
    assert(init.order =~= sorted_state(g, 0).order);
    assert(init == sorted_state(g, 0));
    lemma_sorted_run(g, n);
    let used = sorted_fuel(g, n);
    lemma_sorted_fuel_bound(g, n);
    assert(white_weight(g, init.color, n) == white_weight(g, sorted_state(g, 0).color, n));
    lemma_white_weight_nonneg(g, init.color, n);
    assert(dfs_fuel(g) == white_weight(g, init.color, n) + frames_weight(g, init.frames) + n + 1);
    assert(frames_weight(g, init.frames) == 0);
    assert(used <= dfs_fuel(g));
    lemma_iter_add(g, init, used, dfs_fuel(g) - used);
    assert(dfs_done(g, sorted_state(g, n)));
    lemma_iter_fixed(g, sorted_state(g, n), dfs_fuel(g) - used);
    assert(dfs_model(g) == sorted_state(g, n));
    assert(sorted_state(g, n).order =~= Seq::new(g.len(), |i: int| i));
}

} // verus!
