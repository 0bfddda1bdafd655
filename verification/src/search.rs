use vstd::prelude::*;
use crate::layered::LayoutEdge;

verus! {

/// A moment of the cycle-breaking search: each node's colour (0 unvisited,
/// 1 on the current path, 2 finished), the current path as frames of a node
/// and the index of the next edge to look at, which edges were found to be
/// back edges, and the next node to start a search from.
pub type SearchState = (Seq<u8>, Seq<(usize, usize)>, Seq<bool>, int);

/// Nothing visited, no back edge found, the first root to try is node 0.
pub open spec fn search_start(n: int, m: int) -> SearchState {
    (Seq::new(n as nat, |v: int| 0u8), Seq::empty(), Seq::new(m as nat, |k: int| false), 0)
}

/// The path is empty and every node has been tried as a root.
pub open spec fn search_done(n: int, st: SearchState) -> bool {
    st.1.len() == 0 && st.3 >= n
}

/// One move of the search. With an empty path, the next root starts a new
/// path if it is unvisited, and is passed over otherwise. Otherwise the top
/// frame looks at the next edge in list order: past the last edge its node
/// is finished and popped; an edge that does not leave it, or leads to a
/// finished node, is passed over; one to an unvisited node extends the path;
/// one to a node on the path is a back edge.
pub open spec fn search_step(live: Seq<LayoutEdge>, st: SearchState) -> SearchState {
    let (color, stack, back, s) = st;
    if stack.len() == 0 {
        if 0 <= s < color.len() && color[s] == 0 {
            (color.update(s, 1), seq![(s as usize, 0usize)], back, s + 1)
        } else {
            (color, stack, back, s + 1)
        }
    } else {
        let (u, c) = stack.last();
        let next = stack.update(stack.len() - 1, (u, (c + 1) as usize));
        if c >= live.len() {
            (color.update(u as int, 2), stack.drop_last(), back, s)
        } else if live[c as int].from != u || color[live[c as int].to as int] == 2 {
            (color, next, back, s)
        } else if color[live[c as int].to as int] == 0 {
            (color.update(live[c as int].to as int, 1), next.push((live[c as int].to, 0usize)), back, s)
        } else {
            (color, next, back.update(c as int, true), s)
        }
    }
}

/// At most `f` moves of the search from `st`, stopping once it is done.
pub open spec fn search_run(n: int, live: Seq<LayoutEdge>, st: SearchState, f: nat) -> SearchState
    decreases f,
{
    if f == 0 || search_done(n, st) {
        st
    } else {
        search_run(n, live, search_step(live, st), (f - 1) as nat)
    }
}

/// `back` marks the back edges that the search finds once it is done.
pub open spec fn marks_back_edges(n: int, live: Seq<LayoutEdge>, back: Seq<bool>) -> bool {
    exists|f: nat|
        #[trigger] search_done(n, search_run(n, live, search_start(n, live.len() as int), f))
            && search_run(n, live, search_start(n, live.len() as int), f).2 == back
}

/// Running one move past a state that is not done takes that move.
pub proof fn lemma_search_run_step(n: int, live: Seq<LayoutEdge>, st: SearchState, f: nat)
    requires
        !search_done(n, search_run(n, live, st, f)),
    ensures
        search_run(n, live, st, f + 1) == search_step(live, search_run(n, live, st, f)),
    decreases f,
{
    assert(!search_done(n, st));
    assert(search_run(n, live, st, f + 1) == search_run(n, live, search_step(live, st), f));
    if f > 0 {
        assert(search_run(n, live, st, f) == search_run(n, live, search_step(live, st), (f - 1) as nat));
        lemma_search_run_step(n, live, search_step(live, st), (f - 1) as nat);
    } else {
        assert(search_run(n, live, search_step(live, st), 0) == search_step(live, st));
    }
}

proof fn lemma_search_run_stays(n: int, live: Seq<LayoutEdge>, st: SearchState, f: nat, g: nat)
    requires
        search_done(n, search_run(n, live, st, f)),
        f <= g,
    ensures
        search_run(n, live, st, g) == search_run(n, live, st, f),
    decreases f,
{
    if f > 0 && !search_done(n, st) {
        lemma_search_run_stays(n, live, search_step(live, st), (f - 1) as nat, (g - 1) as nat);
    }
}

/// Law: the search has one outcome — however many moves are allowed, every
/// run that gets to the end finds the same back edges.
pub proof fn search_outcome_unique(n: int, live: Seq<LayoutEdge>, a: Seq<bool>, b: Seq<bool>)
    requires
        marks_back_edges(n, live, a),
        marks_back_edges(n, live, b),
    ensures
        a == b,
{
    let st = search_start(n, live.len() as int);
    let fa = choose|f: nat| #[trigger] search_done(n, search_run(n, live, st, f)) && search_run(n, live, st, f).2 == a;
    let fb = choose|f: nat| #[trigger] search_done(n, search_run(n, live, st, f)) && search_run(n, live, st, f).2 == b;
    if fa <= fb {
        lemma_search_run_stays(n, live, st, fa, fb);
    } else {
        lemma_search_run_stays(n, live, st, fb, fa);
    }
}

} // verus!
