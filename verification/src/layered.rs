use vstd::prelude::*;
use crate::text::upper_eq;
use crate::text::ascii_upper_seq;
use crate::search::SearchState;
use crate::search::search_start;
use crate::search::search_step;
use crate::search::search_run;
use crate::search::search_done;
use crate::search::marks_back_edges;
use crate::search::lemma_search_run_step;

verus! {

/// Which way a layered layout flows: sources at the top with edges running
/// down (`TB`, the DOT default), or sources at the left with edges running
/// right (`LR`).
#[derive(Clone, Copy, Debug, Default, PartialEq, Eq, Structural)]
pub enum RankDir {
    #[default]
    TB,
    LR,
}

/// The flow a DOT `rankdir=` value names, compared case-insensitively.
pub open spec fn rank_dir_named(s: Seq<char>) -> Option<RankDir> {
    let u = ascii_upper_seq(s);
    if u == "TB"@ || u == "TD"@ {
        Some(RankDir::TB)
    } else if u == "LR"@ {
        Some(RankDir::LR)
    } else {
        None
    }
}

/// The wire name of a flow.
pub open spec fn rank_dir_name(d: RankDir) -> Seq<char> {
    match d {
        RankDir::TB => "TB"@,
        RankDir::LR => "LR"@,
    }
}

/// Law: each flow's wire name parses back to it, in any letter case.
pub proof fn rank_dir_names_round_trip(d: RankDir)
    ensures
        rank_dir_named(rank_dir_name(d)) == Some(d),
        rank_dir_named(ascii_upper_seq(rank_dir_name(d))) == Some(d),
{
    reveal_strlit("TB");
    reveal_strlit("TD");
    reveal_strlit("LR");
    let n = rank_dir_name(d);
    assert(ascii_upper_seq(n) =~= n);
    assert(ascii_upper_seq(ascii_upper_seq(n)) =~= n);
    assert("TB"@[0] != "LR"@[0]);
    assert("TD"@[0] != "LR"@[0]);
}

impl RankDir {
    /// The wire names, in declaration order.
    pub const NAMES: [&'static str; 2] = ["TB", "LR"];

    /// Parse a DOT `rankdir=` value, case-insensitively. `None` for anything
    /// else.
    pub fn parse(name: &str) -> (r: Option<RankDir>)
        ensures
            r == rank_dir_named(name@),
    {
        if upper_eq(name, "TB") || upper_eq(name, "TD") {
            Some(RankDir::TB)
        } else if upper_eq(name, "LR") {
            Some(RankDir::LR)
        } else {
            None
        }
    }
}

/// One edge as the layout sees it: which of the caller's edges it is, the
/// endpoints after cycle removal, and whether that removal flipped it.
#[derive(Clone, Copy, Debug, PartialEq, Eq)]
pub struct LayoutEdge {
    pub orig: usize,
    pub from: usize,
    pub to: usize,
    pub reversed: bool,
}

/// An edge takes part in the layout: both endpoints in range and distinct.
pub open spec fn is_live(e: (u32, u32), n: int) -> bool {
    e.0 < n && e.1 < n && e.0 != e.1
}

/// The caller's live edges in order, unflipped.
pub open spec fn live_of(edges: Seq<(u32, u32)>, n: int) -> Seq<LayoutEdge>
    decreases edges.len(),
{
    if edges.len() == 0 {
        Seq::empty()
    } else {
        let rest = live_of(edges.drop_last(), n);
        let e = edges.last();
        if is_live(e, n) {
            rest.push(
                LayoutEdge {
                    orig: (edges.len() - 1) as usize,
                    from: e.0 as usize,
                    to: e.1 as usize,
                    reversed: false,
                },
            )
        } else {
            rest
        }
    }
}

/// `g` strictly decreases along every edge: a witness that the edges form
/// no cycle.
pub open spec fn descends(es: Seq<LayoutEdge>, g: Seq<int>) -> bool {
    forall|i: int| 0 <= i < es.len() ==> #[trigger] g[es[i].from as int] > g[es[i].to as int]
}

/// The edges form no directed cycle.
pub open spec fn acyclic(es: Seq<LayoutEdge>, n: int) -> bool {
    exists|g: Seq<int>| g.len() == n && #[trigger] descends(es, g)
}

/// `out` is `live` with some edges flipped, each flip recorded.
pub open spec fn flips_of(live: Seq<LayoutEdge>, out: Seq<LayoutEdge>) -> bool {
    &&& out.len() == live.len()
    &&& forall|i: int|
        0 <= i < out.len() ==> {
            &&& (#[trigger] out[i]).orig == live[i].orig
            &&& if out[i].reversed {
                out[i].from == live[i].to && out[i].to == live[i].from
            } else {
                out[i].from == live[i].from && out[i].to == live[i].to
            }
        }
}

pub(crate) proof fn lemma_live_of_facts(edges: Seq<(u32, u32)>, n: int)
    ensures
        forall|i: int|
            0 <= i < live_of(edges, n).len() ==> {
                &&& (#[trigger] live_of(edges, n)[i]).from < n
                &&& live_of(edges, n)[i].to < n
                &&& live_of(edges, n)[i].from != live_of(edges, n)[i].to
                &&& !live_of(edges, n)[i].reversed
                &&& live_of(edges, n)[i].orig < edges.len()
            },
        live_of(edges, n).len() <= edges.len(),
    decreases edges.len(),
{
    if edges.len() > 0 {
        lemma_live_of_facts(edges.drop_last(), n);
    }
}

/// How many nodes are still white (unvisited).
spec fn white_count(s: Seq<u8>) -> nat
    decreases s.len(),
{
    if s.len() == 0 {
        0
    } else {
        white_count(s.drop_last()) + (if s.last() == 0 {
            1nat
        } else {
            0nat
        })
    }
}

proof fn lemma_white_count_update(s: Seq<u8>, i: int, v: u8)
    requires
        0 <= i < s.len(),
    ensures
        white_count(s.update(i, v)) + (if s[i] == 0 { 1int } else { 0int }) == white_count(s) + (if v == 0 { 1int } else { 0int }),
    decreases s.len(),
{
    let t = s.update(i, v);
    if i == s.len() - 1 {
        assert(t.drop_last() =~= s.drop_last());
    } else {
        assert(t.drop_last() =~= s.drop_last().update(i, v));
        lemma_white_count_update(s.drop_last(), i, v);
    }
}

proof fn lemma_white_count_bound(s: Seq<u8>)
    ensures
        white_count(s) <= s.len(),
    decreases s.len(),
{
    if s.len() > 0 {
        lemma_white_count_bound(s.drop_last());
    }
}

/// Remaining work in the DFS frames: each frame can still advance its cursor
/// up to `m + 1` times.
spec fn frames_weight(st: Seq<(usize, usize)>, m: int) -> int
    decreases st.len(),
{
    if st.len() == 0 {
        0
    } else {
        frames_weight(st.drop_last(), m) + (m + 1 - st.last().1)
    }
}

proof fn lemma_frames_weight_nonneg(st: Seq<(usize, usize)>, m: int)
    requires
        forall|j: int| 0 <= j < st.len() ==> (#[trigger] st[j]).1 <= m,
    ensures
        frames_weight(st, m) >= 0,
    decreases st.len(),
{
    if st.len() > 0 {
        lemma_frames_weight_nonneg(st.drop_last(), m);
    }
}

spec fn on_stack(st: Seq<(usize, usize)>, v: int) -> bool {
    exists|j: int| 0 <= j < st.len() && (#[trigger] st[j]).0 == v
}

/// `v` sits strictly below `u` on the DFS stack.
spec fn below(st: Seq<(usize, usize)>, v: int, u: int) -> bool {
    exists|i: int, j: int| 0 <= i < j < st.len() && (#[trigger] st[i]).0 == v && (#[trigger] st[j]).0 == u
}

} // verus!

verus! {

/// Consecutive stack frames are joined by an edge.
spec fn stack_is_path(live: Seq<LayoutEdge>, st: Seq<(usize, usize)>) -> bool {
    forall|j: int| 0 <= j < st.len() - 1 ==> #[trigger] stack_link(live, st[j], st[j + 1])
}

/// Some edge leads from frame `a`'s node to frame `b`'s.
spec fn stack_link(live: Seq<LayoutEdge>, a: (usize, usize), b: (usize, usize)) -> bool {
    exists|k: int| 0 <= k < live.len() && (#[trigger] live[k]).from == a.0 && live[k].to == b.0
}

proof fn lemma_stack_descends(live: Seq<LayoutEdge>, st: Seq<(usize, usize)>, g: Seq<int>, i: int, j: int)
    requires
        descends(live, g),
        stack_is_path(live, st),
        0 <= i < j < st.len(),
    ensures
        g[st[i].0 as int] > g[st[j].0 as int],
    decreases j - i,
{
    let jj = j - 1;
    assert(stack_link(live, st[jj], st[jj + 1]));
    let k = choose|k: int| 0 <= k < live.len() && (#[trigger] live[k]).from == st[jj].0 && live[k].to == st[jj + 1].0;
    assert(g[live[k].from as int] > g[live[k].to as int]);
    if i < j - 1 {
        lemma_stack_descends(live, st, g, i, j - 1);
    }
}

/// The DFS bookkeeping that holds throughout the search: colours (0 white,
/// 1 on the current path, 2 finished), the path stack with per-frame edge
/// cursors, finishing times, and what every examined edge was found to be.
spec fn dfs_inv(
    n: int,
    live: Seq<LayoutEdge>,
    state: Seq<u8>,
    back: Seq<bool>,
    st: Seq<(usize, usize)>,
    fin: Seq<int>,
    clock: int,
    s: int,
) -> bool {
    let m = live.len();
    &&& forall|k: int|
        0 <= k < m ==> (#[trigger] live[k]).from < n && live[k].to < n && live[k].from != live[k].to
    &&& state.len() == n
    &&& back.len() == m
    &&& fin.len() == n
    &&& m <= usize::MAX
    &&& clock >= 0
    &&& 0 <= s <= n
    &&& forall|v: int| 0 <= v < n ==> #[trigger] state[v] <= 2
    &&& forall|j: int|
        0 <= j < st.len() ==> (#[trigger] st[j]).0 < n && state[st[j].0 as int] == 1 && st[j].1 <= m
    &&& forall|v: int| 0 <= v < n && #[trigger] state[v] == 1 ==> on_stack(st, v)
    &&& forall|i: int, j: int| 0 <= i < j < st.len() ==> (#[trigger] st[i]).0 != (#[trigger] st[j]).0
    &&& forall|v: int| 0 <= v < n && #[trigger] state[v] == 2 ==> 0 <= fin[v] < clock
    &&& forall|k: int|
        0 <= k < m && state[(#[trigger] live[k]).from as int] == 2 ==> if back[k] {
            &&& state[live[k].to as int] != 0
            &&& (state[live[k].to as int] == 2 ==> fin[live[k].from as int] < fin[live[k].to as int])
        } else {
            &&& state[live[k].to as int] == 2
            &&& fin[live[k].to as int] < fin[live[k].from as int]
        }
    &&& forall|j: int, k: int|
        0 <= j < st.len() && 0 <= k < (#[trigger] st[j]).1 && (#[trigger] live[k]).from == st[j].0 ==> if back[k] {
            state[live[k].to as int] == 1 && below(st, live[k].to as int, live[k].from as int)
        } else {
            state[live[k].to as int] == 2 || (state[live[k].to as int] == 1 && below(
                st,
                live[k].from as int,
                live[k].to as int,
            ))
        }
    &&& forall|k: int|
        0 <= k < m && #[trigger] back[k] ==> (state[live[k].from as int] == 2 || exists|j: int|
            0 <= j < st.len() && (#[trigger] st[j]).0 == live[k].from && k < st[j].1)
    &&& forall|v: int| 0 <= v < s ==> #[trigger] state[v] != 0
    &&& stack_is_path(live, st)
    &&& (exists|k: int| 0 <= k < m && #[trigger] back[k]) ==> !acyclic(live, n)
}

} // verus!

verus! {

proof fn lemma_dfs_pop(
    n: int,
    live: Seq<LayoutEdge>,
    state: Seq<u8>,
    back: Seq<bool>,
    st: Seq<(usize, usize)>,
    fin: Seq<int>,
    clock: int,
    s: int,
)
    requires
        dfs_inv(n, live, state, back, st, fin, clock, s),
        st.len() > 0,
        st.last().1 >= live.len(),
    ensures
        dfs_inv(
            n,
            live,
            state.update(st.last().0 as int, 2),
            back,
            st.drop_last(),
            fin.update(st.last().0 as int, clock),
            clock + 1,
            s,
        ),
{
    let m = live.len();
    let top = st.len() - 1;
    let u = st.last().0 as int;
    let state2 = state.update(u, 2);
    let st2 = st.drop_last();
    let fin2 = fin.update(u, clock);
    assert(st[top].0 == u);
    // Gray nodes other than `u` stay on the stack.
    assert forall|v: int| 0 <= v < n && #[trigger] state2[v] == 1 implies on_stack(st2, v) by {
        assert(v != u);
        let j = choose|j: int| 0 <= j < st.len() && (#[trigger] st[j]).0 == v;
        assert(j != top);
        assert(st2[j] == st[j]);
    }
    // Every edge out of `u` has been examined.
    assert forall|k: int|
        0 <= k < m && state2[(#[trigger] live[k]).from as int] == 2 implies if back[k] {
        &&& state2[live[k].to as int] != 0
        &&& (state2[live[k].to as int] == 2 ==> fin2[live[k].from as int] < fin2[live[k].to as int])
    } else {
        &&& state2[live[k].to as int] == 2
        &&& fin2[live[k].to as int] < fin2[live[k].from as int]
    } by {
        let a = live[k].from as int;
        let b = live[k].to as int;
        if a == u {
            assert(k < st[top].1);
            if back[k] {
                assert(state[b] == 1 && below(st, b, a));
                let (i, j) = choose|i: int, j: int| 0 <= i < j < st.len() && (#[trigger] st[i]).0 == b && (#[trigger] st[j]).0 == a;
                assert(j == top);
                assert(b != u);
            } else {
                if state[b] == 1 {
                    assert(below(st, a, b));
                    let (i, j) = choose|i: int, j: int| 0 <= i < j < st.len() && (#[trigger] st[i]).0 == a && (#[trigger] st[j]).0 == b;
                    assert(i == top);
                    assert(false);
                }
                assert(state[b] == 2);
                assert(b != u);
            }
        } else {
            assert(state[a] == 2);
            if b == u {
                assert(state[b] == 1);
            }
        }
    }
    assert forall|j: int, k: int|
        0 <= j < st2.len() && 0 <= k < (#[trigger] st2[j]).1 && (#[trigger] live[k]).from == st2[j].0 implies if back[k] {
        state2[live[k].to as int] == 1 && below(st2, live[k].to as int, live[k].from as int)
    } else {
        state2[live[k].to as int] == 2 || (state2[live[k].to as int] == 1 && below(
            st2,
            live[k].from as int,
            live[k].to as int,
        ))
    } by {
        assert(st2[j] == st[j]);
        let a = live[k].from as int;
        let b = live[k].to as int;
        assert(a != u);
        if back[k] {
            let (i, jj) = choose|i: int, jj: int| 0 <= i < jj < st.len() && (#[trigger] st[i]).0 == b && (#[trigger] st[jj]).0 == a;
            assert(jj != top);
            assert(st2[i] == st[i] && st2[jj] == st[jj]);
            assert(b != u);
        } else if state[b] == 1 && b != u {
            let (i, jj) = choose|i: int, jj: int| 0 <= i < jj < st.len() && (#[trigger] st[i]).0 == a && (#[trigger] st[jj]).0 == b;
            assert(jj != top);
            assert(st2[i] == st[i] && st2[jj] == st[jj]);
        }
    }
    assert forall|k: int| 0 <= k < m && #[trigger] back[k] implies (state2[live[k].from as int] == 2 || exists|j: int|
        0 <= j < st2.len() && (#[trigger] st2[j]).0 == live[k].from && k < st2[j].1) by {
        let a = live[k].from as int;
        if a != u && state[a] != 2 {
            let j = choose|j: int| 0 <= j < st.len() && (#[trigger] st[j]).0 == live[k].from && k < st[j].1;
            assert(j != top);
            assert(st2[j] == st[j]);
        }
    }
    assert forall|j: int| 0 <= j < st2.len() - 1 implies #[trigger] stack_link(live, st2[j], st2[j + 1]) by {
        assert(st2[j] == st[j] && st2[j + 1] == st[j + 1]);
        assert(stack_link(live, st[j], st[j + 1]));
    }
    assert forall|j: int|
        0 <= j < st2.len() implies (#[trigger] st2[j]).0 < n && state2[st2[j].0 as int] == 1 && st2[j].1 <= m by {
        assert(st2[j] == st[j]);
        assert(st[j].0 != st[top].0);
    }
    assert forall|i: int, j: int| 0 <= i < j < st2.len() implies (#[trigger] st2[i]).0 != (#[trigger] st2[j]).0 by {
        assert(st2[i] == st[i] && st2[j] == st[j]);
    }
    assert forall|v: int| 0 <= v < n && #[trigger] state2[v] == 2 implies 0 <= fin2[v] < clock + 1 by {}
    assert forall|v: int| 0 <= v < s implies #[trigger] state2[v] != 0 by {}
    assert forall|v: int| 0 <= v < n implies #[trigger] state2[v] <= 2 by {}
    assert(stack_is_path(live, st2));
    assert(state2.len() == n && fin2.len() == n && st2.len() == st.len() - 1);
}

} // verus!

verus! {

/// The cursor moves past an edge that needs nothing: it leaves another node,
/// or it reaches a finished one.
proof fn lemma_dfs_advance(
    n: int,
    live: Seq<LayoutEdge>,
    state: Seq<u8>,
    back: Seq<bool>,
    st: Seq<(usize, usize)>,
    fin: Seq<int>,
    clock: int,
    s: int,
)
    requires
        dfs_inv(n, live, state, back, st, fin, clock, s),
        st.len() > 0,
        st.last().1 < live.len(),
        live[st.last().1 as int].from != st.last().0 || state[live[st.last().1 as int].to as int] == 2,
    ensures
        dfs_inv(
            n,
            live,
            state,
            back,
            st.update(st.len() - 1, (st.last().0, (st.last().1 + 1) as usize)),
            fin,
            clock,
            s,
        ),
{
    let m = live.len();
    let top = st.len() - 1;
    let u = st.last().0;
    let c = st.last().1 as int;
    let st2 = st.update(top, (u, (c + 1) as usize));
    assert(st[top] == st.last());
    if back[c] && live[c].from == u {
        if state[live[c].from as int] != 2 {
            let j = choose|j: int| 0 <= j < st.len() && (#[trigger] st[j]).0 == live[c].from && c < st[j].1;
            assert(j == top);
        }
        assert(false);
    }
    assert forall|v: int| 0 <= v < n && #[trigger] state[v] == 1 implies on_stack(st2, v) by {
        let j = choose|j: int| 0 <= j < st.len() && (#[trigger] st[j]).0 == v;
        assert(st2[j].0 == st[j].0);
    }
    assert forall|a: int, b: int| below(st, a, b) implies below(st2, a, b) by {
        let (i, j) = choose|i: int, j: int| 0 <= i < j < st.len() && (#[trigger] st[i]).0 == a && (#[trigger] st[j]).0 == b;
        assert(st2[i].0 == st[i].0 && st2[j].0 == st[j].0);
    }
    assert forall|j: int|
        0 <= j < st2.len() implies (#[trigger] st2[j]).0 < n && state[st2[j].0 as int] == 1 && st2[j].1 <= m by {}
    assert forall|i: int, j: int| 0 <= i < j < st2.len() implies (#[trigger] st2[i]).0 != (#[trigger] st2[j]).0 by {
        assert(st2[i].0 == st[i].0 && st2[j].0 == st[j].0);
    }
    assert forall|j: int, k: int|
        0 <= j < st2.len() && 0 <= k < (#[trigger] st2[j]).1 && (#[trigger] live[k]).from == st2[j].0 implies if back[k] {
        state[live[k].to as int] == 1 && below(st2, live[k].to as int, live[k].from as int)
    } else {
        state[live[k].to as int] == 2 || (state[live[k].to as int] == 1 && below(
            st2,
            live[k].from as int,
            live[k].to as int,
        ))
    } by {
        if j == top && k == c {
        } else {
            assert(st2[j].0 == st[j].0);
            assert(k < st[j].1);
        }
    }
    assert forall|k: int| 0 <= k < m && #[trigger] back[k] implies (state[live[k].from as int] == 2 || exists|j: int|
        0 <= j < st2.len() && (#[trigger] st2[j]).0 == live[k].from && k < st2[j].1) by {
        if state[live[k].from as int] != 2 {
            let j = choose|j: int| 0 <= j < st.len() && (#[trigger] st[j]).0 == live[k].from && k < st[j].1;
            assert(st2[j].0 == st[j].0 && k < st2[j].1);
        }
    }
    assert forall|j: int| 0 <= j < st2.len() - 1 implies #[trigger] stack_link(live, st2[j], st2[j + 1]) by {
        assert(stack_link(live, st[j], st[j + 1]));
        let k = choose|k: int| 0 <= k < live.len() && (#[trigger] live[k]).from == st[j].0 && live[k].to == st[j + 1].0;
        assert(st2[j].0 == st[j].0 && st2[j + 1].0 == st[j + 1].0);
    }
}

/// A tree edge: the cursor moves on and the newly reached node is pushed.
proof fn lemma_dfs_tree(
    n: int,
    live: Seq<LayoutEdge>,
    state: Seq<u8>,
    back: Seq<bool>,
    st: Seq<(usize, usize)>,
    fin: Seq<int>,
    clock: int,
    s: int,
)
    requires
        dfs_inv(n, live, state, back, st, fin, clock, s),
        st.len() > 0,
        st.last().1 < live.len(),
        live[st.last().1 as int].from == st.last().0,
        state[live[st.last().1 as int].to as int] == 0,
    ensures
        dfs_inv(
            n,
            live,
            state.update(live[st.last().1 as int].to as int, 1),
            back,
            st.update(st.len() - 1, (st.last().0, (st.last().1 + 1) as usize)).push(
                (live[st.last().1 as int].to, 0usize),
            ),
            fin,
            clock,
            s,
        ),
{
    let m = live.len();
    let top = st.len() - 1;
    let u = st.last().0;
    let c = st.last().1 as int;
    let v = live[c].to;
    let st1 = st.update(top, (u, (c + 1) as usize));
    let st2 = st1.push((v, 0usize));
    let state2 = state.update(v as int, 1);
    assert(st[top] == st.last());
    if back[c] {
        if state[live[c].from as int] != 2 {
            let j = choose|j: int| 0 <= j < st.len() && (#[trigger] st[j]).0 == live[c].from && c < st[j].1;
            assert(j == top);
        }
        assert(false);
    }
    // The new node is on no frame yet.
    assert forall|j: int| 0 <= j < st.len() implies (#[trigger] st[j]).0 != v by {}
    assert forall|v2: int| 0 <= v2 < n && #[trigger] state2[v2] == 1 implies on_stack(st2, v2) by {
        if v2 == v {
            assert(st2[st2.len() - 1].0 == v);
        } else {
            let j = choose|j: int| 0 <= j < st.len() && (#[trigger] st[j]).0 == v2;
            assert(st2[j].0 == st[j].0);
        }
    }
    assert forall|a: int, b: int| below(st, a, b) implies below(st2, a, b) by {
        let (i, j) = choose|i: int, j: int| 0 <= i < j < st.len() && (#[trigger] st[i]).0 == a && (#[trigger] st[j]).0 == b;
        assert(st2[i].0 == st[i].0 && st2[j].0 == st[j].0);
    }
    assert(below(st2, u as int, v as int)) by {
        assert(st2[top].0 == u && st2[top + 1].0 == v);
    }
    assert forall|j: int|
        0 <= j < st2.len() implies (#[trigger] st2[j]).0 < n && state2[st2[j].0 as int] == 1 && st2[j].1 <= m by {
        if j < st.len() {
            assert(st2[j].0 == st[j].0);
        }
    }
    assert forall|i: int, j: int| 0 <= i < j < st2.len() implies (#[trigger] st2[i]).0 != (#[trigger] st2[j]).0 by {
        assert(st2[i].0 == st[i].0);
        if j < st.len() {
            assert(st2[j].0 == st[j].0);
        }
    }
    assert forall|k: int|
        0 <= k < m && state2[(#[trigger] live[k]).from as int] == 2 implies if back[k] {
        &&& state2[live[k].to as int] != 0
        &&& (state2[live[k].to as int] == 2 ==> fin[live[k].from as int] < fin[live[k].to as int])
    } else {
        &&& state2[live[k].to as int] == 2
        &&& fin[live[k].to as int] < fin[live[k].from as int]
    } by {
        assert(state[live[k].from as int] == 2);
    }
    assert forall|j: int, k: int|
        0 <= j < st2.len() && 0 <= k < (#[trigger] st2[j]).1 && (#[trigger] live[k]).from == st2[j].0 implies if back[k] {
        state2[live[k].to as int] == 1 && below(st2, live[k].to as int, live[k].from as int)
    } else {
        state2[live[k].to as int] == 2 || (state2[live[k].to as int] == 1 && below(
            st2,
            live[k].from as int,
            live[k].to as int,
        ))
    } by {
        if j == top && k == c {
        } else {
            assert(j < st.len());
            assert(st2[j].0 == st[j].0);
            assert(k < st[j].1);
            assert(live[k].to != v || state[v as int] != 0);
        }
    }
    assert forall|k: int| 0 <= k < m && #[trigger] back[k] implies (state2[live[k].from as int] == 2 || exists|j: int|
        0 <= j < st2.len() && (#[trigger] st2[j]).0 == live[k].from && k < st2[j].1) by {
        if state[live[k].from as int] != 2 {
            let j = choose|j: int| 0 <= j < st.len() && (#[trigger] st[j]).0 == live[k].from && k < st[j].1;
            assert(st2[j].0 == st[j].0 && k < st2[j].1);
        }
    }
    assert forall|j: int| 0 <= j < st2.len() - 1 implies #[trigger] stack_link(live, st2[j], st2[j + 1]) by {
        if j < top {
            assert(stack_link(live, st[j], st[j + 1]));
            let k = choose|k: int| 0 <= k < live.len() && (#[trigger] live[k]).from == st[j].0 && live[k].to == st[j + 1].0;
            assert(st2[j].0 == st[j].0 && st2[j + 1].0 == st[j + 1].0);
        } else {
            assert(live[c].from == st2[j].0 && live[c].to == st2[j + 1].0);
        }
    }
    assert forall|v2: int| 0 <= v2 < n && #[trigger] state2[v2] == 2 implies 0 <= fin[v2] < clock by {}
    assert forall|v2: int| 0 <= v2 < s implies #[trigger] state2[v2] != 0 by {}
    assert forall|v2: int| 0 <= v2 < n implies #[trigger] state2[v2] <= 2 by {}
}

/// A back edge: it closes a cycle through the current path, so the graph is
/// not acyclic, and it is marked.
proof fn lemma_dfs_back(
    n: int,
    live: Seq<LayoutEdge>,
    state: Seq<u8>,
    back: Seq<bool>,
    st: Seq<(usize, usize)>,
    fin: Seq<int>,
    clock: int,
    s: int,
)
    requires
        dfs_inv(n, live, state, back, st, fin, clock, s),
        st.len() > 0,
        st.last().1 < live.len(),
        live[st.last().1 as int].from == st.last().0,
        state[live[st.last().1 as int].to as int] == 1,
    ensures
        dfs_inv(
            n,
            live,
            state,
            back.update(st.last().1 as int, true),
            st.update(st.len() - 1, (st.last().0, (st.last().1 + 1) as usize)),
            fin,
            clock,
            s,
        ),
{
    let m = live.len();
    let top = st.len() - 1;
    let u = st.last().0;
    let c = st.last().1 as int;
    let v = live[c].to;
    let st2 = st.update(top, (u, (c + 1) as usize));
    let back2 = back.update(c, true);
    assert(st[top] == st.last());
    let jv = choose|j: int| 0 <= j < st.len() && (#[trigger] st[j]).0 == v;
    assert(jv != top);
    assert(below(st2, v as int, u as int)) by {
        assert(st2[jv].0 == v && st2[top].0 == u);
    }
    // The path from `v` down to `u` plus this edge is a cycle.
    if acyclic(live, n) {
        let g = choose|g: Seq<int>| g.len() == n && #[trigger] descends(live, g);
        lemma_stack_descends(live, st, g, jv, top);
        assert(g[live[c].from as int] > g[live[c].to as int]);
        assert(false);
    }
    assert forall|v2: int| 0 <= v2 < n && #[trigger] state[v2] == 1 implies on_stack(st2, v2) by {
        let j = choose|j: int| 0 <= j < st.len() && (#[trigger] st[j]).0 == v2;
        assert(st2[j].0 == st[j].0);
    }
    assert forall|a: int, b: int| below(st, a, b) implies below(st2, a, b) by {
        let (i, j) = choose|i: int, j: int| 0 <= i < j < st.len() && (#[trigger] st[i]).0 == a && (#[trigger] st[j]).0 == b;
        assert(st2[i].0 == st[i].0 && st2[j].0 == st[j].0);
    }
    assert forall|j: int|
        0 <= j < st2.len() implies (#[trigger] st2[j]).0 < n && state[st2[j].0 as int] == 1 && st2[j].1 <= m by {}
    assert forall|i: int, j: int| 0 <= i < j < st2.len() implies (#[trigger] st2[i]).0 != (#[trigger] st2[j]).0 by {
        assert(st2[i].0 == st[i].0 && st2[j].0 == st[j].0);
    }
    assert forall|k: int|
        0 <= k < m && state[(#[trigger] live[k]).from as int] == 2 implies if back2[k] {
        &&& state[live[k].to as int] != 0
        &&& (state[live[k].to as int] == 2 ==> fin[live[k].from as int] < fin[live[k].to as int])
    } else {
        &&& state[live[k].to as int] == 2
        &&& fin[live[k].to as int] < fin[live[k].from as int]
    } by {
        assert(k != c);
    }
    assert forall|j: int, k: int|
        0 <= j < st2.len() && 0 <= k < (#[trigger] st2[j]).1 && (#[trigger] live[k]).from == st2[j].0 implies if back2[k] {
        state[live[k].to as int] == 1 && below(st2, live[k].to as int, live[k].from as int)
    } else {
        state[live[k].to as int] == 2 || (state[live[k].to as int] == 1 && below(
            st2,
            live[k].from as int,
            live[k].to as int,
        ))
    } by {
        if j == top && k == c {
        } else {
            assert(st2[j].0 == st[j].0);
            if j == top {
                assert(k < c);
            }
            assert(k < st[j].1);
            if k == c {
                // Frames hold distinct nodes, so only the top frame owns edge `c`.
                assert(j == top);
            }
        }
    }
    assert forall|k: int| 0 <= k < m && #[trigger] back2[k] implies (state[live[k].from as int] == 2 || exists|j: int|
        0 <= j < st2.len() && (#[trigger] st2[j]).0 == live[k].from && k < st2[j].1) by {
        if k == c {
            assert(st2[top].0 == live[k].from && k < st2[top].1);
        } else if state[live[k].from as int] != 2 {
            let j = choose|j: int| 0 <= j < st.len() && (#[trigger] st[j]).0 == live[k].from && k < st[j].1;
            assert(st2[j].0 == st[j].0 && k < st2[j].1);
        }
    }
    assert forall|j: int| 0 <= j < st2.len() - 1 implies #[trigger] stack_link(live, st2[j], st2[j + 1]) by {
        assert(stack_link(live, st[j], st[j + 1]));
        let k = choose|k: int| 0 <= k < live.len() && (#[trigger] live[k]).from == st[j].0 && live[k].to == st[j + 1].0;
        assert(st2[j].0 == st[j].0 && st2[j + 1].0 == st[j + 1].0);
    }
}

} // verus!

verus! {

proof fn lemma_frames_weight_advance(st: Seq<(usize, usize)>, m: int, c2: usize)
    requires
        st.len() > 0,
        c2 == st.last().1 + 1,
    ensures
        frames_weight(st.update(st.len() - 1, (st.last().0, c2)), m) == frames_weight(st, m) - 1,
{
    let st2 = st.update(st.len() - 1, (st.last().0, c2));
    assert(st2.drop_last() =~= st.drop_last());
}

proof fn lemma_frames_weight_push(st: Seq<(usize, usize)>, m: int, f: (usize, usize))
    ensures
        frames_weight(st.push(f), m) == frames_weight(st, m) + (m + 1 - f.1),
{
    assert(st.push(f).drop_last() =~= st);
}

/// Depth-first from every unvisited node in index order, following each
/// node's edges in list order: an edge into the current path is a back edge.
/// Returns which edges are back edges.
fn back_edges(n: usize, live: &Vec<LayoutEdge>) -> (back: Vec<bool>)
    requires
        forall|k: int|
            0 <= k < live@.len() ==> (#[trigger] live@[k]).from < n && live@[k].to < n && live@[k].from
                != live@[k].to,
    ensures
        back.len() == live.len(),
        exists|fin: Seq<int>|
            fin.len() == n && forall|k: int|
                0 <= k < live@.len() ==> if #[trigger] back@[k] {
                    fin[live@[k].from as int] < fin[live@[k].to as int]
                } else {
                    fin[live@[k].to as int] < fin[live@[k].from as int]
                },
        acyclic(live@, n as int) ==> forall|k: int| 0 <= k < live@.len() ==> !(#[trigger] back@[k]),
        marks_back_edges(n as int, live@, back@),
{
    let m = live.len();
    let mut state: Vec<u8> = Vec::new();
    let mut i: usize = 0;
    while i < n
        invariant
            i <= n,
            state.len() == i,
            forall|j: int| 0 <= j < i ==> state@[j] == 0,
        decreases n - i,
    {
        state.push(0);
        i = i + 1;
    }
    let mut back: Vec<bool> = Vec::new();
    let mut i: usize = 0;
    while i < m
        invariant
            i <= m,
            m == live.len(),
            back.len() == i,
            forall|j: int| 0 <= j < i ==> !back@[j],
        decreases m - i,
    {
        back.push(false);
        i = i + 1;
    }
    let mut stack: Vec<(usize, usize)> = Vec::new();
    let ghost mut fin: Seq<int> = Seq::new(n as nat, |i: int| 0int);
    let ghost mut clock: int = 0;
    let mut s: usize = 0;
    let ghost start = search_start(n as int, m as int);
    let ghost mut steps: nat = 0;
    proof {
        assert(!(exists|k: int| 0 <= k < m && #[trigger] back@[k]));
        assert(state@ =~= start.0);
        assert(stack@ =~= start.1);
        assert(back@ =~= start.2);
    }
    while s < n
        invariant
            m == live.len(),
            dfs_inv(n as int, live@, state@, back@, stack@, fin, clock, s as int),
            stack.len() == 0,
            start == search_start(n as int, m as int),
            search_run(n as int, live@, start, steps) == (state@, stack@, back@, s as int),
        decreases n - s,
    {
        let ghost pre: SearchState = (state@, stack@, back@, s as int);
        proof {
            lemma_search_run_step(n as int, live@, start, steps);
            steps = steps + 1;
        }
        if state[s] == 0 {
            let ghost state0 = state@;
            state.set(s, 1);
            stack.push((s, 0));
            proof {
                assert(state@ =~= search_step(live@, pre).0);
                assert(stack@ =~= search_step(live@, pre).1);
                let st = stack@;
                assert(st[0] == (s, 0usize));
                assert forall|v: int| 0 <= v < n && #[trigger] state@[v] == 1 implies on_stack(st, v) by {
                    assert(v == s);
                }
                assert forall|j: int| 0 <= j < st.len() - 1 implies #[trigger] stack_link(live@, st[j], st[j + 1]) by {}
                lemma_white_count_update(state0, s as int, 1);
                lemma_white_count_bound(state@);
            }
            while stack.len() > 0
                invariant
                    m == live.len(),
                    s < n,
                    dfs_inv(n as int, live@, state@, back@, stack@, fin, clock, s as int + 1),
                    start == search_start(n as int, m as int),
                    search_run(n as int, live@, start, steps) == (state@, stack@, back@, s as int + 1),
                decreases white_count(state@) * (m + 2) + frames_weight(stack@, m as int),
            {
                let ghost pre2: SearchState = (state@, stack@, back@, s as int + 1);
                proof {
                    lemma_frames_weight_nonneg(stack@, m as int);
                    lemma_search_run_step(n as int, live@, start, steps);
                    steps = steps + 1;
                }
                let top = stack.len() - 1;
                let (u, c) = stack[top];
                let ghost st = stack@;
                let ghost w = white_count(state@);
                let ghost fw = frames_weight(stack@, m as int);
                if c >= m {
                    proof {
                        lemma_dfs_pop(n as int, live@, state@, back@, stack@, fin, clock, s as int + 1);
                        assert(st.drop_last().push(st.last()) =~= st);
                        lemma_frames_weight_push(st.drop_last(), m as int, st.last());
                        lemma_white_count_update(state@, u as int, 2);
                    }
                    state.set(u, 2);
                    stack.pop();
                    proof {
                        fin = fin.update(u as int, clock);
                        clock = clock + 1;
                        assert(stack@ =~= st.drop_last());
                        assert(white_count(state@) == w);
                        assert(frames_weight(stack@, m as int) == fw - 1);
                    }
                } else {
                    let e = live[c];
                    if e.from != u || state[e.to] == 2 {
                        proof {
                            lemma_dfs_advance(n as int, live@, state@, back@, stack@, fin, clock, s as int + 1);
                            lemma_frames_weight_advance(st, m as int, (c + 1) as usize);
                        }
                        stack.set(top, (u, c + 1));
                    } else if state[e.to] == 0 {
                        proof {
                            lemma_dfs_tree(n as int, live@, state@, back@, stack@, fin, clock, s as int + 1);
                            lemma_frames_weight_advance(st, m as int, (c + 1) as usize);
                            lemma_frames_weight_push(st.update(top as int, (u, (c + 1) as usize)), m as int, (e.to, 0usize));
                            lemma_white_count_update(state@, e.to as int, 1);
                            assert(w >= 1);
                            assert((w - 1) * (m + 2) == w * (m + 2) - (m + 2)) by (nonlinear_arith);
                        }
                        stack.set(top, (u, c + 1));
                        state.set(e.to, 1);
                        stack.push((e.to, 0));
                        proof {
                            assert(white_count(state@) == w - 1);
                            assert(frames_weight(stack@, m as int) == fw - 1 + m + 1);
                        }
                    } else {
                        proof {
                            lemma_dfs_back(n as int, live@, state@, back@, stack@, fin, clock, s as int + 1);
                            lemma_frames_weight_advance(st, m as int, (c + 1) as usize);
                        }
                        stack.set(top, (u, c + 1));
                        back.set(c, true);
                    }
                }
                proof {
                    assert(state@ =~= search_step(live@, pre2).0);
                    assert(stack@ =~= search_step(live@, pre2).1);
                    assert(back@ =~= search_step(live@, pre2).2);
                    lemma_frames_weight_nonneg(stack@, m as int);
                    let w2 = white_count(state@);
                    assert(w2 * (m + 2) >= 0) by (nonlinear_arith)
                        requires
                            w2 >= 0,
                    ;
                    assert(w2 <= w);
                    if w2 < w {
                        assert(w2 * (m + 2) <= w * (m + 2) - (m + 2)) by (nonlinear_arith)
                            requires
                                w2 + 1 <= w,
                        ;
                    }
                }
            }
        }
        proof {
            assert forall|v: int| 0 <= v < s + 1 implies #[trigger] state@[v] != 0 by {}
        }
        s = s + 1;
    }
    proof {
        assert(search_done(n as int, search_run(n as int, live@, start, steps)));
    }
    proof {
        assert forall|v: int| 0 <= v < n implies #[trigger] state@[v] == 2 by {
            if state@[v] == 1 {
                let j = choose|j: int| 0 <= j < stack@.len() && (#[trigger] stack@[j]).0 == v;
            }
        }
        assert forall|k: int|
            0 <= k < live@.len() implies if #[trigger] back@[k] {
            fin[live@[k].from as int] < fin[live@[k].to as int]
        } else {
            fin[live@[k].to as int] < fin[live@[k].from as int]
        } by {
            assert(state@[live@[k].from as int] == 2);
            assert(state@[live@[k].to as int] == 2);
        }
    }
    back
}

} // verus!

verus! {

/// Phase 1 — cycle removal. The live edges (both endpoints in range and
/// distinct) in the caller's order, with every back edge of a depth-first
/// search from each unvisited node in index order reversed for the layout.
/// The result has no cycle, and an acyclic input keeps every edge as given.
pub fn remove_cycles(n: usize, edges: &[(u32, u32)]) -> (r: Vec<LayoutEdge>)
    ensures
        flips_of(live_of(edges@, n as int), r@),
        marks_back_edges(n as int, live_of(edges@, n as int), r@.map_values(|e: LayoutEdge| e.reversed)),
        acyclic(r@, n as int),
        acyclic(live_of(edges@, n as int), n as int) ==> forall|i: int|
            0 <= i < r@.len() ==> !(#[trigger] r@[i]).reversed,
{
    let mut live: Vec<LayoutEdge> = Vec::new();
    let mut i: usize = 0;
    while i < edges.len()
        invariant
            i <= edges.len(),
            live@ == live_of(edges@.subrange(0, i as int), n as int),
        decreases edges.len() - i,
    {
        let (a, b) = edges[i];
        proof {
            assert(edges@.subrange(0, i + 1).drop_last() =~= edges@.subrange(0, i as int));
        }
        if (a as usize) < n && (b as usize) < n && a != b {
            live.push(LayoutEdge { orig: i, from: a as usize, to: b as usize, reversed: false });
        }
        i = i + 1;
    }
    proof {
        assert(edges@.subrange(0, edges.len() as int) =~= edges@);
        lemma_live_of_facts(edges@, n as int);
    }
    let back = back_edges(n, &live);
    let mut out: Vec<LayoutEdge> = Vec::new();
    let mut k: usize = 0;
    while k < live.len()
        invariant
            k <= live.len(),
            back.len() == live.len(),
            out.len() == k,
            forall|j: int| 0 <= j < live@.len() ==> !(#[trigger] live@[j]).reversed,
            forall|j: int|
                0 <= j < k ==> (#[trigger] out@[j]).orig == live@[j].orig && out@[j].reversed == back@[j]
                    && if back@[j] {
                    out@[j].from == live@[j].to && out@[j].to == live@[j].from
                } else {
                    out@[j].from == live@[j].from && out@[j].to == live@[j].to
                },
        decreases live.len() - k,
    {
        let e = live[k];
        if back[k] {
            out.push(LayoutEdge { orig: e.orig, from: e.to, to: e.from, reversed: true });
        } else {
            out.push(e);
        }
        k = k + 1;
    }
    proof {
        let fin = choose|fin: Seq<int>|
            fin.len() == n && forall|k: int|
                0 <= k < live@.len() ==> if #[trigger] back@[k] {
                    fin[live@[k].from as int] < fin[live@[k].to as int]
                } else {
                    fin[live@[k].to as int] < fin[live@[k].from as int]
                };
        assert forall|i: int| 0 <= i < out@.len() implies #[trigger] fin[out@[i].from as int] > fin[out@[i].to as int] by {
            assert(back@[i] == out@[i].reversed);
        }
        assert(descends(out@, fin));
        assert(out@.map_values(|e: LayoutEdge| e.reversed) =~= back@);
    }
    out
}

} // verus!

verus! {

/// The indices of the edges leaving (`by_from`) or entering `u`, in order.
pub open spec fn edges_at(es: Seq<LayoutEdge>, u: int, by_from: bool) -> Seq<usize>
    decreases es.len(),
{
    if es.len() == 0 {
        Seq::empty()
    } else {
        let rest = edges_at(es.drop_last(), u, by_from);
        let e = es.last();
        if (if by_from {
            e.from
        } else {
            e.to
        }) == u {
            rest.push((es.len() - 1) as usize)
        } else {
            rest
        }
    }
}

/// The endpoint an edge list is indexed by.
pub open spec fn end_of(e: LayoutEdge, by_from: bool) -> int {
    if by_from {
        e.from as int
    } else {
        e.to as int
    }
}

pub(crate) proof fn lemma_edges_at(es: Seq<LayoutEdge>, u: int, by_from: bool)
    requires
        es.len() <= usize::MAX,
    ensures
        forall|i: int|
            0 <= i < edges_at(es, u, by_from).len() ==> (#[trigger] edges_at(es, u, by_from)[i]) < es.len()
                && end_of(es[edges_at(es, u, by_from)[i] as int], by_from) == u,
        forall|k: int|
            0 <= k < es.len() && end_of(#[trigger] es[k], by_from) == u ==> edges_at(es, u, by_from).contains(
                k as usize,
            ),
        forall|i: int, j: int|
            0 <= i < j < edges_at(es, u, by_from).len() ==> (#[trigger] edges_at(es, u, by_from)[i]) < (
            #[trigger] edges_at(es, u, by_from)[j]),
        edges_at(es, u, by_from).len() <= es.len(),
    decreases es.len(),
{
    if es.len() > 0 {
        let d = es.drop_last();
        lemma_edges_at(d, u, by_from);
        let rest = edges_at(d, u, by_from);
        let cur = edges_at(es, u, by_from);
        assert forall|i: int| 0 <= i < rest.len() implies #[trigger] es[rest[i] as int] == d[rest[i] as int] by {}
        assert forall|k: int|
            0 <= k < es.len() && end_of(#[trigger] es[k], by_from) == u implies cur.contains(k as usize) by {
            if k < es.len() - 1 {
                assert(d[k] == es[k]);
                assert(rest.contains(k as usize));
                let i = choose|i: int| 0 <= i < rest.len() && rest[i] == k as usize;
                assert(cur[i] == k as usize);
            } else {
                assert(cur[cur.len() - 1] == k as usize);
            }
        }
    }
}

/// How many edges into `v` are not yet consumed.
pub open spec fn pending_into(es: Seq<LayoutEdge>, consumed: Seq<bool>, v: int) -> nat
    decreases es.len(),
{
    if es.len() == 0 {
        0
    } else {
        let k = es.len() - 1;
        pending_into(es.drop_last(), consumed, v) + (if es[k].to == v && !consumed[k] {
            1nat
        } else {
            0nat
        })
    }
}

pub(crate) proof fn lemma_pending_consume(es: Seq<LayoutEdge>, consumed: Seq<bool>, k: int, v: int)
    requires
        0 <= k < es.len(),
        consumed.len() >= es.len(),
        !consumed[k],
    ensures
        pending_into(es, consumed.update(k, true), v) + (if es[k].to == v { 1int } else { 0int })
            == pending_into(es, consumed, v),
    decreases es.len(),
{
    let c2 = consumed.update(k, true);
    if k < es.len() - 1 {
        lemma_pending_consume(es.drop_last(), consumed, k, v);
    } else {
        lemma_pending_same(es.drop_last(), consumed, c2, v);
    }
}

pub(crate) proof fn lemma_pending_same(es: Seq<LayoutEdge>, c1: Seq<bool>, c2: Seq<bool>, v: int)
    requires
        c1.len() >= es.len(),
        c2.len() >= es.len(),
        forall|k: int| 0 <= k < es.len() ==> c1[k] == c2[k],
    ensures
        pending_into(es, c1, v) == pending_into(es, c2, v),
    decreases es.len(),
{
    if es.len() > 0 {
        lemma_pending_same(es.drop_last(), c1, c2, v);
    }
}

/// A positive pending count names an unconsumed edge into `v`.
pub(crate) proof fn lemma_pending_witness(es: Seq<LayoutEdge>, consumed: Seq<bool>, v: int)
    requires
        consumed.len() >= es.len(),
        pending_into(es, consumed, v) > 0,
    ensures
        exists|k: int| 0 <= k < es.len() && (#[trigger] es[k]).to == v && !consumed[k],
    decreases es.len(),
{
    let k = es.len() - 1;
    if !(es[k].to == v && !consumed[k]) {
        lemma_pending_witness(es.drop_last(), consumed, v);
        let j = choose|j: int| 0 <= j < es.len() - 1 && (#[trigger] es.drop_last()[j]).to == v && !consumed[j];
        assert(es[j] == es.drop_last()[j]);
    }
}

/// With nothing consumed, every edge into `v` is pending.
pub(crate) proof fn lemma_pending_none_consumed(es: Seq<LayoutEdge>, consumed: Seq<bool>, v: int)
    requires
        consumed.len() >= es.len(),
        forall|k: int| 0 <= k < es.len() ==> !consumed[k],
    ensures
        pending_into(es, consumed, v) == edges_at(es, v, false).len(),
    decreases es.len(),
{
    if es.len() > 0 {
        lemma_pending_none_consumed(es.drop_last(), consumed, v);
    }
}

/// Among the nodes where `p` holds, one with the largest `g`.
pub(crate) proof fn argmax(n: int, p: spec_fn(int) -> bool, g: Seq<int>, w: int) -> (v: int)
    requires
        0 <= w < n,
        p(w),
        g.len() == n,
    ensures
        0 <= v < n,
        p(v),
        forall|x: int| 0 <= x < n && p(x) ==> #[trigger] g[x] <= g[v],
    decreases n,
{
    if n == 1 {
        w
    } else {
        let q = |x: int| x < n - 1 && p(x);
        if exists|x: int| 0 <= x < n - 1 && #[trigger] p(x) {
            let x0 = choose|x: int| 0 <= x < n - 1 && #[trigger] p(x);
            let v = argmax(n - 1, q, g.drop_last(), x0);
            assert forall|x: int| 0 <= x < n - 1 && p(x) implies #[trigger] g[x] <= g[v] by {
                assert(q(x));
                assert(g.drop_last()[x] <= g.drop_last()[v]);
            }
            if p(n - 1) && g[n - 1] > g[v] {
                n - 1
            } else {
                v
            }
        } else {
            n - 1
        }
    }
}

} // verus!

verus! {

/// Per-node lists of the edges leaving and entering each node, by edge
/// index in list order, and each node's in-degree.
pub(crate) fn build_adjacency(n: usize, edges: &[LayoutEdge]) -> (r: (Vec<Vec<usize>>, Vec<Vec<usize>>, Vec<usize>))
    requires
        forall|k: int| 0 <= k < edges@.len() ==> (#[trigger] edges@[k]).from < n && edges@[k].to < n,
    ensures
        r.0.len() == n,
        r.1.len() == n,
        r.2.len() == n,
        forall|u: int| 0 <= u < n ==> (#[trigger] r.0@[u])@ == edges_at(edges@, u, true),
        forall|u: int| 0 <= u < n ==> (#[trigger] r.1@[u])@ == edges_at(edges@, u, false),
        forall|u: int| 0 <= u < n ==> #[trigger] r.2@[u] == edges_at(edges@, u, false).len(),
{
    let mut out: Vec<Vec<usize>> = Vec::new();
    let mut inc: Vec<Vec<usize>> = Vec::new();
    let mut indeg: Vec<usize> = Vec::new();
    let mut i: usize = 0;
    while i < n
        invariant
            i <= n,
            out.len() == i,
            inc.len() == i,
            indeg.len() == i,
            forall|u: int| 0 <= u < i ==> (#[trigger] out@[u])@ == Seq::<usize>::empty(),
            forall|u: int| 0 <= u < i ==> (#[trigger] inc@[u])@ == Seq::<usize>::empty(),
            forall|u: int| 0 <= u < i ==> #[trigger] indeg@[u] == 0,
        decreases n - i,
    {
        out.push(Vec::new());
        inc.push(Vec::new());
        indeg.push(0);
        i = i + 1;
    }
    let mut k: usize = 0;
    while k < edges.len()
        invariant
            k <= edges.len(),
            out.len() == n,
            inc.len() == n,
            indeg.len() == n,
            forall|kk: int| 0 <= kk < edges@.len() ==> (#[trigger] edges@[kk]).from < n && edges@[kk].to < n,
            forall|u: int| 0 <= u < n ==> (#[trigger] out@[u])@ == edges_at(edges@.subrange(0, k as int), u, true),
            forall|u: int| 0 <= u < n ==> (#[trigger] inc@[u])@ == edges_at(edges@.subrange(0, k as int), u, false),
            forall|u: int| 0 <= u < n ==> #[trigger] indeg@[u] == edges_at(edges@.subrange(0, k as int), u, false).len(),
        decreases edges.len() - k,
    {
        let e = edges[k];
        let ghost sub = edges@.subrange(0, k as int);
        let ghost sub2 = edges@.subrange(0, k + 1);
        proof {
            assert(sub2.drop_last() =~= sub);
            assert(sub2.last() == e);
            lemma_edges_at(sub, e.to as int, false);
        }
        out[e.from].push(k);
        inc[e.to].push(k);
        let d = indeg[e.to];
        indeg.set(e.to, d + 1);
        proof {
            assert forall|u: int| 0 <= u < n implies (#[trigger] out@[u])@ == edges_at(sub2, u, true) by {}
            assert forall|u: int| 0 <= u < n implies (#[trigger] inc@[u])@ == edges_at(sub2, u, false) by {}
            assert forall|u: int| 0 <= u < n implies #[trigger] indeg@[u] == edges_at(sub2, u, false).len() by {}
        }
        k = k + 1;
    }
    proof {
        assert(edges@.subrange(0, edges@.len() as int) =~= edges@);
    }
    (out, inc, indeg)
}

} // verus!
