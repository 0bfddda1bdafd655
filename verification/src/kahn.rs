use vstd::prelude::*;
use crate::layered::LayoutEdge;
use crate::layered::edges_at;

verus! {

/// A moment of the longest-path pass: each node's count of edges in that
/// are still to be consumed, the queue of nodes whose count reached zero
/// (in the order they reached it), how many of them have been taken, and
/// the ranks so far.
pub type KahnState = (Seq<usize>, Seq<usize>, int, Seq<u32>);

/// The nodes `0..v` that no edge enters, in index order.
pub open spec fn sources_upto(es: Seq<LayoutEdge>, v: int) -> Seq<usize>
    decreases v,
{
    if v <= 0 {
        Seq::empty()
    } else if edges_at(es, v - 1, false).len() == 0 {
        sources_upto(es, v - 1).push((v - 1) as usize)
    } else {
        sources_upto(es, v - 1)
    }
}

/// Every node with its full count of incoming edges, the sources queued in
/// index order, every rank 0.
pub open spec fn kahn_start(es: Seq<LayoutEdge>, n: int) -> KahnState {
    (
        Seq::new(n as nat, |v: int| edges_at(es, v, false).len() as usize),
        sources_upto(es, n),
        0,
        Seq::new(n as nat, |v: int| 0u32),
    )
}

/// Consume edge `k` out of a node of rank `ru`: its target climbs to at
/// least `ru + 1`, and is queued when this was its last pending edge.
pub open spec fn relax_edge(es: Seq<LayoutEdge>, ru: u32, st: (Seq<usize>, Seq<usize>, Seq<u32>), k: usize) -> (
    Seq<usize>,
    Seq<usize>,
    Seq<u32>,
) {
    let (indeg, queue, rank) = st;
    let v = es[k as int].to as int;
    (
        indeg.update(v, (indeg[v] - 1) as usize),
        if indeg[v] == 1 {
            queue.push(v as usize)
        } else {
            queue
        },
        if rank[v] < ru + 1 {
            rank.update(v, (ru + 1) as u32)
        } else {
            rank
        },
    )
}

/// Consume the edges `ks[..j]` in order.
pub open spec fn relax_upto(es: Seq<LayoutEdge>, ks: Seq<usize>, j: int, ru: u32, st: (Seq<usize>, Seq<usize>, Seq<u32>)) -> (
    Seq<usize>,
    Seq<usize>,
    Seq<u32>,
)
    decreases j,
{
    if j <= 0 {
        st
    } else {
        relax_edge(es, ru, relax_upto(es, ks, j - 1, ru, st), ks[j - 1])
    }
}

/// Take the next queued node and consume its outgoing edges in list order.
pub open spec fn kahn_step(es: Seq<LayoutEdge>, st: KahnState) -> KahnState {
    let (indeg, queue, head, rank) = st;
    if 0 <= head < queue.len() {
        let u = queue[head] as int;
        let ks = edges_at(es, u, true);
        let r = relax_upto(es, ks, ks.len() as int, rank[u], (indeg, queue, rank));
        (r.0, r.1, head + 1, r.2)
    } else {
        st
    }
}

/// Every queued node has been taken.
pub open spec fn kahn_done(st: KahnState) -> bool {
    st.2 >= st.1.len()
}

/// At most `f` steps of the pass from `st`, stopping once it is done.
pub open spec fn kahn_run(es: Seq<LayoutEdge>, st: KahnState, f: nat) -> KahnState
    decreases f,
{
    if f == 0 || kahn_done(st) {
        st
    } else {
        kahn_run(es, kahn_step(es, st), (f - 1) as nat)
    }
}

/// The smallest rank among the targets of the edges `ks` (nonempty).
pub open spec fn min_target(es: Seq<LayoutEdge>, ks: Seq<usize>, rank: Seq<u32>) -> u32
    decreases ks.len(),
{
    if ks.len() <= 1 {
        rank[es[ks[0] as int].to as int]
    } else {
        let b = min_target(es, ks.drop_last(), rank);
        let x = rank[es[ks.last() as int].to as int];
        if x < b {
            x
        } else {
            b
        }
    }
}

/// One past the largest rank among the sources of the edges `ks`; 0 when
/// there are none.
pub open spec fn floor_of_sources(es: Seq<LayoutEdge>, ks: Seq<usize>, rank: Seq<u32>) -> int
    decreases ks.len(),
{
    if ks.len() == 0 {
        0
    } else {
        let b = floor_of_sources(es, ks.drop_last(), rank);
        let x = rank[es[ks.last() as int].from as int] + 1;
        if x > b {
            x
        } else {
            b
        }
    }
}

/// Tighten node `u`: with more edges out than in it moves to just above its
/// nearest successor (not below rank 0), but never above one past its
/// deepest predecessor.
pub open spec fn tighten_node(es: Seq<LayoutEdge>, u: int, rank: Seq<u32>) -> Seq<u32> {
    let outs = edges_at(es, u, true);
    let ins = edges_at(es, u, false);
    if outs.len() > ins.len() {
        let sm = min_target(es, outs, rank);
        let pulled: int = if sm > 0 {
            sm - 1
        } else {
            0
        };
        let fl = floor_of_sources(es, ins, rank);
        rank.update(
            u,
            (if pulled > fl {
                pulled
            } else {
                fl
            }) as u32,
        )
    } else {
        rank
    }
}

/// Tighten the last `t` nodes of `order`, last first.
pub open spec fn tighten_upto(es: Seq<LayoutEdge>, order: Seq<usize>, t: int, rank: Seq<u32>) -> Seq<u32>
    decreases t,
{
    if t <= 0 {
        rank
    } else {
        tighten_node(es, order[order.len() - t] as int, tighten_upto(es, order, t - 1, rank))
    }
}

/// `r` is `t` shifted down by one amount so that its smallest rank is 0.
pub open spec fn shifted_to_zero(r: Seq<u32>, t: Seq<u32>) -> bool {
    &&& r.len() == t.len()
    &&& t.len() > 0 ==> exists|v: int| 0 <= v < r.len() && #[trigger] r[v] == 0
    &&& forall|v: int| 0 <= v < r.len() ==> t[v] - #[trigger] r[v] == t[0] - r[0]
}

/// `r` is the ranking of `n` nodes under the edges `es`: longest paths by
/// Kahn's order with the sources in index order, tightened in reverse of
/// that order, shifted to start at 0. A node the order never reaches (one on
/// a cycle, or fed by one) keeps the rank its reached predecessors gave it.
pub open spec fn kahn_ranking(es: Seq<LayoutEdge>, n: int, r: Seq<u32>) -> bool {
    exists|f: nat|
        #[trigger] kahn_done(kahn_run(es, kahn_start(es, n), f)) && shifted_to_zero(
            r,
            tighten_upto(
                es,
                kahn_run(es, kahn_start(es, n), f).1,
                kahn_run(es, kahn_start(es, n), f).1.len() as int,
                kahn_run(es, kahn_start(es, n), f).3,
            ),
        )
}

/// Running one step past a state that is not done takes that step.
pub proof fn lemma_kahn_run_step(es: Seq<LayoutEdge>, st: KahnState, f: nat)
    requires
        !kahn_done(kahn_run(es, st, f)),
    ensures
        kahn_run(es, st, f + 1) == kahn_step(es, kahn_run(es, st, f)),
    decreases f,
{
    assert(!kahn_done(st));
    assert(kahn_run(es, st, f + 1) == kahn_run(es, kahn_step(es, st), f));
    if f > 0 {
        assert(kahn_run(es, st, f) == kahn_run(es, kahn_step(es, st), (f - 1) as nat));
        lemma_kahn_run_step(es, kahn_step(es, st), (f - 1) as nat);
    } else {
        assert(kahn_run(es, kahn_step(es, st), 0) == kahn_step(es, st));
    }
}

proof fn lemma_kahn_run_stays(es: Seq<LayoutEdge>, st: KahnState, f: nat, g: nat)
    requires
        kahn_done(kahn_run(es, st, f)),
        f <= g,
    ensures
        kahn_run(es, st, g) == kahn_run(es, st, f),
    decreases f,
{
    if f > 0 && !kahn_done(st) {
        lemma_kahn_run_stays(es, kahn_step(es, st), (f - 1) as nat, (g - 1) as nat);
    }
}

/// Law: the ranking is determined — any two rank lists that both meet
/// `kahn_ranking` for the same edges and node count are equal.
pub proof fn kahn_ranking_unique(es: Seq<LayoutEdge>, n: int, a: Seq<u32>, b: Seq<u32>)
    requires
        kahn_ranking(es, n, a),
        kahn_ranking(es, n, b),
    ensures
        a == b,
{
    let st = kahn_start(es, n);
    let fa = choose|f: nat|
        #[trigger] kahn_done(kahn_run(es, st, f)) && shifted_to_zero(
            a,
            tighten_upto(es, kahn_run(es, st, f).1, kahn_run(es, st, f).1.len() as int, kahn_run(es, st, f).3),
        );
    let fb = choose|f: nat|
        #[trigger] kahn_done(kahn_run(es, st, f)) && shifted_to_zero(
            b,
            tighten_upto(es, kahn_run(es, st, f).1, kahn_run(es, st, f).1.len() as int, kahn_run(es, st, f).3),
        );
    if fa <= fb {
        lemma_kahn_run_stays(es, st, fa, fb);
    } else {
        lemma_kahn_run_stays(es, st, fb, fa);
    }
    let fin = kahn_run(es, st, fa);
    let t = tighten_upto(es, fin.1, fin.1.len() as int, fin.3);
    if t.len() > 0 {
        let v = choose|v: int| 0 <= v < a.len() && #[trigger] a[v] == 0;
        let w = choose|w: int| 0 <= w < b.len() && #[trigger] b[w] == 0;
        assert(t[v] - a[v] == t[0] - a[0]);
        assert(t[v] - b[v] == t[0] - b[0]);
        assert(t[w] - a[w] == t[0] - a[0]);
        assert(t[w] - b[w] == t[0] - b[0]);
        assert forall|x: int| 0 <= x < a.len() implies a[x] == b[x] by {
            assert(t[x] - a[x] == t[0] - a[0]);
            assert(t[x] - b[x] == t[0] - b[0]);
        }
    }
    assert(a =~= b);
}

/// The smallest target rank is at most each of them and is one of them.
pub proof fn lemma_min_target(es: Seq<LayoutEdge>, ks: Seq<usize>, rank: Seq<u32>)
    requires
        ks.len() > 0,
    ensures
        forall|i: int| 0 <= i < ks.len() ==> min_target(es, ks, rank) <= rank[es[(#[trigger] ks[i]) as int].to as int],
        exists|i: int| 0 <= i < ks.len() && min_target(es, ks, rank) == rank[es[(#[trigger] ks[i]) as int].to as int],
    decreases ks.len(),
{
    if ks.len() > 1 {
        let p = ks.drop_last();
        lemma_min_target(es, p, rank);
        assert forall|i: int| 0 <= i < ks.len() implies min_target(es, ks, rank) <= rank[es[(#[trigger] ks[i]) as int].to as int] by {
            if i < ks.len() - 1 {
                assert(ks[i] == p[i]);
            }
        }
        if min_target(es, ks, rank) == rank[es[ks.last() as int].to as int] {
            assert(min_target(es, ks, rank) == rank[es[ks[ks.len() - 1] as int].to as int]);
        } else {
            let i = choose|i: int| 0 <= i < p.len() && min_target(es, p, rank) == rank[es[(#[trigger] p[i]) as int].to as int];
            assert(ks[i] == p[i]);
        }
    } else {
        assert(min_target(es, ks, rank) == rank[es[ks[0] as int].to as int]);
    }
}

/// The floor is past each source rank, and is 0 or one past one of them.
pub proof fn lemma_floor_of_sources(es: Seq<LayoutEdge>, ks: Seq<usize>, rank: Seq<u32>)
    ensures
        forall|i: int| 0 <= i < ks.len() ==> rank[es[(#[trigger] ks[i]) as int].from as int] + 1 <= floor_of_sources(es, ks, rank),
        floor_of_sources(es, ks, rank) == 0 || exists|i: int|
            0 <= i < ks.len() && floor_of_sources(es, ks, rank) == rank[es[(#[trigger] ks[i]) as int].from as int] + 1,
        floor_of_sources(es, ks, rank) >= 0,
    decreases ks.len(),
{
    if ks.len() > 0 {
        let p = ks.drop_last();
        lemma_floor_of_sources(es, p, rank);
        assert forall|i: int| 0 <= i < ks.len() implies rank[es[(#[trigger] ks[i]) as int].from as int] + 1 <= floor_of_sources(es, ks, rank) by {
            if i < ks.len() - 1 {
                assert(ks[i] == p[i]);
            }
        }
        if floor_of_sources(es, ks, rank) == rank[es[ks.last() as int].from as int] + 1 {
            assert(floor_of_sources(es, ks, rank) == rank[es[ks[ks.len() - 1] as int].from as int] + 1);
        } else if floor_of_sources(es, p, rank) != 0 {
            let i = choose|i: int| 0 <= i < p.len() && floor_of_sources(es, p, rank) == rank[es[(#[trigger] p[i]) as int].from as int] + 1;
            assert(ks[i] == p[i]);
        }
    }
}

} // verus!
