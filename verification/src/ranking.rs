use vstd::prelude::*;
use crate::layered::LayoutEdge;
use crate::layered::acyclic;
use crate::layered::descends;
use crate::layered::edges_at;
use crate::layered::end_of;
use crate::layered::pending_into;
use crate::layered::lemma_edges_at;
use crate::layered::lemma_pending_consume;
use crate::layered::lemma_pending_witness;
use crate::layered::lemma_pending_none_consumed;
use crate::layered::argmax;
use crate::layered::build_adjacency;
use crate::ordering::lemma_pigeon;
use crate::kahn::KahnState;
use crate::kahn::sources_upto;
use crate::kahn::kahn_start;
use crate::kahn::relax_upto;
use crate::kahn::kahn_step;
use crate::kahn::kahn_done;
use crate::kahn::kahn_run;
use crate::kahn::lemma_kahn_run_step;
use crate::kahn::min_target;
use crate::kahn::floor_of_sources;
use crate::kahn::tighten_node;
use crate::kahn::tighten_upto;
use crate::kahn::lemma_min_target;
use crate::kahn::lemma_floor_of_sources;
use crate::kahn::shifted_to_zero;
use crate::kahn::kahn_ranking;

verus! {

/// How many entries are set.
spec fn count_true(s: Seq<bool>) -> nat
    decreases s.len(),
{
    if s.len() == 0 {
        0
    } else {
        count_true(s.drop_last()) + (if s.last() {
            1nat
        } else {
            0nat
        })
    }
}

proof fn lemma_count_true_set(s: Seq<bool>, i: int)
    requires
        0 <= i < s.len(),
        !s[i],
    ensures
        count_true(s.update(i, true)) == count_true(s) + 1,
    decreases s.len(),
{
    let t = s.update(i, true);
    if i == s.len() - 1 {
        assert(t.drop_last() =~= s.drop_last());
    } else {
        assert(t.drop_last() =~= s.drop_last().update(i, true));
        lemma_count_true_set(s.drop_last(), i);
    }
}

proof fn lemma_count_true_bound(s: Seq<bool>)
    ensures
        count_true(s) <= s.len(),
    decreases s.len(),
{
    if s.len() > 0 {
        lemma_count_true_bound(s.drop_last());
    }
}

proof fn lemma_count_true_none(s: Seq<bool>)
    requires
        forall|i: int| 0 <= i < s.len() ==> !s[i],
    ensures
        count_true(s) == 0,
    decreases s.len(),
{
    if s.len() > 0 {
        lemma_count_true_none(s.drop_last());
    }
}

proof fn lemma_count_true_all(s: Seq<bool>)
    requires
        forall|i: int| 0 <= i < s.len() ==> s[i],
    ensures
        count_true(s) == s.len(),
    decreases s.len(),
{
    if s.len() > 0 {
        lemma_count_true_all(s.drop_last());
    }
}

/// Node `v`'s rank is one past the source of a consumed edge into it.
spec fn ranked_by_edge(es: Seq<LayoutEdge>, consumed: Seq<bool>, rank: Seq<u32>, v: int) -> bool {
    exists|k: int| 0 <= k < es.len() && consumed[k] && (#[trigger] es[k]).to == v && rank[v] == rank[es[k].from as int] + 1
}

/// The state of Kahn's traversal: `queue` holds every node whose in-edges
/// are all consumed, `head` of them processed; `idx` places each queued node.
spec fn kahn_inv(
    n: int,
    es: Seq<LayoutEdge>,
    queue: Seq<usize>,
    head: int,
    indeg: Seq<usize>,
    rank: Seq<u32>,
    consumed: Seq<bool>,
    inq: Seq<bool>,
    idx: Seq<int>,
) -> bool {
    &&& indeg.len() == n
    &&& rank.len() == n
    &&& consumed.len() == es.len()
    &&& inq.len() == n
    &&& idx.len() == n
    &&& 0 <= head <= queue.len()
    &&& queue.len() == count_true(inq)
    &&& forall|i: int| 0 <= i < queue.len() ==> (#[trigger] queue[i]) < n && inq[queue[i] as int] && idx[queue[i] as int] == i
    &&& forall|v: int| 0 <= v < n && #[trigger] inq[v] ==> 0 <= idx[v] < queue.len() && queue[idx[v]] == v
    &&& forall|v: int| 0 <= v < n ==> #[trigger] indeg[v] == pending_into(es, consumed, v)
    &&& forall|v: int| 0 <= v < n ==> (#[trigger] inq[v] <==> indeg[v] == 0)
    &&& forall|k: int| 0 <= k < es.len() && #[trigger] consumed[k] ==> rank[es[k].from as int] < rank[es[k].to as int]
    &&& forall|v: int| 0 <= v < n ==> #[trigger] rank[v] <= head
    &&& forall|i: int| 0 <= i < head ==> #[trigger] rank[queue[i] as int] <= i
    &&& es.len() == 0 ==> forall|v: int| 0 <= v < n ==> #[trigger] rank[v] == 0
    &&& forall|k: int|
        0 <= k < es.len() && #[trigger] inq[es[k].to as int] ==> inq[es[k].from as int] && idx[es[k].from as int] < idx[es[k].to as int]
    &&& forall|v: int| 0 <= v < n ==> #[trigger] rank[v] == 0 || ranked_by_edge(es, consumed, rank, v)
}

/// A node is processed once the traversal has moved past it.
spec fn is_done(queue: Seq<usize>, head: int, inq: Seq<bool>, idx: Seq<int>, v: int) -> bool {
    inq[v] && idx[v] < head
}

/// Kahn's algorithm with sources taken in index order: the nodes in the order
/// processed, and each node's longest-path rank from the sources.
#[verifier::rlimit(50)]
fn longest_paths(n: usize, edges: &[LayoutEdge], out: &Vec<Vec<usize>>, indeg0: Vec<usize>) -> (r: (Vec<usize>, Vec<u32>))
    requires
        n <= 0x7fff_fffe,
        forall|k: int| 0 <= k < edges@.len() ==> (#[trigger] edges@[k]).from < n && edges@[k].to < n,
        out.len() == n,
        indeg0.len() == n,
        forall|u: int| 0 <= u < n ==> (#[trigger] out@[u])@ == edges_at(edges@, u, true),
        forall|u: int| 0 <= u < n ==> #[trigger] indeg0@[u] == edges_at(edges@, u, false).len(),
    ensures
        r.1.len() == n,
        r.0.len() <= n,
        forall|i: int| 0 <= i < r.0.len() ==> (#[trigger] r.0@[i]) < n,
        forall|a: int, b: int| 0 <= a < b < r.0.len() ==> #[trigger] r.0@[a] != #[trigger] r.0@[b],
        forall|k: int, i: int, j: int|
            #![trigger edges@[k], r.0@[i], r.0@[j]]
            0 <= k < edges@.len() && 0 <= i < r.0.len() && 0 <= j < r.0.len() && r.0@[i] == edges@[k].from
                && r.0@[j] == edges@[k].to ==> i < j,
        forall|v: int| 0 <= v < n ==> #[trigger] r.1@[v] <= n,
        edges@.len() == 0 ==> forall|v: int| 0 <= v < n ==> #[trigger] r.1@[v] == 0,
        acyclic(edges@, n as int) ==> {
            &&& r.0.len() == n
            &&& forall|k: int| 0 <= k < edges@.len() ==> r.1@[(#[trigger] edges@[k]).from as int] < r.1@[edges@[k].to as int]
            &&& forall|v: int| 0 <= v < n ==> #[trigger] r.1@[v] < n
            &&& longest_path_ranks(edges@, r.1@)
        },
        exists|f: nat|
            #[trigger] kahn_done(kahn_run(edges@, kahn_start(edges@, n as int), f)) && kahn_run(edges@, kahn_start(edges@, n as int), f).1
                == r.0@ && kahn_run(edges@, kahn_start(edges@, n as int), f).3 == r.1@,
{
    let mut indeg = indeg0;
    let mlen = edges.len();
    let ghost es = edges@;
    let ghost m = es.len();
    let ghost mut consumed: Seq<bool> = Seq::new(m, |k: int| false);
    let ghost mut inq: Seq<bool> = Seq::new(n as nat, |v: int| false);
    let ghost mut idx: Seq<int> = Seq::new(n as nat, |v: int| 0int);
    proof {
        lemma_count_true_none(inq);
        assert forall|v: int| 0 <= v < n implies #[trigger] indeg@[v] == pending_into(es, consumed, v) by {
            lemma_pending_none_consumed(es, consumed, v);
        }
    }
    let mut queue: Vec<usize> = Vec::new();
    let mut rank: Vec<u32> = Vec::new();
    let mut v: usize = 0;
    while v < n
        invariant
            v <= n,
            n <= 0x7fff_fffe,
            es == edges@,
            indeg.len() == n,
            rank.len() == v,
            inq.len() == n,
            idx.len() == n,
            consumed.len() == es.len(),
            queue.len() == count_true(inq),
            forall|u: int| 0 <= u < rank.len() ==> #[trigger] rank@[u] == 0,
            forall|i: int| 0 <= i < queue.len() ==> (#[trigger] queue@[i]) < v && inq[queue@[i] as int] && idx[queue@[i] as int] == i,
            forall|u: int| 0 <= u < n && #[trigger] inq[u] ==> u < v && 0 <= idx[u] < queue.len() && queue@[idx[u]] == u,
            forall|u: int| 0 <= u < n ==> #[trigger] indeg@[u] == pending_into(es, consumed, u),
            forall|u: int| 0 <= u < v ==> (#[trigger] inq[u] <==> indeg@[u] == 0),
            forall|k: int| 0 <= k < es.len() ==> !(#[trigger] inq[es[k].to as int]),
            forall|k: int| 0 <= k < es.len() ==> (#[trigger] es[k]).from < n && es[k].to < n,
            forall|u: int| 0 <= u < n ==> #[trigger] indeg@[u] == edges_at(es, u, false).len(),
            es.len() <= usize::MAX,
            queue@ == sources_upto(es, v as int),
        decreases n - v,
    {
        if indeg[v] == 0 {
            proof {
                lemma_edges_at(es, v as int, false);
                assert forall|k: int| 0 <= k < es.len() implies (#[trigger] es[k]).to != v by {
                    if es[k].to == v {
                        assert(end_of(es[k], false) == v);
                        assert(edges_at(es, v as int, false).contains(k as usize));
                    }
                }
                lemma_count_true_set(inq, v as int);
                inq = inq.update(v as int, true);
                idx = idx.update(v as int, queue.len() as int);
            }
            queue.push(v);
        }
        rank.push(0);
        v = v + 1;
    }
    let mut head: usize = 0;
    let ghost start: KahnState = kahn_start(es, n as int);
    let ghost mut steps: nat = 0;
    proof {
        lemma_count_true_bound(inq);
        assert(indeg@ =~= start.0);
        assert(rank@ =~= start.3);
    }
    while head < queue.len()
        invariant
            n <= 0x7fff_fffe,
            es == edges@,
            m == es.len(),
            m == mlen,
            forall|k: int| 0 <= k < es.len() ==> (#[trigger] es[k]).from < n && es[k].to < n,
            out.len() == n,
            forall|u: int| 0 <= u < n ==> (#[trigger] out@[u])@ == edges_at(es, u, true),
            kahn_inv(n as int, es, queue@, head as int, indeg@, rank@, consumed, inq, idx),
            forall|k: int| 0 <= k < es.len() ==> (#[trigger] consumed[k] <==> is_done(queue@, head as int, inq, idx, es[k].from as int)),
            start == kahn_start(es, n as int),
            kahn_run(es, start, steps) == (indeg@, queue@, head as int, rank@),
        decreases n - head,
    {
        let ghost pre: KahnState = (indeg@, queue@, head as int, rank@);
        proof {
            lemma_kahn_run_step(es, start, steps);
            steps = steps + 1;
        }
        proof {
            lemma_count_true_bound(inq);
        }
        let u = queue[head];
        let ghost h0 = head as int;
        let ghost ru0 = rank@[u as int];
        head = head + 1;
        proof {
            lemma_edges_at(es, u as int, true);
        }
        let nu = out[u].len();
        let mut j: usize = 0;
        while j < nu
            invariant
                n <= 0x7fff_fffe,
                es == edges@,
                m == es.len(),
                m == mlen,
                forall|k: int| 0 <= k < es.len() ==> (#[trigger] es[k]).from < n && es[k].to < n,
                out.len() == n,
                forall|w: int| 0 <= w < n ==> (#[trigger] out@[w])@ == edges_at(es, w, true),
                u < n,
                nu == out@[u as int].len(),
                j <= nu,
                head == h0 + 1,
                queue@[h0] == u,
                inq[u as int],
                idx[u as int] == h0,
                rank@[u as int] <= h0,
                queue.len() <= n,
                kahn_inv(n as int, es, queue@, head as int, indeg@, rank@, consumed, inq, idx),
                forall|k: int| 0 <= k < es.len() ==> (#[trigger] consumed[k] <==> (is_done(queue@, h0, inq, idx, es[k].from as int)
                    || (es[k].from == u && exists|i: int| 0 <= i < j && out@[u as int]@[i] == k))),
                rank@[u as int] == ru0,
                pre.2 == h0,
                0 <= h0 < pre.1.len(),
                pre.1[h0] == u,
                ru0 == pre.3[u as int],
                (indeg@, queue@, rank@) == relax_upto(es, out@[u as int]@, j as int, ru0, (pre.0, pre.1, pre.3)),
                start == kahn_start(es, n as int),
                kahn_run(es, start, steps) == kahn_step(es, pre),
            decreases nu - j,
        {
            proof {
                lemma_edges_at(es, u as int, true);
            }
            let k = out[u][j];
            let v = edges[k].to;
            let ghost c0 = consumed;
            proof {
                assert(out@[u as int]@ == edges_at(es, u as int, true));
                assert(end_of(es[k as int], true) == u);
                assert(!c0[k as int]) by {
                    if exists|i: int| 0 <= i < j && out@[u as int]@[i] == k {
                        let i = choose|i: int| 0 <= i < j && out@[u as int]@[i] == k;
                        assert(out@[u as int]@[i] < out@[u as int]@[j as int]);
                    }
                }
                lemma_pending_consume(es, c0, k as int, v as int);
                consumed = c0.update(k as int, true);
                assert(!inq[v as int]);
            }
            let d = indeg[v];
            indeg.set(v, d - 1);
            let ru = rank[u];
            if rank[v] < ru + 1 {
                rank.set(v, ru + 1);
            }
            proof {
                assert forall|w: int| 0 <= w < n implies #[trigger] indeg@[w] == pending_into(es, consumed, w) by {
                    lemma_pending_consume(es, c0, k as int, w);
                }
                assert forall|kk: int| 0 <= kk < es.len() && #[trigger] consumed[kk] implies rank@[es[kk].from as int] < rank@[es[kk].to as int] by {
                    if kk != k {
                        assert(c0[kk]);
                        assert(es[kk].from != v);
                    }
                }
            }
            if d == 1 {
                let ghost inq0 = inq;
                let ghost idx0 = idx;
                proof {
                    assert forall|kk: int| 0 <= kk < es.len() && (#[trigger] es[kk]).to == v implies inq0[es[kk].from as int]
                        && idx0[es[kk].from as int] <= h0 by {
                        if !consumed[kk] {
                            lemma_pending_consume(es, consumed, kk, v as int);
                        }
                        if kk != k && !is_done(queue@, h0, inq0, idx0, es[kk].from as int) {
                            assert(c0[kk]);
                        }
                    }
                    lemma_count_true_set(inq, v as int);
                    lemma_count_true_bound(inq);
                    inq = inq.update(v as int, true);
                    idx = idx.update(v as int, queue.len() as int);
                }
                queue.push(v);
            }
            proof {
                lemma_count_true_bound(inq);
                assert forall|kk: int| 0 <= kk < es.len() implies (#[trigger] consumed[kk] <==> (is_done(queue@, h0, inq, idx, es[kk].from as int)
                    || (es[kk].from == u && exists|i: int| 0 <= i < j + 1 && out@[u as int]@[i] == kk))) by {
                    if kk == k {
                        assert(out@[u as int]@[j as int] == k);
                    } else if es[kk].from == u && exists|i: int| 0 <= i < j + 1 && out@[u as int]@[i] == kk {
                        let i = choose|i: int| 0 <= i < j + 1 && out@[u as int]@[i] == kk;
                        assert(i < j);
                    }
                }
                assert forall|i: int| 0 <= i < head implies #[trigger] rank@[queue@[i] as int] <= i by {
                    assert(queue@[i] != v);
                }
            }
            j = j + 1;
        }
        proof {
            assert(out@[u as int]@ == edges_at(es, u as int, true));
            assert(kahn_step(es, pre) == (indeg@, queue@, head as int, rank@));
            lemma_edges_at(es, u as int, true);
            lemma_count_true_bound(inq);
            assert forall|k: int| 0 <= k < es.len() implies (#[trigger] consumed[k] <==> is_done(queue@, head as int, inq, idx, es[k].from as int)) by {
                if es[k].from == u {
                    assert(end_of(es[k], true) == u);
                    assert(out@[u as int]@.contains(k as usize));
                    let i = choose|i: int| 0 <= i < out@[u as int]@.len() && out@[u as int]@[i] == k as usize;
                }
            }
            assert forall|i: int| 0 <= i < head implies #[trigger] rank@[queue@[i] as int] <= i by {
                if i < h0 {
                }
            }
        }
    }
    proof {
        assert(kahn_done(kahn_run(es, start, steps)));
        lemma_count_true_bound(inq);
        if m == 0 {
        }
        if acyclic(es, n as int) {
            let g = choose|g: Seq<int>| g.len() == n && #[trigger] descends(es, g);
            let p = |x: int| !inq[x];
            if exists|w: int| 0 <= w < n && !inq[w] {
                let w = choose|w: int| 0 <= w < n && !inq[w];
                let x = argmax(n as int, p, g, w);
                assert(pending_into(es, consumed, x) > 0);
                lemma_pending_witness(es, consumed, x);
                let k = choose|k: int| 0 <= k < es.len() && (#[trigger] es[k]).to == x && !consumed[k];
                assert(g[es[k].from as int] > g[es[k].to as int]);
                assert(p(es[k].from as int));
                assert(false);
            }
            assert forall|k: int| 0 <= k < es.len() implies rank@[(#[trigger] es[k]).from as int] < rank@[es[k].to as int] by {
                assert(inq[es[k].from as int]);
                assert(consumed[k]);
            }
            assert forall|v: int| 0 <= v < n implies #[trigger] rank@[v] < n by {
                assert(inq[v]);
                assert(rank@[queue@[idx[v]] as int] <= idx[v]);
            }
            assert forall|v: int| 0 <= v < inq.len() implies inq[v] by {}
            lemma_count_true_all(inq);
            assert forall|v: int| 0 <= v < n implies #[trigger] rank@[v] == 0 || exists|k: int|
                0 <= k < es.len() && (#[trigger] es[k]).to == v && rank@[v] == rank@[es[k].from as int] + 1 by {
                if rank@[v] != 0 {
                    assert(ranked_by_edge(es, consumed, rank@, v));
                }
            }
        }
    }
    (queue, rank)
}

/// `lp` is the longest-path ranking: every edge climbs, and each node is a
/// source at rank 0 or sits one past the deepest of its predecessors.
pub open spec fn longest_path_ranks(es: Seq<LayoutEdge>, lp: Seq<u32>) -> bool {
    &&& ranks_ascend(es, lp)
    &&& forall|v: int|
        0 <= v < lp.len() ==> #[trigger] lp[v] == 0 || exists|k: int|
            0 <= k < es.len() && (#[trigger] es[k]).to == v && lp[v] == lp[es[k].from as int] + 1
}

/// Every node with no more edges out than in keeps its longest-path rank
/// `lp`, shifted down by `lo`.
pub open spec fn keeps_longest_path(es: Seq<LayoutEdge>, r: Seq<u32>, lp: Seq<u32>, lo: int) -> bool {
    &&& lp.len() == r.len()
    &&& longest_path_ranks(es, lp)
    &&& forall|v: int| 0 <= v < r.len() && !out_heavy(es, v) ==> #[trigger] r[v] + lo == lp[v]
}

/// Every edge runs from a lower rank to a strictly higher one.
pub open spec fn ranks_ascend(es: Seq<LayoutEdge>, rank: Seq<u32>) -> bool {
    forall|k: int| 0 <= k < es.len() ==> rank[(#[trigger] es[k]).from as int] < rank[es[k].to as int]
}

/// The smallest rank among the targets of the listed edges.
fn min_target_rank(edges: &[LayoutEdge], ks: &Vec<usize>, rank: &Vec<u32>) -> (r: u32)
    requires
        ks.len() > 0,
        forall|i: int| 0 <= i < ks.len() ==> (#[trigger] ks@[i]) < edges@.len() && edges@[ks@[i] as int].to < rank.len(),
    ensures
        forall|i: int| 0 <= i < ks.len() ==> r <= rank@[edges@[(#[trigger] ks@[i]) as int].to as int],
        exists|i: int| 0 <= i < ks.len() && r == rank@[edges@[(#[trigger] ks@[i]) as int].to as int],
{
    let mut best = rank[edges[ks[0]].to];
    let mut i: usize = 1;
    while i < ks.len()
        invariant
            1 <= i <= ks.len(),
            forall|j: int| 0 <= j < ks.len() ==> (#[trigger] ks@[j]) < edges@.len() && edges@[ks@[j] as int].to < rank.len(),
            forall|j: int| 0 <= j < i ==> best <= rank@[edges@[(#[trigger] ks@[j]) as int].to as int],
            exists|j: int| 0 <= j < i && best == rank@[edges@[(#[trigger] ks@[j]) as int].to as int],
        decreases ks.len() - i,
    {
        let x = rank[edges[ks[i]].to];
        if x < best {
            best = x;
        }
        i = i + 1;
    }
    best
}

/// One past the largest rank among the sources of the listed edges; 0 when
/// there are none.
fn floor_above_sources(edges: &[LayoutEdge], ks: &Vec<usize>, rank: &Vec<u32>, bound: u32) -> (r: u32)
    requires
        bound < u32::MAX,
        forall|i: int| 0 <= i < ks.len() ==> (#[trigger] ks@[i]) < edges@.len() && edges@[ks@[i] as int].from < rank.len(),
        forall|v: int| 0 <= v < rank.len() ==> #[trigger] rank@[v] <= bound,
    ensures
        forall|i: int| 0 <= i < ks.len() ==> rank@[edges@[(#[trigger] ks@[i]) as int].from as int] + 1 <= r,
        r == 0 || exists|i: int| 0 <= i < ks.len() && r == rank@[edges@[(#[trigger] ks@[i]) as int].from as int] + 1,
{
    let mut best: u32 = 0;
    let mut i: usize = 0;
    while i < ks.len()
        invariant
            0 <= i <= ks.len(),
            bound < u32::MAX,
            forall|j: int| 0 <= j < ks.len() ==> (#[trigger] ks@[j]) < edges@.len() && edges@[ks@[j] as int].from < rank.len(),
            forall|v: int| 0 <= v < rank.len() ==> #[trigger] rank@[v] <= bound,
            forall|j: int| 0 <= j < i ==> rank@[edges@[(#[trigger] ks@[j]) as int].from as int] + 1 <= best,
            best == 0 || exists|j: int| 0 <= j < i && best == rank@[edges@[(#[trigger] ks@[j]) as int].from as int] + 1,
        decreases ks.len() - i,
    {
        let x = rank[edges[ks[i]].from] + 1;
        if x > best {
            best = x;
        }
        i = i + 1;
    }
    best
}

/// Node `u` has more edges leaving it than entering it.
pub open spec fn out_heavy(es: Seq<LayoutEdge>, u: int) -> bool {
    edges_at(es, u, true).len() > edges_at(es, u, false).len()
}

/// Node `u` sits on the rank directly above one of its successors.
pub open spec fn sits_above_successor(es: Seq<LayoutEdge>, rank: Seq<u32>, u: int) -> bool {
    exists|k: int| 0 <= k < es.len() && (#[trigger] es[k]).from == u && rank[es[k].to as int] == rank[u] + 1
}

/// The tightening pass: walking `order` backwards, a node with more edges
/// out than in moves down to just above its nearest successor, never above
/// one past its deepest predecessor.
fn tighten(
    n: usize,
    edges: &[LayoutEdge],
    out: &Vec<Vec<usize>>,
    inc: &Vec<Vec<usize>>,
    order: &Vec<usize>,
    rank: &mut Vec<u32>,
)
    requires
        n <= 0x7fff_fffe,
        forall|k: int| 0 <= k < edges@.len() ==> (#[trigger] edges@[k]).from < n && edges@[k].to < n,
        out.len() == n,
        inc.len() == n,
        forall|u: int| 0 <= u < n ==> (#[trigger] out@[u])@ == edges_at(edges@, u, true),
        forall|u: int| 0 <= u < n ==> (#[trigger] inc@[u])@ == edges_at(edges@, u, false),
        order.len() <= n,
        forall|i: int| 0 <= i < order.len() ==> (#[trigger] order@[i]) < n,
        forall|a: int, b: int| 0 <= a < b < order.len() ==> #[trigger] order@[a] != #[trigger] order@[b],
        forall|k: int, i: int, j: int|
            #![trigger edges@[k], order@[i], order@[j]]
            0 <= k < edges@.len() && 0 <= i < order.len() && 0 <= j < order.len() && order@[i] == edges@[k].from
                && order@[j] == edges@[k].to ==> i < j,
        old(rank).len() == n,
        forall|v: int| 0 <= v < n ==> #[trigger] old(rank)@[v] <= n,
        edges@.len() == 0 ==> forall|v: int| 0 <= v < n ==> #[trigger] old(rank)@[v] == 0,
        acyclic(edges@, n as int) ==> ranks_ascend(edges@, old(rank)@) && forall|v: int| 0 <= v < n ==> #[trigger] old(rank)@[v] < n,
    ensures
        final(rank).len() == n,
        forall|v: int| 0 <= v < n ==> #[trigger] final(rank)@[v] <= 2 * n,
        edges@.len() == 0 ==> forall|v: int| 0 <= v < n ==> #[trigger] final(rank)@[v] == 0,
        acyclic(edges@, n as int) ==> ranks_ascend(edges@, final(rank)@) && forall|v: int| 0 <= v < n ==> #[trigger] final(rank)@[v] < n,
        acyclic(edges@, n as int) ==> forall|q: int|
            0 <= q < order.len() && out_heavy(edges@, #[trigger] order@[q] as int) ==> sits_above_successor(edges@, final(rank)@, order@[q] as int),
        forall|v: int| 0 <= v < n && !out_heavy(edges@, v) ==> #[trigger] final(rank)@[v] == old(rank)@[v],
        final(rank)@ == tighten_upto(edges@, order@, order@.len() as int, old(rank)@),
{
    let ghost r_in = rank@;
    let mlen = edges.len();
    let ghost es = edges@;
    let mut t: usize = order.len();
    while t > 0
        invariant
            n <= 0x7fff_fffe,
            es == edges@,
            es.len() == mlen,
            forall|k: int| 0 <= k < es.len() ==> (#[trigger] es[k]).from < n && es[k].to < n,
            out.len() == n,
            inc.len() == n,
            forall|u: int| 0 <= u < n ==> (#[trigger] out@[u])@ == edges_at(es, u, true),
            forall|u: int| 0 <= u < n ==> (#[trigger] inc@[u])@ == edges_at(es, u, false),
            t <= order.len() <= n,
            forall|i: int| 0 <= i < order.len() ==> (#[trigger] order@[i]) < n,
            forall|a: int, b: int| 0 <= a < b < order.len() ==> #[trigger] order@[a] != #[trigger] order@[b],
            forall|k: int, i: int, j: int|
                #![trigger es[k], order@[i], order@[j]]
                0 <= k < es.len() && 0 <= i < order.len() && 0 <= j < order.len() && order@[i] == es[k].from
                    && order@[j] == es[k].to ==> i < j,
            acyclic(es, n as int) ==> forall|q: int|
                t <= q < order.len() && out_heavy(es, #[trigger] order@[q] as int) ==> sits_above_successor(es, rank@, order@[q] as int),
            forall|v: int| 0 <= v < n && !out_heavy(es, v) ==> #[trigger] rank@[v] == r_in[v],
            rank.len() == n,
            forall|v: int| 0 <= v < n ==> #[trigger] rank@[v] <= n + (order.len() - t),
            es.len() == 0 ==> forall|v: int| 0 <= v < n ==> #[trigger] rank@[v] == 0,
            acyclic(es, n as int) ==> ranks_ascend(es, rank@) && forall|v: int| 0 <= v < n ==> #[trigger] rank@[v] < n,
            rank@ == tighten_upto(es, order@, order.len() - t, r_in),
        decreases t,
    {
        t = t - 1;
        let u = order[t];
        proof {
            lemma_edges_at(es, u as int, true);
            lemma_edges_at(es, u as int, false);
        }
        if out[u].len() > inc[u].len() {
            let ghost r0 = rank@;
            let ghost bound: int = n + (order.len() - t - 1);
            let succ_min = min_target_rank(edges, &out[u], rank);
            let floor = floor_above_sources(edges, &inc[u], rank, (n + (order.len() - t - 1)) as u32);
            let pulled = if succ_min > 0 { succ_min - 1 } else { 0 };
            let new_rank = if pulled > floor { pulled } else { floor };
            rank.set(u, new_rank);
            proof {
                assert(succ_min == min_target(es, out@[u as int]@, r0)) by {
                    lemma_min_target(es, out@[u as int]@, r0);
                    let i = choose|i: int| 0 <= i < out@[u as int]@.len() && min_target(es, out@[u as int]@, r0)
                        == r0[es[(#[trigger] out@[u as int]@[i]) as int].to as int];
                    let i1 = choose|i1: int| 0 <= i1 < out@[u as int]@.len() && succ_min == r0[edges@[(#[trigger] out@[u as int]@[i1]) as int].to as int];
                    assert(succ_min <= r0[edges@[out@[u as int]@[i] as int].to as int]);
                    assert(min_target(es, out@[u as int]@, r0) <= r0[es[out@[u as int]@[i1] as int].to as int]);
                }
                assert(floor == floor_of_sources(es, inc@[u as int]@, r0)) by {
                    lemma_floor_of_sources(es, inc@[u as int]@, r0);
                    if floor_of_sources(es, inc@[u as int]@, r0) != 0 {
                        let i = choose|i: int| 0 <= i < inc@[u as int]@.len() && floor_of_sources(es, inc@[u as int]@, r0)
                            == r0[es[(#[trigger] inc@[u as int]@[i]) as int].from as int] + 1;
                        assert(r0[edges@[inc@[u as int]@[i] as int].from as int] + 1 <= floor);
                    }
                    if floor != 0 {
                        let i2 = choose|i2: int| 0 <= i2 < inc@[u as int]@.len() && floor == r0[edges@[(#[trigger] inc@[u as int]@[i2]) as int].from as int] + 1;
                        assert(r0[es[inc@[u as int]@[i2] as int].from as int] + 1 <= floor_of_sources(es, inc@[u as int]@, r0));
                    }
                }
                assert(rank@ =~= tighten_node(es, u as int, r0));
            }
            proof {
                if acyclic(es, n as int) {
                    let i1 = choose|i1: int| 0 <= i1 < out@[u as int]@.len() && succ_min == r0[edges@[(#[trigger] out@[u as int]@[i1]) as int].to as int];
                    assert(end_of(es[out@[u as int]@[i1] as int], true) == u);
                    assert(succ_min > r0[u as int]);
                    if floor != 0 {
                        let i2 = choose|i2: int| 0 <= i2 < inc@[u as int]@.len() && floor == r0[edges@[(#[trigger] inc@[u as int]@[i2]) as int].from as int] + 1;
                        assert(end_of(es[inc@[u as int]@[i2] as int], false) == u);
                        assert(floor <= r0[u as int]);
                    }
                    assert forall|k: int| 0 <= k < es.len() implies rank@[(#[trigger] es[k]).from as int] < rank@[es[k].to as int] by {
                        assert(r0[es[k].from as int] < r0[es[k].to as int]);
                        if es[k].from == u {
                            assert(end_of(es[k], true) == u);
                            assert(out@[u as int]@.contains(k as usize));
                            let i = choose|i: int| 0 <= i < out@[u as int]@.len() && out@[u as int]@[i] == k as usize;
                            assert(succ_min <= r0[edges@[out@[u as int]@[i] as int].to as int]);
                        } else if es[k].to == u {
                            assert(end_of(es[k], false) == u);
                            assert(inc@[u as int]@.contains(k as usize));
                            let i = choose|i: int| 0 <= i < inc@[u as int]@.len() && inc@[u as int]@[i] == k as usize;
                            assert(r0[edges@[inc@[u as int]@[i] as int].from as int] + 1 <= floor);
                        }
                    }
                }
                if acyclic(es, n as int) {
                    let i1 = choose|i1: int| 0 <= i1 < out@[u as int]@.len() && succ_min == r0[edges@[(#[trigger] out@[u as int]@[i1]) as int].to as int];
                    let k1 = out@[u as int]@[i1] as int;
                    assert(end_of(es[k1], true) == u);
                    assert(r0[u as int] < r0[es[k1].to as int]);
                    if floor != 0 {
                        let i2 = choose|i2: int| 0 <= i2 < inc@[u as int]@.len() && floor == r0[edges@[(#[trigger] inc@[u as int]@[i2]) as int].from as int] + 1;
                        assert(end_of(es[inc@[u as int]@[i2] as int], false) == u);
                    }
                    assert(rank@[u as int] + 1 == succ_min);
                    assert(es[k1].to != u);
                    assert(rank@[es[k1].to as int] == succ_min);
                    assert(sits_above_successor(es, rank@, u as int));
                    assert forall|q: int|
                        t <= q < order.len() && out_heavy(es, #[trigger] order@[q] as int) implies sits_above_successor(es, rank@, order@[q] as int) by {
                        if q != t {
                            let w = order@[q] as int;
                            assert(sits_above_successor(es, r0, w));
                            let k = choose|k: int| 0 <= k < es.len() && (#[trigger] es[k]).from == w && r0[es[k].to as int] == r0[w] + 1;
                            assert(order@[q] != order@[t as int]);
                            if es[k].to == u {
                                assert(order@[t as int] == es[k].to);
                            }
                            assert(rank@[es[k].to as int] == r0[es[k].to as int]);
                            assert(rank@[w] == r0[w]);
                        }
                    }
                }
                if es.len() == 0 {
                    assert(out@[u as int]@.len() == 0);
                }
            }
        } else {
            proof {
                assert(!out_heavy(es, u as int));
            }
        }
    }
}

/// Subtract the smallest rank from every rank, so the top rank is 0; returns
/// the amount subtracted.
fn shift_to_zero(rank: &mut Vec<u32>) -> (lo: u32)
    requires
        old(rank).len() > 0,
    ensures
        final(rank).len() == old(rank).len(),
        exists|v: int| 0 <= v < final(rank).len() && #[trigger] final(rank)@[v] == 0,
        forall|v: int| 0 <= v < final(rank).len() ==> #[trigger] final(rank)@[v] + lo == old(rank)@[v],
{
    let mut lo = rank[0];
    let mut i: usize = 1;
    while i < rank.len()
        invariant
            1 <= i <= rank.len(),
            forall|j: int| 0 <= j < i ==> lo <= #[trigger] rank@[j],
            exists|j: int| 0 <= j < rank.len() && lo == #[trigger] rank@[j],
        decreases rank.len() - i,
    {
        if rank[i] < lo {
            lo = rank[i];
        }
        i = i + 1;
    }
    let ghost r0 = rank@;
    let mut i: usize = 0;
    while i < rank.len()
        invariant
            0 <= i <= rank.len(),
            rank.len() == r0.len(),
            forall|j: int| 0 <= j < r0.len() ==> lo <= #[trigger] r0[j],
            exists|j: int| 0 <= j < r0.len() && lo == #[trigger] r0[j],
            forall|j: int| 0 <= j < i ==> #[trigger] rank@[j] + lo == r0[j],
            forall|j: int| i <= j < r0.len() ==> #[trigger] rank@[j] == r0[j],
        decreases rank.len() - i,
    {
        let x = rank[i];
        rank.set(i, x - lo);
        i = i + 1;
    }
    proof {
        let j = choose|j: int| 0 <= j < r0.len() && lo == #[trigger] r0[j];
        assert(rank@[j] == 0);
    }
    lo
}

/// Phase 2 — ranking. Longest path from the sources (Kahn's order, sources
/// in index order), then one pass in reverse of that order that pulls a node
/// down toward its successors when it has more edges out than in, then a
/// shift so the top rank is 0 (`kahn_ranking`, on every input). On acyclic
/// edges every edge runs from a lower rank to a higher one and every rank is
/// below `n`; a node on a cycle is never taken and keeps what its reached
/// predecessors gave it.
pub fn rank_nodes(n: usize, edges: &[LayoutEdge]) -> (r: Vec<u32>)
    requires
        n <= 0x7fff_fffe,
        forall|k: int| 0 <= k < edges@.len() ==> (#[trigger] edges@[k]).from < n && edges@[k].to < n,
    ensures
        r.len() == n,
        n > 0 ==> exists|v: int| 0 <= v < n && #[trigger] r@[v] == 0,
        forall|v: int| 0 <= v < n ==> #[trigger] r@[v] <= 2 * n,
        edges@.len() == 0 ==> forall|v: int| 0 <= v < n ==> #[trigger] r@[v] == 0,
        acyclic(edges@, n as int) ==> ranks_ascend(edges@, r@) && forall|v: int| 0 <= v < n ==> #[trigger] r@[v] < n,
        acyclic(edges@, n as int) ==> forall|u: int|
            0 <= u < n && #[trigger] out_heavy(edges@, u) ==> sits_above_successor(edges@, r@, u),
        acyclic(edges@, n as int) ==> exists|lp: Seq<u32>, lo: int| #[trigger] keeps_longest_path(edges@, r@, lp, lo),
        kahn_ranking(edges@, n as int, r@),
{
    let (out, inc, indeg) = build_adjacency(n, edges);
    let (order, rank0) = longest_paths(n, edges, &out, indeg);
    let mut rank = rank0;
    let ghost lp = rank0@;
    tighten(n, edges, &out, &inc, &order, &mut rank);
    let ghost r1 = rank@;
    proof {
        if acyclic(edges@, n as int) {
            lemma_pigeon(order@, n as int);
            assert forall|u: int| 0 <= u < n && #[trigger] out_heavy(edges@, u) implies sits_above_successor(edges@, r1, u) by {
                assert(order@.contains(u as usize));
                let q = choose|q: int| 0 <= q < order@.len() && order@[q] == u as usize;
                assert(out_heavy(edges@, order@[q] as int));
            }
        }
    }
    if n > 0 {
        let lo = shift_to_zero(&mut rank);
        proof {
            assert forall|v: int| 0 <= v < n implies #[trigger] rank@[v] <= 2 * n by {
                assert(rank@[v] + lo == r1[v]);
            }
            if acyclic(edges@, n as int) {
                assert forall|u: int| 0 <= u < n && #[trigger] out_heavy(edges@, u) implies sits_above_successor(edges@, rank@, u) by {
                    assert(sits_above_successor(edges@, r1, u));
                    let k = choose|k: int| 0 <= k < edges@.len() && (#[trigger] edges@[k]).from == u && r1[edges@[k].to as int] == r1[u] + 1;
                    assert(rank@[edges@[k].to as int] + lo == r1[edges@[k].to as int]);
                    assert(rank@[u] + lo == r1[u]);
                }
                assert forall|v: int| 0 <= v < n && !out_heavy(edges@, v) implies #[trigger] rank@[v] + lo == lp[v] by {
                    assert(rank@[v] + lo == r1[v]);
                }
                assert(longest_path_ranks(edges@, lp));
                assert(keeps_longest_path(edges@, rank@, lp, lo as int));
            }
        }
    }
    proof {
        if n == 0 && acyclic(edges@, n as int) {
            assert(longest_path_ranks(edges@, lp));
            assert(keeps_longest_path(edges@, rank@, lp, 0));
        }
        let es = edges@;
        let f = choose|f: nat|
            #[trigger] kahn_done(kahn_run(es, kahn_start(es, n as int), f)) && kahn_run(es, kahn_start(es, n as int), f).1 == order@
                && kahn_run(es, kahn_start(es, n as int), f).3 == lp;
        assert(r1 == tighten_upto(es, order@, order@.len() as int, lp));
        assert(shifted_to_zero(rank@, r1));
        assert(kahn_done(kahn_run(es, kahn_start(es, n as int), f)));
    }
    rank
}

/// Law: on an acyclic graph there is exactly one longest-path ranking, so
/// together with the placement of the nodes that have more edges out than in
/// and the shift to rank 0, the ranking is fully determined.
pub proof fn longest_path_ranks_unique(es: Seq<LayoutEdge>, n: int, a: Seq<u32>, b: Seq<u32>)
    requires
        acyclic(es, n),
        forall|k: int| 0 <= k < es.len() ==> (#[trigger] es[k]).from < n && es[k].to < n,
        a.len() == n,
        b.len() == n,
        longest_path_ranks(es, a),
        longest_path_ranks(es, b),
    ensures
        a == b,
{
    if exists|w: int| 0 <= w < n && a[w] != b[w] {
        let g = choose|g: Seq<int>| g.len() == n && #[trigger] descends(es, g);
        let differs = |x: int| a[x] != b[x];
        let w = choose|w: int| 0 <= w < n && a[w] != b[w];
        assert(differs(w));
        let v = argmax(n, differs, g, w);
        let differs_b = |x: int| b[x] != a[x];
        lemma_rank_step_below(es, n, g, a, b, v, differs);
        assert forall|x: int| 0 <= x < n && differs_b(x) implies #[trigger] g[x] <= g[v] by {
            assert(differs(x));
        }
        lemma_rank_step_below(es, n, g, b, a, v, differs_b);
    }
    assert(a =~= b);
}

/// The step of the uniqueness argument: the differing node highest in `g`
/// has no larger rank in `a` than in `b`.
proof fn lemma_rank_step_below(
    es: Seq<LayoutEdge>,
    n: int,
    g: Seq<int>,
    a: Seq<u32>,
    b: Seq<u32>,
    v: int,
    differs: spec_fn(int) -> bool,
)
    requires
        g.len() == n,
        descends(es, g),
        forall|k: int| 0 <= k < es.len() ==> (#[trigger] es[k]).from < n && es[k].to < n,
        a.len() == n,
        b.len() == n,
        longest_path_ranks(es, a),
        ranks_ascend(es, b),
        0 <= v < n,
        forall|x: int| 0 <= x < n && differs(x) ==> #[trigger] g[x] <= g[v],
        forall|x: int| 0 <= x < n ==> (differs(x) <==> a[x] != b[x]),
    ensures
        a[v] <= b[v],
{
    if a[v] > b[v] {
        assert(a[v] != 0);
        let k = choose|k: int| 0 <= k < es.len() && (#[trigger] es[k]).to == v && a[v] == a[es[k].from as int] + 1;
        let f = es[k].from as int;
        assert(g[f] > g[es[k].to as int]);
        if differs(f) {
            assert(g[f] <= g[v]);
        }
        assert(b[f] < b[es[k].to as int]);
    }
}

} // verus!
