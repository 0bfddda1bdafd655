use vstd::prelude::*;
use crate::layered::LayoutEdge;
use crate::layered::live_of;
use crate::layered::acyclic;
use crate::layered::flips_of;
use crate::layered::remove_cycles;
use crate::layered::lemma_live_of_facts;
use crate::ranking::ranks_ascend;
use crate::ranking::rank_nodes;
use crate::ranking::out_heavy;
use crate::ranking::sits_above_successor;
use crate::ranking::keeps_longest_path;
use crate::dummies::span;
use crate::dummies::total_span;
use crate::dummies::edge_segs;
use crate::dummies::segs_upto;
use crate::dummies::chains_upto;
use crate::dummies::chains_match;
use crate::dummies::max_rank;
use crate::dummies::virtual_rank_ok;
use crate::dummies::layers_ok;
use crate::dummies::insert_dummies;
use crate::dummies::lemma_total_span_mono;
use crate::crossings::is_at;
use crate::crossings::placed_once;
use crate::ordering::is_placed;
use crate::sweeps::layers_top;
use crate::sweeps::reduce_run;
use crate::sweeps::reduce_crossings;
use crate::sweeps::lemma_layers_top;
use crate::search::marks_back_edges;
use crate::kahn::kahn_ranking;
use crate::kahn::kahn_ranking_unique;
use crate::search::search_outcome_unique;
use crate::crossings::same_views;
use crate::dummies::lemma_virtual_rank_unique;
use crate::dummies::lemma_layers_ok_unique;
use crate::dummies::lemma_layers_ok_placed_once;
use crate::sweeps::lemma_layers_top_same;
use crate::sweeps::lemma_reduce_run_views;
use crate::sweeps::reduction_outcome_unique;
use crate::sweeps::reduction_keeps_layers_and_never_worsens;

verus! {

/// The integer skeleton of a layered layout: the edges after cycle removal,
/// each node's rank, the ordered layers of real and dummy nodes, the unit
/// segments between them, each split edge's dummy chain in the caller's
/// direction, and every virtual node's rank.
pub struct LayeredPlan {
    pub edges: Vec<LayoutEdge>,
    pub ranks: Vec<u32>,
    pub layers: Vec<Vec<usize>>,
    pub segs: Vec<(usize, usize)>,
    pub chains: Vec<(usize, Vec<usize>)>,
    pub rank_of: Vec<usize>,
}

/// `out` is what the crossing reduction makes of `seed`.
pub open spec fn reduced_from(seed: Seq<Vec<usize>>, segs: Seq<(usize, usize)>, out: Seq<Vec<usize>>) -> bool {
    &&& layers_top(seed) == -1 ==> out == seed
    &&& layers_top(seed) >= 0 ==> out.len() == seed.len() && exists|cands: Seq<Seq<Vec<usize>>>, j: int|
        #[trigger] reduce_run(seed, segs, cands, j) && forall|x: int| 0 <= x < out.len() ==> (#[trigger] out[x])@ == cands[j][x]@
}

/// `es` is what cycle removal makes of the caller's `edges`, and `ranks` is
/// how ranking places `n` nodes under `es`.
pub open spec fn first_phases(n: int, edges: Seq<(u32, u32)>, es: Seq<LayoutEdge>, ranks: Seq<u32>) -> bool {
    &&& flips_of(live_of(edges, n), es)
    &&& marks_back_edges(n, live_of(edges, n), es.map_values(|e: LayoutEdge| e.reversed))
    &&& ranks.len() == n
    &&& kahn_ranking(es, n, ranks)
}

/// The virtual graph would not fit the machine: the dummy nodes beside the
/// `n` real ones, or the square of the number of unit segments, would pass
/// `usize::MAX`.
pub open spec fn outgrows_usize(n: int, es: Seq<LayoutEdge>, ranks: Seq<u32>) -> bool {
    let sl = es.len() + total_span(es, ranks, es.len() as int);
    n + total_span(es, ranks, es.len() as int) > usize::MAX || sl * sl > usize::MAX
}

/// Law: the first two phases have one outcome — the edges after cycle
/// removal and the ranks are determined by the node count and the caller's
/// edges.
pub proof fn first_phases_unique(
    n: int,
    edges: Seq<(u32, u32)>,
    es1: Seq<LayoutEdge>,
    r1: Seq<u32>,
    es2: Seq<LayoutEdge>,
    r2: Seq<u32>,
)
    requires
        first_phases(n, edges, es1, r1),
        first_phases(n, edges, es2, r2),
    ensures
        es1 == es2,
        r1 == r2,
{
    let live = live_of(edges, n);
    search_outcome_unique(n, live, es1.map_values(|e: LayoutEdge| e.reversed), es2.map_values(|e: LayoutEdge| e.reversed));
    assert forall|i: int| 0 <= i < es1.len() implies es1[i] == es2[i] by {
        assert(es1.map_values(|e: LayoutEdge| e.reversed)[i] == es2.map_values(|e: LayoutEdge| e.reversed)[i]);
    }
    assert(es1 =~= es2);
    kahn_ranking_unique(es1, n, r1, r2);
}

/// Every phase of the layered layout, chained: cycle removal, ranking,
/// dummy nodes, crossing reduction.
pub open spec fn plan_ok(n: int, edges: Seq<(u32, u32)>, p: LayeredPlan) -> bool {
    let es = p.edges@;
    &&& n <= 0x7fff_fffe
    &&& first_phases(n, edges, es, p.ranks@)
    &&& !outgrows_usize(n, es, p.ranks@)
    &&& acyclic(es, n)
    &&& acyclic(live_of(edges, n), n) ==> forall|i: int| 0 <= i < es.len() ==> !(#[trigger] es[i]).reversed
    &&& ranks_ascend(es, p.ranks@)
    &&& n > 0 ==> exists|v: int| 0 <= v < n && #[trigger] p.ranks@[v] == 0
    &&& forall|v: int| 0 <= v < n ==> #[trigger] p.ranks@[v] < n
    &&& forall|u: int| 0 <= u < n && #[trigger] out_heavy(es, u) ==> sits_above_successor(es, p.ranks@, u)
    &&& exists|lp: Seq<u32>, lo: int| #[trigger] keeps_longest_path(es, p.ranks@, lp, lo)
    &&& virtual_rank_ok(es, p.ranks@, n, p.rank_of@)
    &&& p.segs@ == segs_upto(es, p.ranks@, n, es.len() as int)
    &&& chains_match(p.chains@, chains_upto(es, p.ranks@, n, es.len() as int))
    &&& p.layers.len() == max_rank(p.ranks@) + 1
    &&& exists|seed: Seq<Vec<usize>>| #[trigger] layers_ok(seed, p.rank_of@) && seed.len() == p.layers.len() && reduced_from(seed, p.segs@, p.layers@)
}

/// Law: a layered plan is determined by the node count and the caller's
/// edges — two plans that both meet `plan_ok` for them have the same edges,
/// ranks, virtual ranks, segments and dummy chains, and the same layers in
/// the same order.
pub proof fn plan_unique(n: int, edges: Seq<(u32, u32)>, p1: LayeredPlan, p2: LayeredPlan)
    requires
        plan_ok(n, edges, p1),
        plan_ok(n, edges, p2),
    ensures
        p1.edges@ == p2.edges@,
        p1.ranks@ == p2.ranks@,
        p1.rank_of@ == p2.rank_of@,
        p1.segs@ == p2.segs@,
        p1.chains.len() == p2.chains.len(),
        forall|i: int| 0 <= i < p1.chains.len() ==> (#[trigger] p1.chains@[i]).0 == p2.chains@[i].0 && p1.chains@[i].1@ == p2.chains@[i].1@,
        same_views(p1.layers@, p2.layers@),
{
    first_phases_unique(n, edges, p1.edges@, p1.ranks@, p2.edges@, p2.ranks@);
    let es = p1.edges@;
    let ranks = p1.ranks@;
    lemma_virtual_rank_unique(es, ranks, n, p1.rank_of@, p2.rank_of@);
    let rank_of = p1.rank_of@;
    let segs = p1.segs@;
    assert forall|i: int| 0 <= i < p1.chains.len() implies (#[trigger] p1.chains@[i]).0 == p2.chains@[i].0 && p1.chains@[i].1@
        == p2.chains@[i].1@ by {
        let c = chains_upto(es, ranks, n, es.len() as int);
        assert(p1.chains@[i].0 == c[i].0 && p1.chains@[i].1@ == c[i].1);
        assert(p2.chains@[i].0 == c[i].0 && p2.chains@[i].1@ == c[i].1);
    }
    let seed1 = choose|seed: Seq<Vec<usize>>| #[trigger] layers_ok(seed, p1.rank_of@) && seed.len() == p1.layers.len()
        && reduced_from(seed, p1.segs@, p1.layers@);
    let seed2 = choose|seed: Seq<Vec<usize>>| #[trigger] layers_ok(seed, p2.rank_of@) && seed.len() == p2.layers.len()
        && reduced_from(seed, p2.segs@, p2.layers@);
    lemma_layers_ok_unique(seed1, seed2, rank_of);
    lemma_layers_ok_placed_once(seed1, rank_of);
    lemma_layers_ok_placed_once(seed2, rank_of);
    lemma_layers_top_same(seed1, seed2);
    if layers_top(seed1) >= 0 {
        let (c1, j1) = choose|cands: Seq<Seq<Vec<usize>>>, j: int| #[trigger] reduce_run(seed1, segs, cands, j) && forall|x: int|
            0 <= x < p1.layers@.len() ==> (#[trigger] p1.layers@[x])@ == cands[j][x]@;
        let (c2, j2) = choose|cands: Seq<Seq<Vec<usize>>>, j: int| #[trigger] reduce_run(seed2, segs, cands, j) && forall|x: int|
            0 <= x < p2.layers@.len() ==> (#[trigger] p2.layers@[x])@ == cands[j][x]@;
        lemma_reduce_run_views(seed2, seed1, segs, c2, j2);
        reduction_outcome_unique(seed1, segs, c1, j1, c2, j2);
        reduction_keeps_layers_and_never_worsens(seed1, segs, c1, j1);
        assert forall|x: int| 0 <= x < p1.layers@.len() implies (#[trigger] p1.layers@[x])@ == p2.layers@[x]@ by {
            assert(c1[j1][x]@ == c2[j2][x]@);
        }
    }
}

/// How many dummy nodes the edges need, `None` when that many would not fit
/// beside `n` real nodes in a `usize`.
fn dummy_count(n: usize, edges: &Vec<LayoutEdge>, ranks: &Vec<u32>) -> (r: Option<usize>)
    requires
        ranks.len() == n,
        forall|k: int| 0 <= k < edges@.len() ==> (#[trigger] edges@[k]).from < n && edges@[k].to < n,
    ensures
        r.is_some() <==> n + total_span(edges@, ranks@, edges@.len() as int) <= usize::MAX,
        r.is_some() ==> r.unwrap() == total_span(edges@, ranks@, edges@.len() as int),
{
    let mut total: usize = 0;
    let mut i: usize = 0;
    while i < edges.len()
        invariant
            i <= edges.len(),
            ranks.len() == n,
            forall|k: int| 0 <= k < edges@.len() ==> (#[trigger] edges@[k]).from < n && edges@[k].to < n,
            total == total_span(edges@, ranks@, i as int),
            n + total <= usize::MAX,
        decreases edges.len() - i,
    {
        let e = edges[i];
        let r0 = ranks[e.from];
        let r1 = ranks[e.to];
        let sp: u32 = if r1 > r0 && r1 - r0 > 1 { r1 - r0 - 1 } else { 0 };
        if sp as usize > usize::MAX - n - total {
            proof {
                lemma_total_span_mono(edges@, ranks@, i + 1, edges@.len() as int);
            }
            return None;
        }
        total = total + sp as usize;
        i = i + 1;
    }
    Some(total)
}

proof fn lemma_segs_len(es: Seq<LayoutEdge>, ranks: Seq<u32>, n: int, k: int)
    requires
        0 <= k <= es.len(),
    ensures
        segs_upto(es, ranks, n, k).len() == k + total_span(es, ranks, k),
    decreases k,
{
    if k > 0 {
        lemma_segs_len(es, ranks, n, k - 1);
    }
}

proof fn lemma_segs_in_range(es: Seq<LayoutEdge>, ranks: Seq<u32>, n: int, k: int)
    requires
        0 <= k <= es.len(),
        forall|q: int| 0 <= q < es.len() ==> (#[trigger] es[q]).from < n && es[q].to < n,
    ensures
        forall|i: int|
            0 <= i < segs_upto(es, ranks, n, k).len() ==> (#[trigger] segs_upto(es, ranks, n, k)[i]).0 < n + total_span(es, ranks, k)
                && segs_upto(es, ranks, n, k)[i].1 < n + total_span(es, ranks, k),
    decreases k,
{
    if k > 0 {
        lemma_segs_in_range(es, ranks, n, k - 1);
        let prev = segs_upto(es, ranks, n, k - 1);
        let sp = span(es, ranks, k - 1);
        let first = n + total_span(es, ranks, k - 1);
        let tail = edge_segs(es[k - 1], sp, first);
        let all = segs_upto(es, ranks, n, k);
        assert(all == prev + tail);
        assert forall|i: int| 0 <= i < all.len() implies (#[trigger] all[i]).0 < n + total_span(es, ranks, k) && all[i].1 < n
            + total_span(es, ranks, k) by {
            if i < prev.len() {
                assert(all[i] == prev[i]);
            } else {
                assert(all[i] == tail[i - prev.len()]);
            }
        }
    }
}

proof fn lemma_total_span_bound(es: Seq<LayoutEdge>, ranks: Seq<u32>, n: int, k: int)
    requires
        0 <= k <= es.len(),
        ranks.len() == n,
        forall|q: int| 0 <= q < es.len() ==> (#[trigger] es[q]).from < n && es[q].to < n,
        forall|v: int| 0 <= v < n ==> #[trigger] ranks[v] < n,
    ensures
        total_span(es, ranks, k) <= k * n,
    decreases k,
{
    if k > 0 {
        lemma_total_span_bound(es, ranks, n, k - 1);
        assert(span(es, ranks, k - 1) < n);
        assert((k - 1) * n + n == k * n) by (nonlinear_arith);
    }
}

proof fn lemma_layers_ok_placed(layers: Seq<Vec<usize>>, rank_of: Seq<usize>)
    requires
        layers_ok(layers, rank_of),
        rank_of.len() <= usize::MAX,
    ensures
        placed_once(layers),
        forall|v: int| 0 <= v < rank_of.len() ==> #[trigger] is_placed(layers, v),
        forall|r: int, i: int| 0 <= r < layers.len() && 0 <= i < layers[r]@.len() ==> #[trigger] layers[r]@[i] < rank_of.len(),
{
    assert forall|r1: int, i1: int, r2: int, i2: int|
        0 <= r1 < layers.len() && 0 <= i1 < layers[r1]@.len() && 0 <= r2 < layers.len() && 0 <= i2 < layers[r2]@.len()
            && #[trigger] layers[r1]@[i1] == #[trigger] layers[r2]@[i2] implies r1 == r2 && i1 == i2 by {
        assert(rank_of[layers[r1]@[i1] as int] == r1);
        assert(rank_of[layers[r2]@[i2] as int] == r2);
        if i1 < i2 {
            assert(layers[r1]@[i1] < layers[r1]@[i2]);
        } else if i2 < i1 {
            assert(layers[r1]@[i2] < layers[r1]@[i1]);
        }
    }
    assert forall|v: int| 0 <= v < rank_of.len() implies #[trigger] is_placed(layers, v) by {
        let r = rank_of[v] as int;
        assert(layers[r]@.contains(v as usize));
        let i = choose|i: int| 0 <= i < layers[r]@.len() && layers[r]@[i] == v as usize;
        assert(is_at(layers, v, r, i));
    }
}

/// The integer phases of a layered layout of `n` nodes, in order: cycle
/// removal, ranking, dummy nodes and crossing reduction. `None` exactly when
/// there are more than `0x7fff_fffe` nodes or the virtual graph would not
/// fit the machine's integers (`outgrows_usize`); a graph of at most 65535
/// nodes whose edge count times one more than its node count is at most
/// 65535 always gets a plan.
#[verifier::rlimit(40)]
pub fn plan_layers(n: usize, edges: &[(u32, u32)]) -> (r: Option<LayeredPlan>)
    ensures
        n <= 0xffff && edges@.len() * (n + 1) <= 0xffff ==> r.is_some(),
        r matches Some(p) ==> plan_ok(n as int, edges@, p),
        r is None ==> n > 0x7fff_fffe || exists|es: Seq<LayoutEdge>, ranks: Seq<u32>|
            #[trigger] first_phases(n as int, edges@, es, ranks) && outgrows_usize(n as int, es, ranks),
{
    if n > 0x7fff_fffe {
        return None;
    }
    let live = remove_cycles(n, edges);
    proof {
        lemma_live_of_facts(edges@, n as int);
        assert forall|k: int| 0 <= k < live@.len() implies (#[trigger] live@[k]).from < n && live@[k].to < n by {
            assert(live@[k].orig == live_of(edges@, n as int)[k].orig);
        }
    }
    let ranks = rank_nodes(n, &live);
    let ghost live_v = live@;
    let ghost ranks_v = ranks@;
    let total = dummy_count(n, &live, &ranks);
    proof {
        lemma_total_span_bound(live@, ranks@, n as int, live@.len() as int);
        lemma_live_of_facts(edges@, n as int);
        if n <= 0xffff && edges@.len() * (n + 1) <= 0xffff {
            assert(live@.len() * n <= edges@.len() * (n + 1)) by (nonlinear_arith)
                requires
                    live@.len() <= edges@.len(),
            ;
        }
    }
    if total.is_none() {
        proof {
            assert(first_phases(n as int, edges@, live@, ranks@));
        }
        return None;
    }
    let (layers, segs, chains, rank_of) = insert_dummies(n, &live, &ranks);
    let sl = segs.len();
    proof {
        lemma_segs_len(live@, ranks@, n as int, live@.len() as int);
        if n <= 0xffff && edges@.len() * (n + 1) <= 0xffff {
            assert(live@.len() + live@.len() * n <= edges@.len() * (n + 1)) by (nonlinear_arith)
                requires
                    live@.len() <= edges@.len(),
            ;
            assert(sl <= 0xffff);
            assert(sl * sl <= 0xffff * 0xffff) by (nonlinear_arith)
                requires
                    sl <= 0xffff,
            ;
            if sl > 0 {
                assert(sl <= usize::MAX / sl) by (nonlinear_arith)
                    requires
                        sl * sl <= usize::MAX,
                        sl > 0,
                ;
            }
        }
    }
    if sl > 0 && sl > usize::MAX / sl {
        proof {
            assert(sl * sl > usize::MAX) by (nonlinear_arith)
                requires
                    sl > 0,
                    sl > usize::MAX / sl,
            ;
            assert(first_phases(n as int, edges@, live@, ranks@));
        }
        return None;
    }
    proof {
        if sl > 0 {
            assert(sl * sl <= usize::MAX) by (nonlinear_arith)
                requires
                    sl > 0,
                    sl <= usize::MAX / sl,
            ;
        }
        lemma_layers_ok_placed(layers@, rank_of@);
        lemma_layers_top(layers@);
        lemma_segs_in_range(live@, ranks@, n as int, live@.len() as int);
        if layers_top(layers@) >= 0 {
            let (r, i) = choose|r: int, i: int| #[trigger] is_at(layers@, layers_top(layers@), r, i);
            assert(layers_top(layers@) < rank_of@.len());
        }
        assert forall|k: int| 0 <= k < segs@.len() implies (#[trigger] segs@[k]).0 <= layers_top(layers@) && is_placed(
            layers@,
            segs@[k].1 as int,
        ) by {
            assert(is_placed(layers@, segs@[k].0 as int));
            let (r, i) = choose|r: int, i: int| #[trigger] is_at(layers@, segs@[k].0 as int, r, i);
            assert(is_placed(layers@, segs@[k].1 as int));
        }
    }
    let ghost seed = layers@;
    let ordered = reduce_crossings(layers, &segs);
    let plan = LayeredPlan { edges: live, ranks, layers: ordered, segs, chains, rank_of };
    proof {
        assert(layers_ok(seed, plan.rank_of@) && seed.len() == plan.layers.len() && reduced_from(seed, plan.segs@, plan.layers@));
        let (lp, lo) = choose|lp: Seq<u32>, lo: int| #[trigger] keeps_longest_path(live_v, ranks_v, lp, lo);
        assert(keeps_longest_path(plan.edges@, plan.ranks@, lp, lo));
        assert(first_phases(n as int, edges@, plan.edges@, plan.ranks@));
        assert(!outgrows_usize(n as int, plan.edges@, plan.ranks@));
    }
    Some(plan)
}

} // verus!
