use vstd::prelude::*;
use crate::layered::LayoutEdge;
use crate::crossings::placed_once;
use crate::crossings::same_views;

verus! {

/// How many ranks edge `i` skips: the number of dummy nodes it needs.
pub open spec fn span(es: Seq<LayoutEdge>, ranks: Seq<u32>, i: int) -> nat {
    let r0 = ranks[es[i].from as int];
    let r1 = ranks[es[i].to as int];
    if r1 > r0 + 1 {
        (r1 - r0 - 1) as nat
    } else {
        0
    }
}

/// Dummy nodes needed by the first `k` edges.
pub open spec fn total_span(es: Seq<LayoutEdge>, ranks: Seq<u32>, k: int) -> nat
    decreases k,
{
    if k <= 0 {
        0
    } else {
        total_span(es, ranks, k - 1) + span(es, ranks, k - 1)
    }
}

/// The unit segments an edge becomes, its `sp` dummies numbered from `first`.
pub open spec fn edge_segs(e: LayoutEdge, sp: nat, first: int) -> Seq<(usize, usize)> {
    Seq::new(
        sp + 1,
        |j: int|
            (
                if j == 0 {
                    e.from
                } else {
                    (first + j - 1) as usize
                },
                if j == sp {
                    e.to
                } else {
                    (first + j) as usize
                },
            ),
    )
}

/// The segments of the first `k` edges, in edge order.
pub open spec fn segs_upto(es: Seq<LayoutEdge>, ranks: Seq<u32>, n: int, k: int) -> Seq<(usize, usize)>
    decreases k,
{
    if k <= 0 {
        Seq::empty()
    } else {
        segs_upto(es, ranks, n, k - 1) + edge_segs(es[k - 1], span(es, ranks, k - 1), n + total_span(es, ranks, k - 1))
    }
}

/// An edge's dummies as a waypoint chain in the caller's direction: from the
/// layout source to the layout target, turned round for a reversed edge.
pub open spec fn edge_chain(e: LayoutEdge, sp: nat, first: int) -> Seq<usize> {
    Seq::new(
        sp,
        |j: int|
            if e.reversed {
                (first + sp - 1 - j) as usize
            } else {
                (first + j) as usize
            },
    )
}

/// The dummy chains of the first `k` edges, one per edge that needs any.
pub open spec fn chains_upto(es: Seq<LayoutEdge>, ranks: Seq<u32>, n: int, k: int) -> Seq<(usize, Seq<usize>)>
    decreases k,
{
    if k <= 0 {
        Seq::empty()
    } else {
        let rest = chains_upto(es, ranks, n, k - 1);
        let sp = span(es, ranks, k - 1);
        if sp > 0 {
            rest.push((es[k - 1].orig, edge_chain(es[k - 1], sp, n + total_span(es, ranks, k - 1))))
        } else {
            rest
        }
    }
}

/// The largest rank, 0 for none.
pub open spec fn max_rank(ranks: Seq<u32>) -> nat
    decreases ranks.len(),
{
    if ranks.len() == 0 {
        0
    } else {
        let m = max_rank(ranks.drop_last());
        if ranks.last() > m {
            ranks.last() as nat
        } else {
            m
        }
    }
}

proof fn lemma_max_rank(ranks: Seq<u32>)
    ensures
        forall|v: int| 0 <= v < ranks.len() ==> #[trigger] ranks[v] <= max_rank(ranks),
        ranks.len() > 0 ==> exists|v: int| 0 <= v < ranks.len() && #[trigger] ranks[v] == max_rank(ranks),
    decreases ranks.len(),
{
    if ranks.len() > 0 {
        let d = ranks.drop_last();
        lemma_max_rank(d);
        assert forall|v: int| 0 <= v < ranks.len() implies #[trigger] ranks[v] <= max_rank(ranks) by {
            if v < ranks.len() - 1 {
                assert(d[v] == ranks[v]);
            }
        }
        if ranks.last() <= max_rank(d) && d.len() > 0 {
            let v = choose|v: int| 0 <= v < d.len() && #[trigger] d[v] == max_rank(d);
            assert(ranks[v] == d[v]);
        } else {
            assert(ranks[ranks.len() - 1] == max_rank(ranks));
        }
    }
}

pub(crate) proof fn lemma_total_span_mono(es: Seq<LayoutEdge>, ranks: Seq<u32>, j: int, k: int)
    requires
        j <= k,
    ensures
        total_span(es, ranks, j) <= total_span(es, ranks, k),
    decreases k - j,
{
    if j < k {
        lemma_total_span_mono(es, ranks, j, k - 1);
    }
}

/// The rank of each virtual node: the real nodes keep theirs, and the dummies
/// of an edge take the ranks it skips, in order.
pub open spec fn virtual_rank_ok(es: Seq<LayoutEdge>, ranks: Seq<u32>, n: int, rank_of: Seq<usize>) -> bool {
    &&& rank_of.len() == n + total_span(es, ranks, es.len() as int)
    &&& forall|v: int| 0 <= v < n ==> #[trigger] rank_of[v] == ranks[v]
    &&& forall|i: int, j: int|
        0 <= i < es.len() && 0 <= j < span(es, ranks, i) ==> #[trigger] rank_of[n + total_span(es, ranks, i) + j]
            == ranks[es[i].from as int] + 1 + j
}

/// Each layer lists, in increasing order, exactly the virtual nodes of its
/// rank.
pub open spec fn layers_ok(layers: Seq<Vec<usize>>, rank_of: Seq<usize>) -> bool {
    &&& forall|r: int, i: int, j: int|
        0 <= r < layers.len() && 0 <= i < j < layers[r]@.len() ==> #[trigger] layers[r]@[i] < #[trigger] layers[r]@[j]
    &&& forall|r: int, i: int|
        0 <= r < layers.len() && 0 <= i < layers[r]@.len() ==> (#[trigger] layers[r]@[i]) < rank_of.len()
            && rank_of[layers[r]@[i] as int] == r
    &&& forall|v: int| 0 <= v < rank_of.len() ==> #[trigger] rank_of[v] < layers.len()
    &&& forall|v: int| 0 <= v < rank_of.len() ==> layers[#[trigger] rank_of[v] as int]@.contains(v as usize)
}

/// Real nodes first, in index order, then each layer's dummies: the layers
/// the ordering phase starts from.
fn gather_layers(n: usize, ranks: &[u32], dl: &Vec<Vec<usize>>, rank_of: &Vec<usize>) -> (r: Vec<Vec<usize>>)
    requires
        ranks.len() == n,
        n <= rank_of.len(),
        forall|v: int| 0 <= v < n ==> #[trigger] rank_of@[v] == ranks@[v],
        forall|v: int| 0 <= v < rank_of.len() ==> #[trigger] rank_of@[v] < dl.len(),
        forall|r: int, a: int, b: int|
            0 <= r < dl.len() && 0 <= a < b < dl@[r]@.len() ==> #[trigger] dl@[r]@[a] < #[trigger] dl@[r]@[b],
        forall|r: int, a: int|
            0 <= r < dl.len() && 0 <= a < dl@[r]@.len() ==> n <= #[trigger] dl@[r]@[a] < rank_of.len()
                && rank_of@[dl@[r]@[a] as int] == r,
        forall|d: int| n <= d < rank_of.len() ==> dl@[#[trigger] rank_of@[d] as int]@.contains(d as usize),
    ensures
        r.len() == dl.len(),
        layers_ok(r@, rank_of@),
{
    let depth = dl.len();
    let mut out: Vec<Vec<usize>> = Vec::new();
    let mut r: usize = 0;
    while r < depth
        invariant
            r <= depth,
            depth == dl.len(),
            ranks.len() == n,
            n <= rank_of.len(),
            forall|v: int| 0 <= v < n ==> #[trigger] rank_of@[v] == ranks@[v],
            forall|v: int| 0 <= v < rank_of.len() ==> #[trigger] rank_of@[v] < dl.len(),
            forall|rr: int, a: int, b: int|
                0 <= rr < dl.len() && 0 <= a < b < dl@[rr]@.len() ==> #[trigger] dl@[rr]@[a] < #[trigger] dl@[rr]@[b],
            forall|rr: int, a: int|
                0 <= rr < dl.len() && 0 <= a < dl@[rr]@.len() ==> n <= #[trigger] dl@[rr]@[a] < rank_of.len()
                    && rank_of@[dl@[rr]@[a] as int] == rr,
            forall|d: int| n <= d < rank_of.len() ==> dl@[#[trigger] rank_of@[d] as int]@.contains(d as usize),
            out.len() == r,
            forall|rr: int, i: int, j: int|
                0 <= rr < r && 0 <= i < j < out@[rr]@.len() ==> #[trigger] out@[rr]@[i] < #[trigger] out@[rr]@[j],
            forall|rr: int, i: int|
                0 <= rr < r && 0 <= i < out@[rr]@.len() ==> (#[trigger] out@[rr]@[i]) < rank_of.len()
                    && rank_of@[out@[rr]@[i] as int] == rr,
            forall|v: int| 0 <= v < rank_of.len() && #[trigger] rank_of@[v] < r ==> out@[rank_of@[v] as int]@.contains(v as usize),
        decreases depth - r,
    {
        let mut layer: Vec<usize> = Vec::new();
        let mut v: usize = 0;
        while v < n
            invariant
                v <= n,
                ranks.len() == n,
                n <= rank_of.len(),
                forall|w: int| 0 <= w < n ==> #[trigger] rank_of@[w] == ranks@[w],
                forall|i: int, j: int| 0 <= i < j < layer@.len() ==> #[trigger] layer@[i] < #[trigger] layer@[j],
                forall|i: int| 0 <= i < layer@.len() ==> (#[trigger] layer@[i]) < v && rank_of@[layer@[i] as int] == r,
                forall|w: int| 0 <= w < v && #[trigger] rank_of@[w] == r ==> layer@.contains(w as usize),
            decreases n - v,
        {
            if ranks[v] as usize == r {
                let ghost l0 = layer@;
                layer.push(v);
                proof {
                    assert forall|w: int| 0 <= w < v + 1 && #[trigger] rank_of@[w] == r implies layer@.contains(w as usize) by {
                        if w < v {
                            let i = choose|i: int| 0 <= i < l0.len() && l0[i] == w as usize;
                            assert(layer@[i] == w as usize);
                        } else {
                            assert(layer@[l0.len() as int] == w as usize);
                        }
                    }
                }
            }
            v = v + 1;
        }
        let nd = dl[r].len();
        let ghost reals = layer@;
        let mut a: usize = 0;
        while a < nd
            invariant
                a <= nd,
                r < depth,
                depth == dl.len(),
                nd == dl@[r as int]@.len(),
                n <= rank_of.len(),
                reals.len() <= layer@.len(),
                layer@.len() == reals.len() + a,
                forall|i: int| 0 <= i < reals.len() ==> #[trigger] layer@[i] == reals[i],
                forall|i: int| 0 <= i < a ==> #[trigger] layer@[reals.len() + i] == dl@[r as int]@[i],
                forall|rr: int, i: int, j: int|
                    0 <= rr < dl.len() && 0 <= i < j < dl@[rr]@.len() ==> #[trigger] dl@[rr]@[i] < #[trigger] dl@[rr]@[j],
                forall|rr: int, i: int|
                    0 <= rr < dl.len() && 0 <= i < dl@[rr]@.len() ==> n <= #[trigger] dl@[rr]@[i] < rank_of.len()
                        && rank_of@[dl@[rr]@[i] as int] == rr,
                forall|i: int, j: int| 0 <= i < j < layer@.len() ==> #[trigger] layer@[i] < #[trigger] layer@[j],
                forall|i: int| 0 <= i < layer@.len() ==> (#[trigger] layer@[i]) < rank_of.len() && rank_of@[layer@[i] as int] == r,
                forall|i: int| 0 <= i < reals.len() ==> #[trigger] reals[i] < n,
            decreases nd - a,
        {
            let d = dl[r][a];
            let ghost l0 = layer@;
            layer.push(d);
            proof {
                assert forall|i: int, j: int| 0 <= i < j < layer@.len() implies #[trigger] layer@[i] < #[trigger] layer@[j] by {
                    if j == l0.len() && i < l0.len() {
                        if i < reals.len() {
                            assert(layer@[i] == reals[i]);
                        } else {
                            let t = i - reals.len();
                            assert(l0[reals.len() + t] == dl@[r as int]@[t]);
                            assert(dl@[r as int]@[t] < dl@[r as int]@[a as int]);
                        }
                    }
                }
            }
            a = a + 1;
        }
        proof {
            assert forall|w: int| 0 <= w < rank_of.len() && #[trigger] rank_of@[w] == r implies layer@.contains(w as usize) by {
                if w < n {
                    assert(reals.contains(w as usize));
                    let i = choose|i: int| 0 <= i < reals.len() && reals[i] == w as usize;
                    assert(layer@[i] == w as usize);
                } else {
                    assert(dl@[r as int]@.contains(w as usize));
                    let i = choose|i: int| 0 <= i < dl@[r as int]@.len() && dl@[r as int]@[i] == w as usize;
                    assert(layer@[reals.len() + i] == w as usize);
                }
            }
        }
        out.push(layer);
        r = r + 1;
    }
    out
}

/// The chains built match the chains specified, entry by entry.
pub open spec fn chains_match(c: Seq<(usize, Vec<usize>)>, s: Seq<(usize, Seq<usize>)>) -> bool {
    &&& c.len() == s.len()
    &&& forall|i: int| 0 <= i < c.len() ==> (#[trigger] c[i]).0 == s[i].0 && c[i].1@ == s[i].1
}

/// The same items, last first.
fn reversed(v: &Vec<usize>) -> (r: Vec<usize>)
    ensures
        r@ == v@.reverse(),
{
    let mut r: Vec<usize> = Vec::new();
    let mut i: usize = v.len();
    while i > 0
        invariant
            i <= v.len(),
            r@.len() == v.len() - i,
            forall|j: int| 0 <= j < r@.len() ==> #[trigger] r@[j] == v@[v.len() - 1 - j],
        decreases i,
    {
        i = i - 1;
        r.push(v[i]);
    }
    proof {
        assert(r@ =~= v@.reverse());
    }
    r
}

/// Split every edge that skips ranks into unit segments through fresh dummy
/// nodes, one per skipped rank, numbered from `n` in edge order. Returns the
/// dummies of each rank, the segments, the chains and every virtual node's
/// rank.
fn split_edges(n: usize, edges: &[LayoutEdge], ranks: &[u32], depth: usize) -> (r: (
    Vec<Vec<usize>>,
    Vec<(usize, usize)>,
    Vec<(usize, Vec<usize>)>,
    Vec<usize>,
))
    requires
        ranks.len() == n,
        forall|k: int| 0 <= k < edges@.len() ==> (#[trigger] edges@[k]).from < n && edges@[k].to < n,
        forall|v: int| 0 <= v < n ==> #[trigger] ranks@[v] < depth,
        n + total_span(edges@, ranks@, edges@.len() as int) <= usize::MAX,
    ensures
        r.0.len() == depth,
        virtual_rank_ok(edges@, ranks@, n as int, r.3@),
        forall|v: int| 0 <= v < r.3.len() ==> #[trigger] r.3@[v] < depth,
        forall|x: int, a: int, b: int|
            0 <= x < r.0.len() && 0 <= a < b < r.0@[x]@.len() ==> #[trigger] r.0@[x]@[a] < #[trigger] r.0@[x]@[b],
        forall|x: int, a: int|
            0 <= x < r.0.len() && 0 <= a < r.0@[x]@.len() ==> n <= #[trigger] r.0@[x]@[a] < r.3.len()
                && r.3@[r.0@[x]@[a] as int] == x,
        forall|d: int| n <= d < r.3.len() ==> r.0@[#[trigger] r.3@[d] as int]@.contains(d as usize),
        r.1@ == segs_upto(edges@, ranks@, n as int, edges@.len() as int),
        chains_match(r.2@, chains_upto(edges@, ranks@, n as int, edges@.len() as int)),
{
    let ghost es = edges@;
    let ghost rk = ranks@;
    let m = edges.len();
    let mut dl: Vec<Vec<usize>> = Vec::new();
    let mut x: usize = 0;
    while x < depth
        invariant
            x <= depth,
            dl.len() == x,
            forall|y: int| 0 <= y < x ==> (#[trigger] dl@[y])@.len() == 0,
        decreases depth - x,
    {
        dl.push(Vec::new());
        x = x + 1;
    }
    let mut rank_of: Vec<usize> = Vec::new();
    let mut v: usize = 0;
    while v < n
        invariant
            v <= n,
            ranks.len() == n,
            rank_of.len() == v,
            forall|w: int| 0 <= w < v ==> #[trigger] rank_of@[w] == ranks@[w],
        decreases n - v,
    {
        rank_of.push(ranks[v] as usize);
        v = v + 1;
    }
    let mut segs: Vec<(usize, usize)> = Vec::new();
    let mut chains: Vec<(usize, Vec<usize>)> = Vec::new();
    let mut next: usize = n;
    let mut i: usize = 0;
    while i < m
        invariant
            i <= m,
            m == es.len(),
            es == edges@,
            rk == ranks@,
            ranks.len() == n,
            forall|k: int| 0 <= k < es.len() ==> (#[trigger] es[k]).from < n && es[k].to < n,
            forall|w: int| 0 <= w < n ==> #[trigger] rk[w] < depth,
            n + total_span(es, rk, m as int) <= usize::MAX,
            dl.len() == depth,
            next == n + total_span(es, rk, i as int),
            rank_of.len() == next,
            forall|w: int| 0 <= w < n ==> #[trigger] rank_of@[w] == rk[w],
            forall|ii: int, j: int|
                0 <= ii < i && 0 <= j < span(es, rk, ii) ==> #[trigger] rank_of@[n + total_span(es, rk, ii) + j]
                    == rk[es[ii].from as int] + 1 + j,
            forall|w: int| 0 <= w < rank_of.len() ==> #[trigger] rank_of@[w] < depth,
            forall|y: int, a: int, b: int|
                0 <= y < dl.len() && 0 <= a < b < dl@[y]@.len() ==> #[trigger] dl@[y]@[a] < #[trigger] dl@[y]@[b],
            forall|y: int, a: int|
                0 <= y < dl.len() && 0 <= a < dl@[y]@.len() ==> n <= #[trigger] dl@[y]@[a] < next
                    && rank_of@[dl@[y]@[a] as int] == y,
            forall|d: int| n <= d < next ==> dl@[#[trigger] rank_of@[d] as int]@.contains(d as usize),
            segs@ == segs_upto(es, rk, n as int, i as int),
            chains_match(chains@, chains_upto(es, rk, n as int, i as int)),
        decreases m - i,
    {
        let e = edges[i];
        let r0 = ranks[e.from] as usize;
        let r1 = ranks[e.to] as usize;
        proof {
            lemma_total_span_mono(es, rk, i + 1, m as int);
        }
        if r1 <= r0 + 1 {
            let ghost s0 = segs@;
            segs.push((e.from, e.to));
            proof {
                assert(span(es, rk, i as int) == 0);
                assert(segs@ =~= s0 + edge_segs(e, 0, n + total_span(es, rk, i as int)));
            }
        } else {
            let first = next;
            let ghost s0 = segs@;
            let ghost sp = span(es, rk, i as int);
            let mut chain: Vec<usize> = Vec::new();
            let mut prev = e.from;
            let mut rr = r0 + 1;
            while rr < r1
                invariant
                    r0 + 1 <= rr <= r1,
                    r1 < depth,
                    r1 > r0 + 1,
                    sp == r1 - r0 - 1,
                    e == es[i as int],
                    i < m,
                    r0 == rk[e.from as int],
                    first == n + total_span(es, rk, i as int),
                    first + sp <= usize::MAX,
                    next == first + (rr - r0 - 1),
                    segs@ == s0 + Seq::new(
                        (rr - r0 - 1) as nat,
                        |j: int|
                            (
                                if j == 0 {
                                    e.from
                                } else {
                                    (first + j - 1) as usize
                                },
                                (first + j) as usize,
                            ),
                    ),
                    prev == if rr == r0 + 1 {
                        e.from
                    } else {
                        (next - 1) as usize
                    },
                    chain@ == Seq::new((rr - r0 - 1) as nat, |j: int| (first + j) as usize),
                    dl.len() == depth,
                    rank_of.len() == next,
                    forall|w: int| 0 <= w < n ==> #[trigger] rank_of@[w] == rk[w],
                    forall|ii: int, j: int|
                        0 <= ii < i && 0 <= j < span(es, rk, ii) ==> #[trigger] rank_of@[n + total_span(es, rk, ii) + j]
                            == rk[es[ii].from as int] + 1 + j,
                    forall|j: int| 0 <= j < rr - r0 - 1 ==> #[trigger] rank_of@[first + j] == r0 + 1 + j,
                    forall|w: int| 0 <= w < rank_of.len() ==> #[trigger] rank_of@[w] < depth,
                    forall|y: int, a: int, b: int|
                        0 <= y < dl.len() && 0 <= a < b < dl@[y]@.len() ==> #[trigger] dl@[y]@[a] < #[trigger] dl@[y]@[b],
                    forall|y: int, a: int|
                        0 <= y < dl.len() && 0 <= a < dl@[y]@.len() ==> n <= #[trigger] dl@[y]@[a] < next
                            && rank_of@[dl@[y]@[a] as int] == y,
                    forall|d: int| n <= d < next ==> dl@[#[trigger] rank_of@[d] as int]@.contains(d as usize),
                decreases r1 - rr,
            {
                let d = next;
                let ghost dl0 = dl@;
                let ghost ro0 = rank_of@;
                let ghost sg0 = segs@;
                next = next + 1;
                dl[rr].push(d);
                rank_of.push(rr);
                chain.push(d);
                segs.push((prev, d));
                prev = d;
                rr = rr + 1;
                proof {
                    assert forall|y: int, a: int, b: int|
                        0 <= y < dl.len() && 0 <= a < b < dl@[y]@.len() implies #[trigger] dl@[y]@[a] < #[trigger] dl@[y]@[b] by {
                        if y == rr - 1 && b == dl0[y]@.len() {
                            assert(dl0[y]@[a] < d);
                        } else if y == rr - 1 {
                            assert(dl0[y]@[a] < dl0[y]@[b]);
                        } else {
                            assert(dl@[y] == dl0[y]);
                        }
                    }
                    assert forall|y: int, a: int|
                        0 <= y < dl.len() && 0 <= a < dl@[y]@.len() implies n <= #[trigger] dl@[y]@[a] < next
                            && rank_of@[dl@[y]@[a] as int] == y by {
                        if y == rr - 1 && a == dl0[y]@.len() {
                        } else if y == rr - 1 {
                            assert(dl@[y]@[a] == dl0[y]@[a]);
                        } else {
                            assert(dl@[y] == dl0[y]);
                        }
                    }
                    assert forall|dd: int| n <= dd < next implies dl@[#[trigger] rank_of@[dd] as int]@.contains(dd as usize) by {
                        if dd == d {
                            assert(dl@[rr - 1]@[dl0[rr - 1]@.len() as int] == d);
                        } else {
                            assert(rank_of@[dd] == ro0[dd]);
                            let y = ro0[dd] as int;
                            assert(dl0[y]@.contains(dd as usize));
                            let a = choose|a: int| 0 <= a < dl0[y]@.len() && dl0[y]@[a] == dd as usize;
                            assert(dl@[y]@[a] == dd as usize);
                        }
                    }
                    assert forall|ii: int, j: int|
                        0 <= ii < i && 0 <= j < span(es, rk, ii) implies #[trigger] rank_of@[n + total_span(es, rk, ii) + j]
                            == rk[es[ii].from as int] + 1 + j by {
                        lemma_total_span_mono(es, rk, ii + 1, i as int);
                        assert(ro0[n + total_span(es, rk, ii) + j] == rk[es[ii].from as int] + 1 + j);
                    }
                    assert forall|j: int| 0 <= j < rr - r0 - 1 implies #[trigger] rank_of@[first + j] == r0 + 1 + j by {
                        if j < rr - r0 - 2 {
                            assert(ro0[first + j] == r0 + 1 + j);
                        }
                    }
                    assert(segs@ =~= s0 + Seq::new(
                        (rr - r0 - 1) as nat,
                        |j: int|
                            (
                                if j == 0 {
                                    e.from
                                } else {
                                    (first + j - 1) as usize
                                },
                                (first + j) as usize,
                            ),
                    ));
                    assert(chain@ =~= Seq::new((rr - r0 - 1) as nat, |j: int| (first + j) as usize));
                }
            }
            let ghost s1 = segs@;
            segs.push((prev, e.to));
            proof {
                assert(segs@ =~= s0 + edge_segs(e, sp, first as int));
            }
            let ghost c0 = chains@;
            if e.reversed {
                let rev = reversed(&chain);
                proof {
                    assert(rev@ =~= edge_chain(e, sp, first as int));
                }
                chains.push((e.orig, rev));
            } else {
                proof {
                    assert(chain@ =~= edge_chain(e, sp, first as int));
                }
                chains.push((e.orig, chain));
            }
            proof {
                let cu = chains_upto(es, rk, n as int, i + 1);
                assert(cu == chains_upto(es, rk, n as int, i as int).push((e.orig, edge_chain(e, sp, first as int))));
                assert forall|c: int| 0 <= c < chains@.len() implies (#[trigger] chains@[c]).0 == cu[c].0 && chains@[c].1@ == cu[c].1 by {
                    if c < c0.len() {
                        assert(chains@[c] == c0[c]);
                    }
                }
            }
        }
        i = i + 1;
    }
    (dl, segs, chains, rank_of)
}

/// The layers, unit segments, dummy chains and virtual-node ranks of a
/// layered graph.
pub type Layered = (Vec<Vec<usize>>, Vec<(usize, usize)>, Vec<(usize, Vec<usize>)>, Vec<usize>);

/// Phase 3 — dummy nodes. Every edge spanning more than one rank is split
/// into unit-length segments with one dummy per rank it skips, numbered from
/// `n` in edge order, so the later phases only see neighbouring ranks.
///
/// Returns one layer per rank from 0 to the largest (each the real nodes of
/// that rank in index order, then its dummies in creation order), the unit
/// segments edge by edge, each split edge's dummy chain in the caller's
/// direction, and every virtual node's rank.
pub fn insert_dummies(n: usize, edges: &[LayoutEdge], ranks: &[u32]) -> (r: Layered)
    requires
        ranks.len() == n,
        forall|k: int| 0 <= k < edges@.len() ==> (#[trigger] edges@[k]).from < n && edges@[k].to < n,
        forall|v: int| 0 <= v < n ==> #[trigger] ranks@[v] < usize::MAX,
        n + total_span(edges@, ranks@, edges@.len() as int) <= usize::MAX,
    ensures
        r.0.len() == max_rank(ranks@) + 1,
        layers_ok(r.0@, r.3@),
        virtual_rank_ok(edges@, ranks@, n as int, r.3@),
        r.1@ == segs_upto(edges@, ranks@, n as int, edges@.len() as int),
        chains_match(r.2@, chains_upto(edges@, ranks@, n as int, edges@.len() as int)),
{
    let mut top: u32 = 0;
    let mut v: usize = 0;
    while v < n
        invariant
            v <= n,
            ranks.len() == n,
            forall|j: int| 0 <= j < v ==> #[trigger] ranks@[j] <= top,
            v == 0 ==> top == 0,
            v > 0 ==> exists|j: int| 0 <= j < v && #[trigger] ranks@[j] == top,
        decreases n - v,
    {
        if ranks[v] > top {
            top = ranks[v];
        }
        v = v + 1;
    }
    proof {
        lemma_max_rank(ranks@);
        if n > 0 {
            let j = choose|j: int| 0 <= j < n && #[trigger] ranks@[j] == top;
            let w = choose|w: int| 0 <= w < ranks@.len() && #[trigger] ranks@[w] == max_rank(ranks@);
            assert(ranks@[w] <= top);
        }
    }
    let depth = top as usize + 1;
    let (dl, segs, chains, rank_of) = split_edges(n, edges, ranks, depth);
    let layers = gather_layers(n, ranks, &dl, &rank_of);
    (layers, segs, chains, rank_of)
}

/// Every dummy index below the first `k` edges' total belongs to one of
/// those edges: it is dummy `j` of edge `i`.
proof fn lemma_dummy_owner(es: Seq<LayoutEdge>, ranks: Seq<u32>, k: int, d: int) -> (w: (int, int))
    requires
        0 <= d < total_span(es, ranks, k),
    ensures
        0 <= w.0 < k,
        0 <= w.1 < span(es, ranks, w.0),
        d == total_span(es, ranks, w.0) + w.1,
    decreases k,
{
    if d < total_span(es, ranks, k - 1) {
        lemma_dummy_owner(es, ranks, k - 1, d)
    } else {
        (k - 1, d - total_span(es, ranks, k - 1))
    }
}

/// The virtual ranks are determined by the edges, the ranks and `n`.
pub(crate) proof fn lemma_virtual_rank_unique(es: Seq<LayoutEdge>, ranks: Seq<u32>, n: int, r1: Seq<usize>, r2: Seq<usize>)
    requires
        n >= 0,
        virtual_rank_ok(es, ranks, n, r1),
        virtual_rank_ok(es, ranks, n, r2),
    ensures
        r1 == r2,
{
    assert forall|v: int| 0 <= v < r1.len() implies r1[v] == r2[v] by {
        if v >= n {
            let (i, j) = lemma_dummy_owner(es, ranks, es.len() as int, v - n);
            assert(r1[n + total_span(es, ranks, i) + j] == r2[n + total_span(es, ranks, i) + j]);
        }
    }
    assert(r1 =~= r2);
}

/// Seed layers list no node twice.
pub(crate) proof fn lemma_layers_ok_placed_once(layers: Seq<Vec<usize>>, rank_of: Seq<usize>)
    requires
        layers_ok(layers, rank_of),
    ensures
        placed_once(layers),
{
    assert forall|r1: int, i1: int, r2: int, i2: int|
        0 <= r1 < layers.len() && 0 <= i1 < layers[r1]@.len() && 0 <= r2 < layers.len() && 0 <= i2 < layers[r2]@.len()
            && #[trigger] layers[r1]@[i1] == #[trigger] layers[r2]@[i2] implies r1 == r2 && i1 == i2 by {
        assert(rank_of[layers[r1]@[i1] as int] == r1);
        assert(rank_of[layers[r2]@[i2] as int] == r2);
        if i1 < i2 {
            assert(layers[r1]@[i1] < layers[r1]@[i2]);
        } else if i2 < i1 {
            assert(layers[r1]@[i2] < layers[r1]@[i1]);
        }
    }
}

/// Two increasing lists with the same members are the same list.
proof fn lemma_increasing_same(a: Seq<usize>, b: Seq<usize>)
    requires
        forall|i: int, j: int| 0 <= i < j < a.len() ==> #[trigger] a[i] < #[trigger] a[j],
        forall|i: int, j: int| 0 <= i < j < b.len() ==> #[trigger] b[i] < #[trigger] b[j],
        forall|x: usize| #[trigger] a.contains(x) <==> b.contains(x),
    ensures
        a == b,
    decreases a.len(),
{
    if a.len() == 0 {
        if b.len() > 0 {
            assert(b.contains(b[0]));
            assert(!a.contains(b[0]));
        }
        assert(a =~= b);
    } else if b.len() == 0 {
        assert(a.contains(a[0]));
        assert(!b.contains(a[0]));
    } else {
        assert(a.contains(a[0]));
        assert(b.contains(b[0]));
        assert(b.contains(a[0]));
        assert(a.contains(b[0]));
        let p = choose|p: int| 0 <= p < b.len() && b[p] == a[0];
        let q = choose|q: int| 0 <= q < a.len() && a[q] == b[0];
        if p > 0 {
            assert(b[0] < b[p]);
        }
        if q > 0 {
            assert(a[0] < a[q]);
        }
        assert(a[0] == b[0]);
        let at = a.drop_first();
        let bt = b.drop_first();
        assert forall|x: usize| #[trigger] at.contains(x) <==> bt.contains(x) by {
            if at.contains(x) {
                let i = choose|i: int| 0 <= i < at.len() && at[i] == x;
                assert(a[0] < a[i + 1]);
                assert(a[i + 1] == x);
                assert(a.contains(x));
                assert(b.contains(x));
                let j = choose|j: int| 0 <= j < b.len() && b[j] == x;
                assert(j != 0);
                assert(bt[j - 1] == x);
            }
            if bt.contains(x) {
                let i = choose|i: int| 0 <= i < bt.len() && bt[i] == x;
                assert(b[0] < b[i + 1]);
                assert(b[i + 1] == x);
                assert(b.contains(x));
                assert(a.contains(x));
                let j = choose|j: int| 0 <= j < a.len() && a[j] == x;
                assert(j != 0);
                assert(at[j - 1] == x);
            }
        }
        assert forall|i: int, j: int| 0 <= i < j < at.len() implies #[trigger] at[i] < #[trigger] at[j] by {
            assert(a[i + 1] < a[j + 1]);
        }
        assert forall|i: int, j: int| 0 <= i < j < bt.len() implies #[trigger] bt[i] < #[trigger] bt[j] by {
            assert(b[i + 1] < b[j + 1]);
        }
        lemma_increasing_same(at, bt);
        assert(a =~= b) by {
            assert forall|i: int| 0 <= i < a.len() implies a[i] == b[i] by {
                if i > 0 {
                    assert(a[i] == at[i - 1]);
                    assert(b[i] == bt[i - 1]);
                }
            }
        }
    }
}

/// The seed layers are determined by the virtual ranks and their number.
pub(crate) proof fn lemma_layers_ok_unique(l1: Seq<Vec<usize>>, l2: Seq<Vec<usize>>, rank_of: Seq<usize>)
    requires
        layers_ok(l1, rank_of),
        layers_ok(l2, rank_of),
        l1.len() == l2.len(),
    ensures
        same_views(l1, l2),
{
    assert forall|r: int| 0 <= r < l1.len() implies (#[trigger] l1[r])@ == l2[r]@ by {
        assert forall|x: usize| #[trigger] l1[r]@.contains(x) <==> l2[r]@.contains(x) by {
            if l1[r]@.contains(x) {
                let i = choose|i: int| 0 <= i < l1[r]@.len() && l1[r]@[i] == x;
                assert(rank_of[l1[r]@[i] as int] == r);
                assert(l2[rank_of[x as int] as int]@.contains(x));
            }
            if l2[r]@.contains(x) {
                let i = choose|i: int| 0 <= i < l2[r]@.len() && l2[r]@[i] == x;
                assert(rank_of[l2[r]@[i] as int] == r);
                assert(l1[rank_of[x as int] as int]@.contains(x));
            }
        }
        assert forall|i: int, j: int| 0 <= i < j < l1[r]@.len() implies #[trigger] l1[r]@[i] < #[trigger] l1[r]@[j] by {}
        assert forall|i: int, j: int| 0 <= i < j < l2[r]@.len() implies #[trigger] l2[r]@[i] < #[trigger] l2[r]@[j] by {}
        lemma_increasing_same(l1[r]@, l2[r]@);
    }
}

} // verus!
