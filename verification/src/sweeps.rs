use vstd::prelude::*;
use crate::crossings::is_at;
use crate::crossings::placed_once;
use crate::crossings::layers_below;
use crate::crossings::crossings_upto;
use crate::crossings::count_crossings;
use crate::crossings::same_views;
use crate::crossings::lemma_crossings_same;
use crate::crossings::lemma_slot_same;
use crate::ordering::is_placed;
use crate::ordering::same_members;
use crate::ordering::step_ok;
use crate::ordering::visit;
use crate::ordering::nbr_view;
use crate::ordering::dfs_order;
use crate::ordering::layer_ranks;
use crate::walk::dfs_layers;
use crate::ordering::barycenter_sweep;
use crate::ordering::lemma_step_members;
use crate::ordering::lemma_sweep_same;

verus! {

/// How many down-and-up sweep pairs the crossing reduction tries at most.
pub const SWEEPS: usize = 4;

/// The lower ends of the segments leaving `v`, in segment order.
pub open spec fn seg_targets(segs: Seq<(usize, usize)>, v: int) -> Seq<usize>
    decreases segs.len(),
{
    if segs.len() == 0 {
        Seq::empty()
    } else {
        let rest = seg_targets(segs.drop_last(), v);
        if segs.last().0 == v {
            rest.push(segs.last().1)
        } else {
            rest
        }
    }
}

/// The upper ends of the segments entering `v`, in segment order.
pub open spec fn seg_sources(segs: Seq<(usize, usize)>, v: int) -> Seq<usize>
    decreases segs.len(),
{
    if segs.len() == 0 {
        Seq::empty()
    } else {
        let rest = seg_sources(segs.drop_last(), v);
        if segs.last().1 == v {
            rest.push(segs.last().0)
        } else {
            rest
        }
    }
}

/// The largest entry of `s`, or -1 for none.
pub open spec fn seq_top(s: Seq<usize>) -> int
    decreases s.len(),
{
    if s.len() == 0 {
        -1
    } else {
        let m = seq_top(s.drop_last());
        if s.last() > m {
            s.last() as int
        } else {
            m
        }
    }
}

/// The largest node in any layer, or -1 when every layer is empty.
pub open spec fn layers_top(ls: Seq<Vec<usize>>) -> int
    decreases ls.len(),
{
    if ls.len() == 0 {
        -1
    } else {
        let m = layers_top(ls.drop_last());
        let t = seq_top(ls.last()@);
        if t > m {
            t
        } else {
            m
        }
    }
}

/// Sweep `k` of the reduction turns `prev` into `next`: even sweeps go down
/// ordering by upper neighbours, odd ones go up ordering by lower neighbours.
pub open spec fn sweep_of(
    prev: Seq<Vec<usize>>,
    next: Seq<Vec<usize>>,
    up: Seq<Seq<usize>>,
    down: Seq<Seq<usize>>,
    k: int,
) -> bool {
    &&& next.len() == prev.len()
    &&& k % 2 == 0 ==> forall|t: int| 0 <= t < prev.len() ==> #[trigger] step_ok(prev, next, up, true, t)
    &&& k % 2 == 1 ==> forall|t: int| 0 <= t < prev.len() ==> #[trigger] step_ok(prev, next, down, false, t)
}

/// Crossings of a whole ordering.
pub open spec fn crossing_total(ls: Seq<Vec<usize>>, segs: Seq<(usize, usize)>) -> nat {
    crossings_upto(ls, segs, segs.len() as int)
}

/// The run of the crossing reduction: `cands` are the orderings it scored
/// (the depth-first seed, then one per sweep), and
/// `j` is the first of the fewest crossings among them. It stops after
/// `SWEEPS` down-and-up pairs, or after the first pair that leaves a
/// crossing-free ordering in hand.
pub open spec fn reduce_run(layers: Seq<Vec<usize>>, segs: Seq<(usize, usize)>, cands: Seq<Seq<Vec<usize>>>, j: int) -> bool {
    let nv = layers_top(layers) + 1;
    let up = Seq::new(nv as nat, |v: int| seg_sources(segs, v));
    let down = Seq::new(nv as nat, |v: int| seg_targets(segs, v));
    &&& 3 <= cands.len() <= 2 * SWEEPS + 1
    &&& cands.len() % 2 == 1
    &&& cands[0].len() == layers.len()
    &&& forall|r: int| 0 <= r < layers.len() ==> #[trigger] same_members(layers[r]@, cands[0][r]@)
    &&& nbr_view(cands[0]) == dfs_layers(nbr_view(layers), down, layer_ranks(layers, nv))
    &&& forall|k: int| 0 <= k < cands.len() - 1 ==> #[trigger] sweep_of(cands[k], cands[k + 1], up, down, k)
    &&& 0 <= j < cands.len()
    &&& forall|k: int| 0 <= k < cands.len() ==> crossing_total(cands[j], segs) <= crossing_total(#[trigger] cands[k], segs)
    &&& forall|k: int| 0 <= k < j ==> crossing_total(cands[j], segs) < crossing_total(#[trigger] cands[k], segs)
    &&& cands.len() < 2 * SWEEPS + 1 ==> crossing_total(cands[j], segs) == 0
    &&& cands.len() >= 5 ==> forall|k: int| 0 <= k < cands.len() - 2 ==> crossing_total(#[trigger] cands[k], segs) > 0
}

pub(crate) proof fn lemma_seq_top(s: Seq<usize>)
    ensures
        forall|i: int| 0 <= i < s.len() ==> #[trigger] s[i] <= seq_top(s),
        seq_top(s) >= -1,
        s.len() == 0 <==> seq_top(s) == -1,
        s.len() > 0 ==> exists|i: int| 0 <= i < s.len() && #[trigger] s[i] == seq_top(s),
    decreases s.len(),
{
    if s.len() > 0 {
        let d = s.drop_last();
        lemma_seq_top(d);
        assert forall|i: int| 0 <= i < s.len() implies #[trigger] s[i] <= seq_top(s) by {
            if i < s.len() - 1 {
                assert(d[i] == s[i]);
            }
        }
        if s.last() > seq_top(d) {
            assert(s[s.len() - 1] == seq_top(s));
        } else {
            let i = choose|i: int| 0 <= i < d.len() && #[trigger] d[i] == seq_top(d);
            assert(s[i] == d[i]);
        }
    }
}

pub(crate) proof fn lemma_layers_top(ls: Seq<Vec<usize>>)
    ensures
        forall|r: int, i: int| 0 <= r < ls.len() && 0 <= i < ls[r]@.len() ==> #[trigger] ls[r]@[i] <= layers_top(ls),
        layers_top(ls) >= -1,
        layers_top(ls) == -1 <==> forall|r: int| 0 <= r < ls.len() ==> (#[trigger] ls[r])@.len() == 0,
        layers_top(ls) >= 0 ==> exists|r: int, i: int| #[trigger] is_at(ls, layers_top(ls), r, i),
    decreases ls.len(),
{
    if ls.len() > 0 {
        let d = ls.drop_last();
        lemma_layers_top(d);
        lemma_seq_top(ls.last()@);
        if layers_top(ls) >= 0 {
            if seq_top(ls.last()@) > layers_top(d) {
                let i = choose|i: int| 0 <= i < ls.last()@.len() && #[trigger] ls.last()@[i] == seq_top(ls.last()@);
                assert(is_at(ls, layers_top(ls), ls.len() - 1, i));
            } else {
                let (r, i) = choose|r: int, i: int| #[trigger] is_at(d, layers_top(d), r, i);
                assert(d[r] == ls[r]);
                assert(is_at(ls, layers_top(ls), r, i));
            }
        }
        assert forall|r: int, i: int| 0 <= r < ls.len() && 0 <= i < ls[r]@.len() implies #[trigger] ls[r]@[i] <= layers_top(ls) by {
            if r < ls.len() - 1 {
                assert(d[r] == ls[r]);
            } else {
                assert(ls[r]@[i] <= seq_top(ls.last()@));
            }
        }
        if layers_top(ls) == -1 {
            assert forall|r: int| 0 <= r < ls.len() implies (#[trigger] ls[r])@.len() == 0 by {
                if r < ls.len() - 1 {
                    assert(d[r] == ls[r]);
                }
            }
        }
        if forall|r: int| 0 <= r < ls.len() ==> (#[trigger] ls[r])@.len() == 0 {
            assert forall|r: int| 0 <= r < d.len() implies (#[trigger] d[r])@.len() == 0 by {
                assert(d[r] == ls[r]);
            }
            assert(ls[ls.len() - 1]@.len() == 0);
        }
    }
}

/// The largest node in any layer, `None` when every layer is empty.
fn top_node(layers: &Vec<Vec<usize>>) -> (r: Option<usize>)
    ensures
        r.is_none() <==> layers_top(layers@) == -1,
        r.is_some() ==> r.unwrap() as int == layers_top(layers@),
{
    let mut top: Option<usize> = None;
    let mut r: usize = 0;
    while r < layers.len()
        invariant
            r <= layers.len(),
            top.is_none() <==> layers_top(layers@.subrange(0, r as int)) == -1,
            top.is_some() ==> top.unwrap() as int == layers_top(layers@.subrange(0, r as int)),
        decreases layers.len() - r,
    {
        let layer = &layers[r];
        let mut best: Option<usize> = None;
        let mut i: usize = 0;
        while i < layer.len()
            invariant
                i <= layer.len(),
                best.is_none() <==> seq_top(layer@.subrange(0, i as int)) == -1,
                best.is_some() ==> best.unwrap() as int == seq_top(layer@.subrange(0, i as int)),
            decreases layer.len() - i,
        {
            proof {
                assert(layer@.subrange(0, i + 1).drop_last() =~= layer@.subrange(0, i as int));
                lemma_seq_top(layer@.subrange(0, i as int));
            }
            let x = layer[i];
            match best {
                None => {
                    best = Some(x);
                },
                Some(b) => {
                    if x > b {
                        best = Some(x);
                    }
                },
            }
            i = i + 1;
        }
        proof {
            assert(layer@.subrange(0, layer@.len() as int) =~= layer@);
            assert(layers@.subrange(0, r + 1).drop_last() =~= layers@.subrange(0, r as int));
            lemma_layers_top(layers@.subrange(0, r as int));
            lemma_seq_top(layer@);
        }
        match best {
            None => {},
            Some(b) => {
                match top {
                    None => {
                        top = Some(b);
                    },
                    Some(t) => {
                        if b > t {
                            top = Some(b);
                        }
                    },
                }
            },
        }
        r = r + 1;
    }
    proof {
        assert(layers@.subrange(0, layers@.len() as int) =~= layers@);
    }
    top
}

/// Each node's upper neighbours (segments entering it) and lower neighbours
/// (segments leaving it), in segment order.
fn seg_adjacency(segs: &[(usize, usize)], nv: usize) -> (r: (Vec<Vec<usize>>, Vec<Vec<usize>>))
    requires
        forall|k: int| 0 <= k < segs@.len() ==> (#[trigger] segs@[k]).0 < nv && segs@[k].1 < nv,
    ensures
        r.0.len() == nv,
        r.1.len() == nv,
        nbr_view(r.0@) == Seq::new(nv as nat, |v: int| seg_sources(segs@, v)),
        nbr_view(r.1@) == Seq::new(nv as nat, |v: int| seg_targets(segs@, v)),
{
    let mut up: Vec<Vec<usize>> = Vec::new();
    let mut down: Vec<Vec<usize>> = Vec::new();
    let mut x: usize = 0;
    while x < nv
        invariant
            x <= nv,
            up.len() == x,
            down.len() == x,
            forall|y: int| 0 <= y < x ==> (#[trigger] up@[y])@.len() == 0,
            forall|y: int| 0 <= y < x ==> (#[trigger] down@[y])@.len() == 0,
        decreases nv - x,
    {
        up.push(Vec::new());
        down.push(Vec::new());
        x = x + 1;
    }
    let mut k: usize = 0;
    while k < segs.len()
        invariant
            k <= segs.len(),
            up.len() == nv,
            down.len() == nv,
            forall|q: int| 0 <= q < segs@.len() ==> (#[trigger] segs@[q]).0 < nv && segs@[q].1 < nv,
            forall|v: int| 0 <= v < nv ==> (#[trigger] up@[v])@ == seg_sources(segs@.subrange(0, k as int), v),
            forall|v: int| 0 <= v < nv ==> (#[trigger] down@[v])@ == seg_targets(segs@.subrange(0, k as int), v),
        decreases segs.len() - k,
    {
        let (a, b) = segs[k];
        proof {
            assert(segs@.subrange(0, k + 1).drop_last() =~= segs@.subrange(0, k as int));
        }
        down[a].push(b);
        up[b].push(a);
        k = k + 1;
    }
    proof {
        assert(segs@.subrange(0, segs@.len() as int) =~= segs@);
        assert(nbr_view(up@) =~= Seq::new(nv as nat, |v: int| seg_sources(segs@, v)));
        assert(nbr_view(down@) =~= Seq::new(nv as nat, |v: int| seg_targets(segs@, v)));
    }
    (up, down)
}

/// An element-by-element copy of an ordering.
fn copy_layers(src: &Vec<Vec<usize>>) -> (r: Vec<Vec<usize>>)
    ensures
        r.len() == src.len(),
        forall|x: int| 0 <= x < r.len() ==> (#[trigger] r@[x])@ == src@[x]@,
{
    let mut r: Vec<Vec<usize>> = Vec::new();
    let mut x: usize = 0;
    while x < src.len()
        invariant
            x <= src.len(),
            r.len() == x,
            forall|y: int| 0 <= y < x ==> (#[trigger] r@[y])@ == src@[y]@,
        decreases src.len() - x,
    {
        let mut layer: Vec<usize> = Vec::new();
        let mut i: usize = 0;
        while i < src[x].len()
            invariant
                x < src.len(),
                i <= src@[x as int]@.len(),
                layer@ == src@[x as int]@.subrange(0, i as int),
            decreases src@[x as int]@.len() - i,
        {
            layer.push(src[x][i]);
            proof {
                assert(layer@ =~= src@[x as int]@.subrange(0, i + 1));
            }
            i = i + 1;
        }
        proof {
            assert(layer@ =~= src@[x as int]@);
        }
        r.push(layer);
        x = x + 1;
    }
    r
}

proof fn lemma_same_members_placed(old: Seq<Vec<usize>>, new: Seq<Vec<usize>>, bound: int)
    requires
        new.len() == old.len(),
        placed_once(old),
        layers_below(old, bound),
        forall|r: int| 0 <= r < old.len() ==> #[trigger] same_members(old[r]@, new[r]@),
    ensures
        placed_once(new),
        layers_below(new, bound),
        forall|w: int| is_placed(new, w) <==> is_placed(old, w),
{
    assert forall|r1: int, i1: int, r2: int, i2: int|
        0 <= r1 < new.len() && 0 <= i1 < new[r1]@.len() && 0 <= r2 < new.len() && 0 <= i2 < new[r2]@.len()
            && #[trigger] new[r1]@[i1] == #[trigger] new[r2]@[i2] implies r1 == r2 && i1 == i2 by {
        assert(same_members(old[r1]@, new[r1]@));
        assert(same_members(old[r2]@, new[r2]@));
        assert(new[r1]@.contains(new[r1]@[i1]));
        assert(new[r2]@.contains(new[r2]@[i2]));
        let a = choose|a: int| 0 <= a < old[r1]@.len() && old[r1]@[a] == new[r1]@[i1];
        let b = choose|b: int| 0 <= b < old[r2]@.len() && old[r2]@[b] == new[r2]@[i2];
        assert(old[r1]@[a] == old[r2]@[b]);
        if i1 < i2 {
            assert(new[r1]@[i1] != new[r1]@[i2]);
        } else if i2 < i1 {
            assert(new[r1]@[i2] != new[r1]@[i1]);
        }
    }
    assert forall|r: int, i: int| 0 <= r < new.len() && 0 <= i < new[r]@.len() implies #[trigger] new[r]@[i] < bound by {
        assert(same_members(old[r]@, new[r]@));
        assert(new[r]@.contains(new[r]@[i]));
        let a = choose|a: int| 0 <= a < old[r]@.len() && old[r]@[a] == new[r]@[i];
    }
    assert forall|w: int| is_placed(new, w) <==> is_placed(old, w) by {
        if is_placed(new, w) {
            let (r, i) = choose|r: int, i: int| #[trigger] is_at(new, w, r, i);
            assert(same_members(old[r]@, new[r]@));
            assert(new[r]@.contains(new[r]@[i]));
            let a = choose|a: int| 0 <= a < old[r]@.len() && old[r]@[a] == new[r]@[i];
            assert(is_at(old, w, r, a));
        }
        if is_placed(old, w) {
            let (r, i) = choose|r: int, i: int| #[trigger] is_at(old, w, r, i);
            assert(same_members(old[r]@, new[r]@));
            assert(old[r]@.contains(old[r]@[i]));
            assert(new[r]@.contains(old[r]@[i]));
            let a = choose|a: int| 0 <= a < new[r]@.len() && new[r]@[a] == old[r]@[i];
            assert(is_at(new, w, r, a));
        }
    }
}

proof fn lemma_seg_lists(segs: Seq<(usize, usize)>, v: int)
    ensures
        forall|i: int| #![trigger seg_targets(segs, v)[i]] 0 <= i < seg_targets(segs, v).len() ==> exists|k: int| 0 <= k < segs.len() && (#[trigger] segs[k]).1 == seg_targets(segs, v)[i],
        forall|i: int| #![trigger seg_sources(segs, v)[i]] 0 <= i < seg_sources(segs, v).len() ==> exists|k: int| 0 <= k < segs.len() && (#[trigger] segs[k]).0 == seg_sources(segs, v)[i],
    decreases segs.len(),
{
    if segs.len() > 0 {
        let d = segs.drop_last();
        lemma_seg_lists(d, v);
        assert forall|i: int| #![trigger seg_targets(segs, v)[i]] 0 <= i < seg_targets(segs, v).len() implies exists|k: int| 0 <= k < segs.len() && (#[trigger] segs[k]).1 == seg_targets(segs, v)[i] by {
            if i < seg_targets(d, v).len() {
                let k = choose|k: int| 0 <= k < d.len() && (#[trigger] d[k]).1 == seg_targets(d, v)[i];
                assert(segs[k] == d[k]);
            } else {
                assert(segs[segs.len() - 1].1 == seg_targets(segs, v)[i]);
            }
        }
        assert forall|i: int| #![trigger seg_sources(segs, v)[i]] 0 <= i < seg_sources(segs, v).len() implies exists|k: int| 0 <= k < segs.len() && (#[trigger] segs[k]).0 == seg_sources(segs, v)[i] by {
            if i < seg_sources(d, v).len() {
                let k = choose|k: int| 0 <= k < d.len() && (#[trigger] d[k]).0 == seg_sources(d, v)[i];
                assert(segs[k] == d[k]);
            } else {
                assert(segs[segs.len() - 1].0 == seg_sources(segs, v)[i]);
            }
        }
    }
}

/// A whole sweep keeps each layer's members.
proof fn lemma_sweep_members(
    base: Seq<Vec<usize>>,
    prev: Seq<Vec<usize>>,
    next: Seq<Vec<usize>>,
    nbrs: Seq<Seq<usize>>,
    descending: bool,
)
    requires
        prev.len() == base.len(),
        next.len() == prev.len(),
        forall|r: int| 0 <= r < base.len() ==> #[trigger] same_members(base[r]@, prev[r]@),
        forall|t: int| 0 <= t < prev.len() ==> #[trigger] step_ok(prev, next, nbrs, descending, t),
    ensures
        forall|r: int| 0 <= r < base.len() ==> #[trigger] same_members(base[r]@, next[r]@),
{
    assert forall|r: int| 0 <= r < base.len() implies #[trigger] same_members(base[r]@, next[r]@) by {
        let t = if descending { r } else { prev.len() - 1 - r };
        assert(visit(prev.len() as int, descending, t) == r);
        assert(same_members(base[r]@, prev[r]@));
        assert(step_ok(prev, next, nbrs, descending, t));
        lemma_step_members(prev, next, nbrs, descending, t);
        assert forall|x: usize| #[trigger] next[r]@.contains(x) <==> base[r]@.contains(x) by {
            assert(next[r]@.contains(x) <==> prev[r]@.contains(x));
            assert(prev[r]@.contains(x) <==> base[r]@.contains(x));
        }
    }
}

/// Phase 4 — crossing reduction. Start from depth-first discovery order,
/// then sweep barycenters down and up, keeping the ordering with the fewest
/// crossings seen (the first of them on a tie). Every layer keeps its
/// members; an ordering with all layers empty comes back as it is.
pub fn reduce_crossings(layers: Vec<Vec<usize>>, segs: &[(usize, usize)]) -> (r: Vec<Vec<usize>>)
    requires
        placed_once(layers@),
        layers_top(layers@) < usize::MAX,
        layers_top(layers@) >= 0 ==> forall|k: int|
            0 <= k < segs@.len() ==> (#[trigger] segs@[k]).0 <= layers_top(layers@) && is_placed(layers@, segs@[k].1 as int),
        segs@.len() * segs@.len() <= usize::MAX,
    ensures
        layers_top(layers@) == -1 ==> r@ == layers@,
        layers_top(layers@) >= 0 ==> r.len() == layers.len() && exists|cands: Seq<Seq<Vec<usize>>>, j: int|
            #[trigger] reduce_run(layers@, segs@, cands, j) && forall|x: int| 0 <= x < r.len() ==> (#[trigger] r@[x])@ == cands[j][x]@,
{
    proof {
        lemma_layers_top(layers@);
    }
    let top = top_node(&layers);
    let t = match top {
        None => {
            return layers;
        },
        Some(t) => t,
    };
    let nv = t + 1;
    let ghost ls = layers@;
    let ghost sg = segs@;
    let ghost upv = Seq::new(nv as nat, |v: int| seg_sources(sg, v));
    let ghost downv = Seq::new(nv as nat, |v: int| seg_targets(sg, v));
    proof {
        assert forall|k: int| 0 <= k < sg.len() implies (#[trigger] sg[k]).0 < nv && sg[k].1 < nv by {
            let (r, i) = choose|r: int, i: int| #[trigger] is_at(ls, sg[k].1 as int, r, i);
        }
    }
    let (up, down) = seg_adjacency(segs, nv);
    proof {
        assert forall|v: int, k: int| 0 <= v < nv && 0 <= k < up@[v]@.len() implies #[trigger] up@[v]@[k] < nv by {
            assert(up@[v]@ == nbr_view(up@)[v]);
            lemma_seg_lists(sg, v);
            let q = choose|q: int| 0 <= q < sg.len() && (#[trigger] sg[q]).0 == seg_sources(sg, v)[k];
        }
        assert forall|v: int, k: int| 0 <= v < nv && 0 <= k < down@[v]@.len() implies (#[trigger] down@[v]@[k]) < nv
            && is_placed(ls, down@[v]@[k] as int) by {
            assert(down@[v]@ == nbr_view(down@)[v]);
            lemma_seg_lists(sg, v);
            let q = choose|q: int| 0 <= q < sg.len() && (#[trigger] sg[q]).1 == seg_targets(sg, v)[k];
        }
        assert(layers_below(ls, nv as int));
    }
    let mut order = dfs_order(&layers, &down);
    proof {
        lemma_same_members_placed(ls, order@, nv as int);
    }
    let mut best = copy_layers(&order);
    let mut best_cross = count_crossings(&order, segs, nv);
    let ghost mut cands: Seq<Seq<Vec<usize>>> = seq![order@];
    let ghost mut j: int = 0;
    let mut it: usize = 0;
    let mut go = true;
    while go
        invariant
            nv == t + 1,
            t as int == layers_top(ls),
            ls == layers@,
            sg == segs@,
            upv == Seq::new(nv as nat, |v: int| seg_sources(sg, v)),
            downv == Seq::new(nv as nat, |v: int| seg_targets(sg, v)),
            nbr_view(up@) == upv,
            nbr_view(down@) == downv,
            up.len() == nv,
            down.len() == nv,
            forall|k: int| 0 <= k < sg.len() ==> (#[trigger] sg[k]).0 < nv && sg[k].1 < nv,
            forall|v: int, k: int| 0 <= v < nv && 0 <= k < up@[v]@.len() ==> #[trigger] up@[v]@[k] < nv,
            forall|v: int, k: int| 0 <= v < nv && 0 <= k < down@[v]@.len() ==> #[trigger] down@[v]@[k] < nv,
            sg.len() * sg.len() <= usize::MAX,
            placed_once(ls),
            layers_below(ls, nv as int),
            order.len() == ls.len(),
            forall|r: int| 0 <= r < ls.len() ==> #[trigger] same_members(ls[r]@, order@[r]@),
            placed_once(order@),
            layers_below(order@, nv as int),
            it <= SWEEPS,
            cands.len() == 1 + 2 * it,
            go ==> it < SWEEPS,
            it == 0 ==> go,
            cands[0].len() == ls.len(),
            forall|k: int| 0 <= k < cands.len() ==> (#[trigger] cands[k]).len() == ls.len(),
            forall|r: int| 0 <= r < ls.len() ==> #[trigger] same_members(ls[r]@, cands[0][r]@),
            nbr_view(cands[0]) == dfs_layers(nbr_view(ls), downv, layer_ranks(ls, nv as int)),
            forall|k: int| 0 <= k < cands.len() - 1 ==> #[trigger] sweep_of(cands[k], cands[k + 1], upv, downv, k),
            cands[cands.len() - 1] == order@,
            0 <= j < cands.len(),
            best.len() == cands[j].len(),
            forall|x: int| 0 <= x < best.len() ==> (#[trigger] best@[x])@ == cands[j][x]@,
            best_cross == crossing_total(cands[j], sg),
            forall|k: int| 0 <= k < cands.len() ==> best_cross <= crossing_total(#[trigger] cands[k], sg),
            forall|k: int| 0 <= k < j ==> best_cross < crossing_total(#[trigger] cands[k], sg),
            !go ==> it == SWEEPS || best_cross == 0,
            it >= 1 && go ==> best_cross > 0,
            it >= 2 ==> forall|k: int| 0 <= k < cands.len() - 2 ==> crossing_total(#[trigger] cands[k], sg) > 0,
        decreases SWEEPS - it,
    {
        let ghost c_before = cands;
        let ghost bc_before = best_cross;
        let ghost o0 = order@;
        barycenter_sweep(order.as_mut_slice(), &up, true);
        proof {
            lemma_sweep_members(ls, o0, order@, upv, true);
            lemma_same_members_placed(ls, order@, nv as int);
            cands = cands.push(order@);
            assert(sweep_of(cands[cands.len() - 2], cands[cands.len() - 1], upv, downv, cands.len() - 2));
        }
        let c = count_crossings(&order, segs, nv);
        if c < best_cross {
            best_cross = c;
            best = copy_layers(&order);
            proof {
                j = cands.len() - 1;
            }
        }
        let ghost o1 = order@;
        barycenter_sweep(order.as_mut_slice(), &down, false);
        proof {
            lemma_sweep_members(ls, o1, order@, downv, false);
            lemma_same_members_placed(ls, order@, nv as int);
            cands = cands.push(order@);
            assert(sweep_of(cands[cands.len() - 2], cands[cands.len() - 1], upv, downv, cands.len() - 2));
        }
        let c = count_crossings(&order, segs, nv);
        if c < best_cross {
            best_cross = c;
            best = copy_layers(&order);
            proof {
                j = cands.len() - 1;
            }
        }
        proof {
            assert forall|k: int| 0 <= k < cands.len() - 1 implies #[trigger] sweep_of(cands[k], cands[k + 1], upv, downv, k) by {
                if k < c_before.len() - 1 {
                    assert(cands[k] == c_before[k] && cands[k + 1] == c_before[k + 1]);
                }
            }
            assert forall|k: int| 0 <= k < cands.len() implies (#[trigger] cands[k]).len() == ls.len() by {
                if k < c_before.len() {
                    assert(cands[k] == c_before[k]);
                }
            }
            assert forall|k: int| 0 <= k < cands.len() implies best_cross <= crossing_total(#[trigger] cands[k], sg) by {
                if k < c_before.len() {
                    assert(cands[k] == c_before[k]);
                }
            }
            assert forall|k: int| 0 <= k < j implies best_cross < crossing_total(#[trigger] cands[k], sg) by {
                if k < c_before.len() {
                    assert(cands[k] == c_before[k]);
                }
            }
            if it >= 1 {
                assert forall|k: int| 0 <= k < cands.len() - 2 implies crossing_total(#[trigger] cands[k], sg) > 0 by {
                    assert(cands[k] == c_before[k]);
                    assert(bc_before <= crossing_total(c_before[k], sg));
                }
            }
        }
        it = it + 1;
        go = it < SWEEPS && best_cross != 0;
    }
    proof {
        assert(reduce_run(ls, sg, cands, j));
        assert(best.len() == ls.len());
        assert(forall|x: int| 0 <= x < best.len() ==> (#[trigger] best@[x])@ == cands[j][x]@);
    }
    best
}

/// Law: a barycenter sweep only reorders within layers — every layer of a
/// sweep's result holds exactly the members of the layer it came from, each
/// once, provided no layer listed a node twice.
pub proof fn sweep_keeps_layer_members(prev: Seq<Vec<usize>>, next: Seq<Vec<usize>>, nbrs: Seq<Seq<usize>>, descending: bool)
    requires
        next.len() == prev.len(),
        forall|r: int, a: int, b: int| 0 <= r < prev.len() && 0 <= a < b < prev[r]@.len() ==> #[trigger] prev[r]@[a] != #[trigger] prev[r]@[b],
        forall|t: int| 0 <= t < prev.len() ==> #[trigger] step_ok(prev, next, nbrs, descending, t),
    ensures
        forall|r: int| 0 <= r < prev.len() ==> #[trigger] same_members(prev[r]@, next[r]@),
{
    assert forall|r: int| 0 <= r < prev.len() implies #[trigger] same_members(prev[r]@, prev[r]@) by {}
    lemma_sweep_members(prev, prev, next, nbrs, descending);
}

proof fn lemma_cands_members(layers: Seq<Vec<usize>>, segs: Seq<(usize, usize)>, cands: Seq<Seq<Vec<usize>>>, j: int, k: int)
    requires
        reduce_run(layers, segs, cands, j),
        0 <= k < cands.len(),
    ensures
        cands[k].len() == layers.len(),
        forall|r: int| 0 <= r < layers.len() ==> #[trigger] same_members(layers[r]@, cands[k][r]@),
    decreases k,
{
    if k > 0 {
        lemma_cands_members(layers, segs, cands, j, k - 1);
        let nv = layers_top(layers) + 1;
        let up = Seq::new(nv as nat, |v: int| seg_sources(segs, v));
        let down = Seq::new(nv as nat, |v: int| seg_targets(segs, v));
        let kk = k - 1;
        assert(sweep_of(cands[kk], cands[kk + 1], up, down, kk));
        if kk % 2 == 0 {
            lemma_sweep_members(layers, cands[kk], cands[kk + 1], up, true);
        } else {
            lemma_sweep_members(layers, cands[kk], cands[kk + 1], down, false);
        }
    }
}

/// Law: the crossing reduction only reorders within layers, and what it
/// keeps never has more crossings than the depth-first seed it started from.
pub proof fn reduction_keeps_layers_and_never_worsens(
    layers: Seq<Vec<usize>>,
    segs: Seq<(usize, usize)>,
    cands: Seq<Seq<Vec<usize>>>,
    j: int,
)
    requires
        reduce_run(layers, segs, cands, j),
    ensures
        cands[j].len() == layers.len(),
        forall|r: int| 0 <= r < layers.len() ==> #[trigger] same_members(layers[r]@, cands[j][r]@),
        crossing_total(cands[j], segs) <= crossing_total(cands[0], segs),
{
    lemma_cands_members(layers, segs, cands, j, j);
}

/// Layers that each keep the members of a layering with no node listed
/// twice list no node twice either.
proof fn lemma_placed_once_kept(layers: Seq<Vec<usize>>, c: Seq<Vec<usize>>)
    requires
        placed_once(layers),
        c.len() == layers.len(),
        forall|r: int| 0 <= r < layers.len() ==> #[trigger] same_members(layers[r]@, c[r]@),
    ensures
        placed_once(c),
{
    assert forall|r1: int, i1: int, r2: int, i2: int|
        0 <= r1 < c.len() && 0 <= i1 < c[r1]@.len() && 0 <= r2 < c.len() && 0 <= i2 < c[r2]@.len()
            && #[trigger] c[r1]@[i1] == #[trigger] c[r2]@[i2] implies r1 == r2 && i1 == i2 by {
        let x = c[r1]@[i1];
        assert(same_members(layers[r1]@, c[r1]@));
        assert(same_members(layers[r2]@, c[r2]@));
        assert(c[r1]@.contains(x));
        assert(c[r2]@.contains(x));
        assert(layers[r1]@.contains(x));
        assert(layers[r2]@.contains(x));
        let p1 = choose|p: int| 0 <= p < layers[r1]@.len() && layers[r1]@[p] == x;
        let p2 = choose|p: int| 0 <= p < layers[r2]@.len() && layers[r2]@[p] == x;
        assert(layers[r1]@[p1] == layers[r2]@[p2]);
        if i1 < i2 {
            assert(c[r1]@[i1] != c[r1]@[i2]);
        } else if i2 < i1 {
            assert(c[r1]@[i2] != c[r1]@[i1]);
        }
    }
}

/// Two runs of the reduction from one layering score the same orderings,
/// candidate by candidate.
proof fn lemma_cands_agree(
    layers: Seq<Vec<usize>>,
    segs: Seq<(usize, usize)>,
    c1: Seq<Seq<Vec<usize>>>,
    j1: int,
    c2: Seq<Seq<Vec<usize>>>,
    j2: int,
    k: int,
)
    requires
        placed_once(layers),
        reduce_run(layers, segs, c1, j1),
        reduce_run(layers, segs, c2, j2),
        0 <= k < c1.len(),
        k < c2.len(),
    ensures
        same_views(c1[k], c2[k]),
        crossing_total(c1[k], segs) == crossing_total(c2[k], segs),
    decreases k,
{
    let nv = layers_top(layers) + 1;
    let up = Seq::new(nv as nat, |v: int| seg_sources(segs, v));
    let down = Seq::new(nv as nat, |v: int| seg_targets(segs, v));
    if k == 0 {
        assert forall|r: int| 0 <= r < c1[0].len() implies (#[trigger] c1[0][r])@ == c2[0][r]@ by {
            assert(nbr_view(c1[0])[r] == nbr_view(c2[0])[r]);
        }
    } else {
        lemma_cands_agree(layers, segs, c1, j1, c2, j2, k - 1);
        let kk = k - 1;
        assert(sweep_of(c1[kk], c1[kk + 1], up, down, kk));
        assert(sweep_of(c2[kk], c2[kk + 1], up, down, kk));
        if kk % 2 == 0 {
            lemma_sweep_same(c1[kk], c2[kk], c1[k], c2[k], up, true);
        } else {
            lemma_sweep_same(c1[kk], c2[kk], c1[k], c2[k], down, false);
        }
    }
    lemma_cands_members(layers, segs, c1, j1, k);
    lemma_cands_members(layers, segs, c2, j2, k);
    lemma_placed_once_kept(layers, c1[k]);
    lemma_placed_once_kept(layers, c2[k]);
    lemma_crossings_same(c1[k], c2[k], segs, segs.len() as int);
}

proof fn lemma_run_not_shorter(
    layers: Seq<Vec<usize>>,
    segs: Seq<(usize, usize)>,
    c1: Seq<Seq<Vec<usize>>>,
    j1: int,
    c2: Seq<Seq<Vec<usize>>>,
    j2: int,
)
    requires
        placed_once(layers),
        reduce_run(layers, segs, c1, j1),
        reduce_run(layers, segs, c2, j2),
    ensures
        c1.len() >= c2.len(),
{
    if c1.len() < c2.len() {
        lemma_cands_agree(layers, segs, c1, j1, c2, j2, j1);
        assert(crossing_total(c2[j1], segs) > 0);
    }
}

/// Law: the crossing reduction has one outcome — two runs from the same
/// layering (no node listed twice) and segments score the same number of
/// candidates, keep the same one, and it holds the same layers.
pub proof fn reduction_outcome_unique(
    layers: Seq<Vec<usize>>,
    segs: Seq<(usize, usize)>,
    c1: Seq<Seq<Vec<usize>>>,
    j1: int,
    c2: Seq<Seq<Vec<usize>>>,
    j2: int,
)
    requires
        placed_once(layers),
        reduce_run(layers, segs, c1, j1),
        reduce_run(layers, segs, c2, j2),
    ensures
        c1.len() == c2.len(),
        j1 == j2,
        same_views(c1[j1], c2[j2]),
{
    lemma_run_not_shorter(layers, segs, c1, j1, c2, j2);
    lemma_run_not_shorter(layers, segs, c2, j2, c1, j1);
    lemma_cands_agree(layers, segs, c1, j1, c2, j2, j1);
    lemma_cands_agree(layers, segs, c1, j1, c2, j2, j2);
    assert(crossing_total(c1[j1], segs) <= crossing_total(c1[j2], segs));
    assert(crossing_total(c2[j2], segs) <= crossing_total(c2[j1], segs));
    if j1 < j2 {
        assert(crossing_total(c2[j2], segs) < crossing_total(c2[j1], segs));
    }
    if j2 < j1 {
        assert(crossing_total(c1[j1], segs) < crossing_total(c1[j2], segs));
    }
}

pub(crate) proof fn lemma_layers_top_same(l1: Seq<Vec<usize>>, l2: Seq<Vec<usize>>)
    requires
        same_views(l1, l2),
    ensures
        layers_top(l1) == layers_top(l2),
    decreases l1.len(),
{
    if l1.len() > 0 {
        let d1 = l1.drop_last();
        let d2 = l2.drop_last();
        assert forall|r: int| 0 <= r < d1.len() implies (#[trigger] d1[r])@ == d2[r]@ by {
            assert(l1[r]@ == l2[r]@);
        }
        lemma_layers_top_same(d1, d2);
        assert(l1.last()@ == l2.last()@);
    }
}

/// A run of the reduction from one layering is a run from any layering with
/// the same views.
pub(crate) proof fn lemma_reduce_run_views(
    s1: Seq<Vec<usize>>,
    s2: Seq<Vec<usize>>,
    segs: Seq<(usize, usize)>,
    cands: Seq<Seq<Vec<usize>>>,
    j: int,
)
    requires
        same_views(s1, s2),
        placed_once(s1),
        placed_once(s2),
        reduce_run(s1, segs, cands, j),
    ensures
        reduce_run(s2, segs, cands, j),
        layers_top(s1) == layers_top(s2),
{
    lemma_layers_top_same(s1, s2);
    let nv = layers_top(s1) + 1;
    assert(nbr_view(s1) =~= nbr_view(s2)) by {
        assert forall|r: int| 0 <= r < s1.len() implies nbr_view(s1)[r] == nbr_view(s2)[r] by {
            assert(s1[r]@ == s2[r]@);
        }
    }
    assert(layer_ranks(s1, nv) =~= layer_ranks(s2, nv)) by {
        assert forall|v: int| 0 <= v < nv implies layer_ranks(s1, nv)[v] == layer_ranks(s2, nv)[v] by {
            lemma_slot_same(s1, s2, v);
        }
    }
    assert forall|r: int| 0 <= r < s2.len() implies #[trigger] same_members(s2[r]@, cands[0][r]@) by {
        assert(s1[r]@ == s2[r]@);
        assert(same_members(s1[r]@, cands[0][r]@));
    }
}

} // verus!
