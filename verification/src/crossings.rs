use vstd::prelude::*;

verus! {

/// Node `v` sits at position `i` of layer `r`.
pub open spec fn is_at(layers: Seq<Vec<usize>>, v: int, r: int, i: int) -> bool {
    0 <= r < layers.len() && 0 <= i < layers[r]@.len() && layers[r]@[i] == v
}

/// No node appears twice across the layers.
pub open spec fn placed_once(layers: Seq<Vec<usize>>) -> bool {
    forall|r1: int, i1: int, r2: int, i2: int|
        0 <= r1 < layers.len() && 0 <= i1 < layers[r1]@.len() && 0 <= r2 < layers.len() && 0 <= i2
            < layers[r2]@.len() && #[trigger] layers[r1]@[i1] == #[trigger] layers[r2]@[i2] ==> r1 == r2 && i1 == i2
}

/// Every node in the layers is below `bound`.
pub open spec fn layers_below(layers: Seq<Vec<usize>>, bound: int) -> bool {
    forall|r: int, i: int| 0 <= r < layers.len() && 0 <= i < layers[r]@.len() ==> #[trigger] layers[r]@[i] < bound
}

/// A node's layer and position in it; `usize::MAX` for both when it is in no
/// layer.
pub open spec fn slot_of(layers: Seq<Vec<usize>>, v: int) -> (int, int) {
    if exists|r: int, i: int| #[trigger] is_at(layers, v, r, i) {
        choose|r: int, i: int| #[trigger] is_at(layers, v, r, i)
    } else {
        (usize::MAX as int, usize::MAX as int)
    }
}

/// Two segments leave the same layer and cross on their way to the next:
/// their upper ends are in one order and their lower ends in the other.
pub open spec fn crosses(layers: Seq<Vec<usize>>, s: (usize, usize), t: (usize, usize)) -> bool {
    let (gs, ps) = slot_of(layers, s.0 as int);
    let (gt, pt) = slot_of(layers, t.0 as int);
    let qs = slot_of(layers, s.1 as int).1;
    let qt = slot_of(layers, t.1 as int).1;
    &&& gs == gt
    &&& gs < layers.len()
    &&& (ps < pt && qs > qt) || (pt < ps && qt > qs)
}

/// How many of the first `i` segments cross segment `j`.
pub open spec fn crossings_with(layers: Seq<Vec<usize>>, segs: Seq<(usize, usize)>, j: int, i: int) -> nat
    decreases i,
{
    if i <= 0 {
        0
    } else {
        crossings_with(layers, segs, j, i - 1) + (if crosses(layers, segs[i - 1], segs[j]) {
            1nat
        } else {
            0nat
        })
    }
}

/// How many pairs among the first `k` segments cross.
pub open spec fn crossings_upto(layers: Seq<Vec<usize>>, segs: Seq<(usize, usize)>, k: int) -> nat
    decreases k,
{
    if k <= 0 {
        0
    } else {
        crossings_upto(layers, segs, k - 1) + crossings_with(layers, segs, k - 1, k - 1)
    }
}

proof fn lemma_crossings_with_bound(layers: Seq<Vec<usize>>, segs: Seq<(usize, usize)>, j: int, i: int)
    requires
        0 <= i,
    ensures
        crossings_with(layers, segs, j, i) <= i,
    decreases i,
{
    if i > 0 {
        lemma_crossings_with_bound(layers, segs, j, i - 1);
    }
}

proof fn lemma_crossings_upto_bound(layers: Seq<Vec<usize>>, segs: Seq<(usize, usize)>, k: int)
    requires
        0 <= k,
    ensures
        crossings_upto(layers, segs, k) <= k * k,
    decreases k,
{
    if k > 0 {
        lemma_crossings_upto_bound(layers, segs, k - 1);
        lemma_crossings_with_bound(layers, segs, k - 1, k - 1);
        assert((k - 1) * (k - 1) + (k - 1) <= k * k) by (nonlinear_arith)
            requires
                k >= 1,
        ;
    }
}

/// `rank_of` and `pos` give each node's slot.
pub open spec fn slots_ok(layers: Seq<Vec<usize>>, rank_of: Seq<usize>, pos: Seq<usize>) -> bool {
    &&& pos.len() == rank_of.len()
    &&& forall|v: int|
        #![trigger rank_of[v]]
        #![trigger pos[v]]
        0 <= v < rank_of.len() ==> rank_of[v] as int == slot_of(layers, v).0 && pos[v] as int == slot_of(layers, v).1
}

pub(crate) proof fn lemma_slot(layers: Seq<Vec<usize>>, rank_of: Seq<usize>, pos: Seq<usize>, v: int)
    requires
        slots_ok(layers, rank_of, pos),
        0 <= v < rank_of.len(),
    ensures
        rank_of[v] as int == slot_of(layers, v).0,
        pos[v] as int == slot_of(layers, v).1,
{
}

/// Each node's layer and position, `usize::MAX` for a node in no layer.
pub(crate) fn slots(layers: &[Vec<usize>], n_virtual: usize) -> (r: (Vec<usize>, Vec<usize>))
    requires
        placed_once(layers@),
        layers_below(layers@, n_virtual as int),
    ensures
        r.0.len() == n_virtual,
        r.1.len() == n_virtual,
        slots_ok(layers@, r.0@, r.1@),
{
    let mut rank_of: Vec<usize> = Vec::new();
    let mut pos: Vec<usize> = Vec::new();
    let mut v: usize = 0;
    while v < n_virtual
        invariant
            v <= n_virtual,
            rank_of.len() == v,
            pos.len() == v,
            forall|w: int| 0 <= w < v ==> #[trigger] rank_of@[w] == usize::MAX && pos@[w] == usize::MAX,
        decreases n_virtual - v,
    {
        rank_of.push(usize::MAX);
        pos.push(usize::MAX);
        v = v + 1;
    }
    let ghost ls = layers@;
    let mut r: usize = 0;
    while r < layers.len()
        invariant
            r <= layers.len(),
            ls == layers@,
            placed_once(ls),
            layers_below(ls, n_virtual as int),
            rank_of.len() == n_virtual,
            pos.len() == n_virtual,
            forall|w: int|
                0 <= w < n_virtual ==> if exists|r2: int, i2: int| r2 < r && #[trigger] is_at(ls, w, r2, i2) {
                    is_at(ls, w, rank_of@[w] as int, pos@[w] as int) && rank_of@[w] < r
                } else {
                    #[trigger] rank_of@[w] == usize::MAX && pos@[w] == usize::MAX
                },
        decreases layers.len() - r,
    {
        let mut i: usize = 0;
        while i < layers[r].len()
            invariant
                r < layers.len(),
                i <= layers@[r as int]@.len(),
                ls == layers@,
                placed_once(ls),
                layers_below(ls, n_virtual as int),
                rank_of.len() == n_virtual,
                pos.len() == n_virtual,
                forall|w: int|
                    0 <= w < n_virtual ==> if exists|r2: int, i2: int|
                        (r2 < r || (r2 == r && i2 < i)) && #[trigger] is_at(ls, w, r2, i2) {
                        is_at(ls, w, rank_of@[w] as int, pos@[w] as int) && rank_of@[w] <= r
                    } else {
                        #[trigger] rank_of@[w] == usize::MAX && pos@[w] == usize::MAX
                    },
            decreases layers@[r as int]@.len() - i,
        {
            let v = layers[r][i];
            proof {
                assert(is_at(ls, v as int, r as int, i as int));
            }
            rank_of.set(v, r);
            pos.set(v, i);
            proof {
                assert forall|w: int| 0 <= w < n_virtual implies if exists|r2: int, i2: int|
                    (r2 < r || (r2 == r && i2 < i + 1)) && #[trigger] is_at(ls, w, r2, i2) {
                    is_at(ls, w, rank_of@[w] as int, pos@[w] as int) && rank_of@[w] <= r
                } else {
                    #[trigger] rank_of@[w] == usize::MAX && pos@[w] == usize::MAX
                } by {
                    if w != v {
                        if exists|r2: int, i2: int| (r2 < r || (r2 == r && i2 < i + 1)) && #[trigger] is_at(ls, w, r2, i2) {
                            let (r2, i2) = choose|r2: int, i2: int| (r2 < r || (r2 == r && i2 < i + 1)) && #[trigger] is_at(ls, w, r2, i2);
                            assert(r2 < r || (r2 == r && i2 < i));
                        }
                    }
                }
            }
            i = i + 1;
        }
        proof {
            assert forall|w: int| 0 <= w < n_virtual implies if exists|r2: int, i2: int| r2 < r + 1 && #[trigger] is_at(ls, w, r2, i2) {
                is_at(ls, w, rank_of@[w] as int, pos@[w] as int) && rank_of@[w] < r + 1
            } else {
                #[trigger] rank_of@[w] == usize::MAX && pos@[w] == usize::MAX
            } by {
                if exists|r2: int, i2: int| r2 < r + 1 && #[trigger] is_at(ls, w, r2, i2) {
                    let (r2, i2) = choose|r2: int, i2: int| r2 < r + 1 && #[trigger] is_at(ls, w, r2, i2);
                    assert(r2 < r || (r2 == r && i2 < layers@[r as int]@.len()));
                }
            }
        }
        r = r + 1;
    }
    proof {
        assert forall|w: int| #![trigger rank_of@[w]] 0 <= w < n_virtual implies rank_of@[w] as int == slot_of(ls, w).0 && pos@[w] as int == slot_of(ls, w).1 by {
            if exists|r2: int, i2: int| #[trigger] is_at(ls, w, r2, i2) {
                let (r2, i2) = choose|r2: int, i2: int| #[trigger] is_at(ls, w, r2, i2);
                assert(r2 < r);
                assert(is_at(ls, w, rank_of@[w] as int, pos@[w] as int));
                assert(ls[r2]@[i2] == ls[rank_of@[w] as int]@[pos@[w] as int]);
            } else {
                assert(!(exists|r2: int, i2: int| r2 < r && #[trigger] is_at(ls, w, r2, i2)));
            }
        }
        assert(slots_ok(layers@, rank_of@, pos@));
    }
    (rank_of, pos)
}

/// Total edge crossings across every pair of adjacent layers: the pairs of
/// segments that leave one layer and cross before the next.
pub fn count_crossings(layers: &[Vec<usize>], segs: &[(usize, usize)], n_virtual: usize) -> (r: usize)
    requires
        placed_once(layers@),
        layers_below(layers@, n_virtual as int),
        forall|k: int| 0 <= k < segs@.len() ==> (#[trigger] segs@[k]).0 < n_virtual && segs@[k].1 < n_virtual,
        segs@.len() * segs@.len() <= usize::MAX,
    ensures
        r == crossings_upto(layers@, segs@, segs@.len() as int),
{
    let (rank_of, pos) = slots(layers, n_virtual);
    let ghost ls = layers@;
    let ghost sg = segs@;
    let nl = layers.len();
    let ns = segs.len();
    let mut total: usize = 0;
    let mut j: usize = 0;
    while j < ns
        invariant
            j <= ns,
            ns == sg.len(),
            nl == ls.len(),
            sg == segs@,
            ls == layers@,
            ns * ns <= usize::MAX,
            rank_of.len() == n_virtual,
            pos.len() == n_virtual,
            forall|k: int| 0 <= k < sg.len() ==> (#[trigger] sg[k]).0 < n_virtual && sg[k].1 < n_virtual,
            slots_ok(ls, rank_of@, pos@),
            total == crossings_upto(ls, sg, j as int),
        decreases ns - j,
    {
        let (a2, b2) = segs[j];
        let g2 = rank_of[a2];
        let mut i: usize = 0;
        proof {
            lemma_crossings_upto_bound(ls, sg, j as int);
            lemma_crossings_with_bound(ls, sg, j as int, j as int);
            assert(j * j + j <= ns * ns) by (nonlinear_arith)
                requires
                    j < ns,
            ;
        }
        while i < j
            invariant
                i <= j < ns,
                ns == sg.len(),
                nl == ls.len(),
                sg == segs@,
                ls == layers@,
                ns * ns <= usize::MAX,
                (a2, b2) == sg[j as int],
                g2 == rank_of@[a2 as int],
                rank_of.len() == n_virtual,
                pos.len() == n_virtual,
                forall|k: int| 0 <= k < sg.len() ==> (#[trigger] sg[k]).0 < n_virtual && sg[k].1 < n_virtual,
                slots_ok(ls, rank_of@, pos@),
                crossings_upto(ls, sg, j as int) <= j * j,
                j * j + j <= ns * ns,
                total == crossings_upto(ls, sg, j as int) + crossings_with(ls, sg, j as int, i as int),
            decreases j - i,
        {
            let (a1, b1) = segs[i];
            proof {
                lemma_crossings_with_bound(ls, sg, j as int, i as int);
                assert((a1, b1) == sg[i as int]);
                lemma_slot(ls, rank_of@, pos@, a1 as int);
                lemma_slot(ls, rank_of@, pos@, a2 as int);
                lemma_slot(ls, rank_of@, pos@, b1 as int);
                lemma_slot(ls, rank_of@, pos@, b2 as int);
            }
            if rank_of[a1] == g2 && g2 < nl {
                let (p1, q1, p2, q2) = (pos[a1], pos[b1], pos[a2], pos[b2]);
                if (p1 < p2 && q1 > q2) || (p2 < p1 && q2 > q1) {
                    total = total + 1;
                }
            }
            i = i + 1;
        }
        j = j + 1;
    }
    total
}


/// Layers with the same lengths and views, layer by layer.
pub open spec fn same_views(l1: Seq<Vec<usize>>, l2: Seq<Vec<usize>>) -> bool {
    &&& l1.len() == l2.len()
    &&& forall|r: int| 0 <= r < l1.len() ==> (#[trigger] l1[r])@ == l2[r]@
}

/// With no node listed twice, a node's slot depends only on the layers'
/// views.
pub(crate) proof fn lemma_slot_same(l1: Seq<Vec<usize>>, l2: Seq<Vec<usize>>, v: int)
    requires
        same_views(l1, l2),
        placed_once(l1),
        placed_once(l2),
    ensures
        slot_of(l1, v) == slot_of(l2, v),
{
    assert forall|r: int, i: int| #[trigger] is_at(l1, v, r, i) == is_at(l2, v, r, i) by {
        if 0 <= r < l1.len() {
            assert(l1[r]@ == l2[r]@);
        }
    }
    if exists|r: int, i: int| #[trigger] is_at(l1, v, r, i) {
        let (r1, i1) = slot_of(l1, v);
        let (r2, i2) = slot_of(l2, v);
        assert(is_at(l1, v, r1, i1));
        assert(is_at(l2, v, r1, i1));
        assert(is_at(l2, v, r2, i2));
        assert(l2[r1]@[i1] == l2[r2]@[i2]);
    } else {
        assert(!exists|r: int, i: int| #[trigger] is_at(l2, v, r, i)) by {
            if exists|r: int, i: int| #[trigger] is_at(l2, v, r, i) {
                let (r, i) = choose|r: int, i: int| #[trigger] is_at(l2, v, r, i);
                assert(is_at(l1, v, r, i));
            }
        }
    }
}

/// Crossing counts depend only on the layers' views.
pub proof fn lemma_crossings_same(l1: Seq<Vec<usize>>, l2: Seq<Vec<usize>>, segs: Seq<(usize, usize)>, k: int)
    requires
        same_views(l1, l2),
        placed_once(l1),
        placed_once(l2),
    ensures
        crossings_upto(l1, segs, k) == crossings_upto(l2, segs, k),
    decreases k,
{
    assert forall|s: (usize, usize), t: (usize, usize)| #[trigger] crosses(l1, s, t) == crosses(l2, s, t) by {
        lemma_slot_same(l1, l2, s.0 as int);
        lemma_slot_same(l1, l2, t.0 as int);
        lemma_slot_same(l1, l2, s.1 as int);
        lemma_slot_same(l1, l2, t.1 as int);
    }
    if k > 0 {
        lemma_crossings_same(l1, l2, segs, k - 1);
        lemma_with_same(l1, l2, segs, k - 1, k - 1);
    }
}

proof fn lemma_with_same(l1: Seq<Vec<usize>>, l2: Seq<Vec<usize>>, segs: Seq<(usize, usize)>, j: int, i: int)
    requires
        forall|s: (usize, usize), t: (usize, usize)| #[trigger] crosses(l1, s, t) == crosses(l2, s, t),
    ensures
        crossings_with(l1, segs, j, i) == crossings_with(l2, segs, j, i),
    decreases i,
{
    if i > 0 {
        lemma_with_same(l1, l2, segs, j, i - 1);
        assert(crosses(l1, segs[i - 1], segs[j]) == crosses(l2, segs[i - 1], segs[j]));
    }
}

} // verus!
