use vstd::prelude::*;
use crate::crossings::is_at;
use crate::crossings::placed_once;
use crate::crossings::layers_below;
use crate::crossings::slot_of;
use crate::crossings::slots_ok;
use crate::crossings::slots;
use crate::crossings::lemma_slot;
use crate::crossings::same_views;
use crate::single::single_top;
use crate::single::to_single;
use crate::single::single_frac;
use crate::single::single_ok;
use crate::single::int_single;
use crate::single::single_quot;
use crate::single::single_of_int;
use crate::single::quot_single;
use crate::single::round_int;
use crate::single::single_order;
use crate::single::lemma_frac_den;
use crate::single::lemma_round_small;
use crate::single::lemma_top_values;
use crate::graph::count_false;
use crate::graph::lemma_count_false_set;
use crate::walk::push_children;
use crate::walk::drain;
use crate::walk::walk_roots;
use crate::walk::walk_layers;
use crate::walk::dfs_layers;

verus! {

/// `n1/d1 < n2/d2` for positive denominators.
pub open spec fn frac_lt(k1: (int, int), k2: (int, int)) -> bool {
    k1.0 * k2.1 < k2.0 * k1.1
}

/// `n1/d1 == n2/d2` for positive denominators.
pub open spec fn frac_eq(k1: (int, int), k2: (int, int)) -> bool {
    k1.0 * k2.1 == k2.0 * k1.1
}

/// Item `i1` with key `k1` sorts before item `i2` with key `k2`: by key, then
/// by current position.
pub open spec fn sorts_before(k1: (int, int), i1: int, k2: (int, int), i2: int) -> bool {
    frac_lt(k1, k2) || (frac_eq(k1, k2) && i1 < i2)
}

proof fn lemma_frac_trans(a: (int, int), b: (int, int), c: (int, int))
    requires
        a.1 > 0,
        b.1 > 0,
        c.1 > 0,
    ensures
        frac_lt(a, b) && frac_lt(b, c) ==> frac_lt(a, c),
        frac_lt(a, b) && frac_eq(b, c) ==> frac_lt(a, c),
        frac_eq(a, b) && frac_lt(b, c) ==> frac_lt(a, c),
        frac_eq(a, b) && frac_eq(b, c) ==> frac_eq(a, c),
{
    let (an, ad) = a;
    let (bn, bd) = b;
    let (cn, cd) = c;
    assert(an * bd < bn * ad && bn * cd < cn * bd ==> an * cd < cn * ad) by (nonlinear_arith)
        requires
            ad > 0,
            bd > 0,
            cd > 0,
    ;
    assert(an * bd < bn * ad && bn * cd == cn * bd ==> an * cd < cn * ad) by (nonlinear_arith)
        requires
            ad > 0,
            bd > 0,
            cd > 0,
    ;
    assert(an * bd == bn * ad && bn * cd < cn * bd ==> an * cd < cn * ad) by (nonlinear_arith)
        requires
            ad > 0,
            bd > 0,
            cd > 0,
    ;
    assert(an * bd == bn * ad && bn * cd == cn * bd ==> an * cd == cn * ad) by (nonlinear_arith)
        requires
            ad > 0,
            bd > 0,
            cd > 0,
    ;
}

proof fn lemma_sorts_before_trans(a: (int, int), ia: int, b: (int, int), ib: int, c: (int, int), ic: int)
    requires
        a.1 > 0,
        b.1 > 0,
        c.1 > 0,
        sorts_before(a, ia, b, ib),
        sorts_before(b, ib, c, ic),
    ensures
        sorts_before(a, ia, c, ic),
{
    lemma_frac_trans(a, b, c);
}

/// The positions of the listed nodes summed in single precision, in order:
/// each position and each partial sum rounded to a float (2^128 standing
/// for infinity).
pub open spec fn single_sum(pos: Seq<usize>, ns: Seq<usize>) -> nat
    decreases ns.len(),
{
    if ns.len() == 0 {
        0
    } else {
        to_single(single_sum(pos, ns.drop_last()) + to_single(pos[ns.last() as int] as nat))
    }
}

/// The barycenter of item `i` as a fraction: the single-precision mean
/// position of its neighbours (their float sum over their float count,
/// correctly rounded), or its own position `i` as a float when it has none.
pub open spec fn bary(pos: Seq<usize>, ns: Seq<usize>, i: int) -> (int, int) {
    if ns.len() == 0 {
        single_frac(int_single(i as nat))
    } else {
        single_frac(single_quot(single_sum(pos, ns), to_single(ns.len())))
    }
}

/// The barycenters of a layer's items.
pub open spec fn bary_keys(layer: Seq<usize>, nbrs: Seq<Seq<usize>>, pos: Seq<usize>) -> Seq<(int, int)> {
    Seq::new(layer.len(), |i: int| bary(pos, nbrs[layer[i] as int], i))
}

/// Neighbour lists as sequences.
pub open spec fn nbr_view(nbrs: Seq<Vec<usize>>) -> Seq<Seq<usize>> {
    Seq::new(nbrs.len(), |v: int| nbrs[v]@)
}

/// `new` is `old` rearranged by the distinct indices `ord`.
pub open spec fn is_reorder(old: Seq<usize>, new: Seq<usize>, ord: Seq<usize>) -> bool {
    &&& ord.len() == old.len()
    &&& new.len() == old.len()
    &&& forall|j: int| 0 <= j < ord.len() ==> (#[trigger] ord[j]) < old.len() && new[j] == old[ord[j] as int]
    &&& forall|a: int, b: int| 0 <= a < b < ord.len() ==> #[trigger] ord[a] != #[trigger] ord[b]
}

/// The indices `ord` run in key order, ties by index.
pub open spec fn sorted_by_keys(ord: Seq<usize>, keys: Seq<(int, int)>) -> bool {
    forall|a: int, b: int|
        0 <= a < b < ord.len() ==> sorts_before(
            keys[#[trigger] ord[a] as int],
            ord[a] as int,
            keys[#[trigger] ord[b] as int],
            ord[b] as int,
        )
}

/// `new` is `old` sorted by barycenter against `pos`, ties by current place.
pub open spec fn bary_reordered(old: Seq<usize>, new: Seq<usize>, nbrs: Seq<Seq<usize>>, pos: Seq<usize>) -> bool {
    exists|ord: Seq<usize>| #[trigger] is_reorder(old, new, ord) && sorted_by_keys(ord, bary_keys(old, nbrs, pos))
}

/// Positions after placing `layer`: each node at its index.
pub open spec fn pos_after(pos: Seq<usize>, layer: Seq<usize>) -> Seq<usize>
    decreases layer.len(),
{
    if layer.len() == 0 {
        pos
    } else {
        pos_after(pos, layer.drop_last()).update(layer.last() as int, (layer.len() - 1) as usize)
    }
}

/// The layer a sweep visits at step `t`.
pub open spec fn visit(n_layers: int, descending: bool, t: int) -> int {
    if descending {
        t
    } else {
        n_layers - 1 - t
    }
}

/// The positions a sweep sees before step `t`.
pub open spec fn pos_at(layers: Seq<Vec<usize>>, descending: bool, t: int, pos0: Seq<usize>) -> Seq<usize>
    decreases t,
{
    if t <= 0 {
        pos0
    } else {
        pos_after(pos_at(layers, descending, t - 1, pos0), layers[visit(layers.len() as int, descending, t - 1)]@)
    }
}

/// Step `t` of a sweep: the first layer visited is left alone, every later
/// one is sorted by barycenter against the positions placed so far.
pub open spec fn step_ok(
    old: Seq<Vec<usize>>,
    new: Seq<Vec<usize>>,
    nbrs: Seq<Seq<usize>>,
    descending: bool,
    t: int,
) -> bool {
    let r = visit(old.len() as int, descending, t);
    let pos0 = Seq::new(nbrs.len(), |v: int| 0usize);
    if t == 0 {
        new[r]@ == old[r]@
    } else {
        bary_reordered(old[r]@, new[r]@, nbrs, pos_at(new, descending, t, pos0))
    }
}

proof fn lemma_pos_at_same(l1: Seq<Vec<usize>>, l2: Seq<Vec<usize>>, descending: bool, t: int, pos0: Seq<usize>)
    requires
        l1.len() == l2.len(),
        forall|u: int| 0 <= u < t ==> #[trigger] l1[visit(l1.len() as int, descending, u)]@ == l2[visit(
            l1.len() as int,
            descending,
            u,
        )]@,
    ensures
        pos_at(l1, descending, t, pos0) == pos_at(l2, descending, t, pos0),
    decreases t,
{
    if t > 0 {
        lemma_pos_at_same(l1, l2, descending, t - 1, pos0);
        assert(l1[visit(l1.len() as int, descending, t - 1)]@ == l2[visit(l1.len() as int, descending, t - 1)]@);
    }
}

/// Keys as fractions of integers.
pub open spec fn int_keys(keys: Seq<(u64, i64)>) -> Seq<(int, int)> {
    Seq::new(keys.len(), |i: int| single_frac((keys[i].0 as int, keys[i].1 as int)))
}

/// Every key is a well-formed single-precision value.
pub open spec fn keys_ok(keys: Seq<(u64, i64)>) -> bool {
    forall|i: int| 0 <= i < keys.len() ==> #[trigger] single_ok((keys[i].0 as int, keys[i].1 as int))
}

/// Index `x` sorts before index `y` under `keys`.
pub open spec fn prec(keys: Seq<(int, int)>, x: usize, y: usize) -> bool {
    sorts_before(keys[x as int], x as int, keys[y as int], y as int)
}

fn precedes(keys: &Vec<(u64, i64)>, x: usize, y: usize) -> (r: bool)
    requires
        x < keys.len(),
        y < keys.len(),
        keys_ok(keys@),
    ensures
        r == prec(int_keys(keys@), x, y),
{
    let (kx, ky) = (keys[x], keys[y]);
    assert(single_ok((keys@[x as int].0 as int, keys@[x as int].1 as int)));
    assert(single_ok((keys@[y as int].0 as int, keys@[y as int].1 as int)));
    let (lt, eq) = single_order(kx, ky);
    lt || (eq && x < y)
}

/// The indices of `keys` in key order, ties by index: an insertion sort.
fn order_by_keys(keys: &Vec<(u64, i64)>) -> (ord: Vec<usize>)
    requires
        keys_ok(keys@),
    ensures
        ord.len() == keys.len(),
        forall|j: int| 0 <= j < ord.len() ==> (#[trigger] ord@[j]) < keys.len(),
        forall|a: int, b: int| 0 <= a < b < ord.len() ==> #[trigger] ord@[a] != #[trigger] ord@[b],
        sorted_by_keys(ord@, int_keys(keys@)),
{
    let n = keys.len();
    let ghost ik = int_keys(keys@);
    let mut ord: Vec<usize> = Vec::new();
    let mut i: usize = 0;
    while i < n
        invariant
            i <= n,
            ord.len() == i,
            forall|j: int| 0 <= j < i ==> #[trigger] ord@[j] == j,
        decreases n - i,
    {
        ord.push(i);
        i = i + 1;
    }
    let mut t: usize = 0;
    while t < n
        invariant
            t <= n,
            n == keys.len(),
            ik == int_keys(keys@),
            keys_ok(keys@),
            ord.len() == n,
            forall|j: int| 0 <= j < n ==> (#[trigger] ord@[j]) < n,
            forall|a: int, b: int| 0 <= a < b < n ==> #[trigger] ord@[a] != #[trigger] ord@[b],
            forall|a: int, b: int| 0 <= a < b < t ==> prec(ik, #[trigger] ord@[a], #[trigger] ord@[b]),
        decreases n - t,
    {
        let mut j: usize = t;
        loop
            invariant
                j <= t < n,
                n == keys.len(),
                ik == int_keys(keys@),
                keys_ok(keys@),
                ord.len() == n,
                forall|q: int| 0 <= q < n ==> (#[trigger] ord@[q]) < n,
                forall|a: int, b: int| 0 <= a < b < n ==> #[trigger] ord@[a] != #[trigger] ord@[b],
                forall|a: int, b: int| 0 <= a < b <= t && a != j && b != j ==> prec(ik, #[trigger] ord@[a], #[trigger] ord@[b]),
                forall|b: int| j < b <= t ==> prec(ik, ord@[j as int], #[trigger] ord@[b]),
            ensures
                ord.len() == n,
                forall|q: int| 0 <= q < n ==> (#[trigger] ord@[q]) < n,
                forall|a: int, b: int| 0 <= a < b < n ==> #[trigger] ord@[a] != #[trigger] ord@[b],
                forall|a: int, b: int| 0 <= a < b <= t ==> prec(ik, #[trigger] ord@[a], #[trigger] ord@[b]),
            decreases j,
        {
            if j == 0 {
                break;
            }
            let x = ord[j];
            let y = ord[j - 1];
            if !precedes(keys, x, y) {
                proof {
                    assert(x != y);
                    lemma_frac_den((keys@[x as int].0 as int, keys@[x as int].1 as int));
                    lemma_frac_den((keys@[y as int].0 as int, keys@[y as int].1 as int));
                    assert(ik[x as int].1 > 0 && ik[y as int].1 > 0);
                    assert(prec(ik, y, x));
                    assert forall|a: int, b: int| 0 <= a < b <= t implies prec(ik, #[trigger] ord@[a], #[trigger] ord@[b]) by {
                        if b == j && a < j - 1 {
                            assert(prec(ik, ord@[a], y));
                            lemma_frac_den((keys@[ord@[a] as int].0 as int, keys@[ord@[a] as int].1 as int));
                            lemma_sorts_before_trans(ik[ord@[a] as int], ord@[a] as int, ik[y as int], y as int, ik[x as int], x as int);
                        }
                    }
                }
                break;
            }
            let ghost o0 = ord@;
            ord.set(j, y);
            ord.set(j - 1, x);
            proof {
                assert(ord@ == o0.update(j as int, y).update(j - 1, x));
                assert forall|a: int, b: int| 0 <= a < b < n implies #[trigger] ord@[a] != #[trigger] ord@[b] by {
                    let fa = if a == j { j - 1 } else if a == j - 1 { j as int } else { a };
                    let fb = if b == j { j - 1 } else if b == j - 1 { j as int } else { b };
                    assert(ord@[a] == o0[fa] && ord@[b] == o0[fb]);
                    assert(fa != fb);
                }
                assert forall|a: int, b: int| 0 <= a < b <= t && a != j - 1 && b != j - 1 implies prec(ik, #[trigger] ord@[a], #[trigger] ord@[b]) by {
                    if b == j {
                        assert(ord@[b] == o0[j - 1]);
                        assert(ord@[a] == o0[a]);
                    } else if a == j {
                        assert(ord@[a] == o0[j - 1]);
                        assert(ord@[b] == o0[b]);
                    }
                }
                assert forall|b: int| j - 1 < b <= t implies prec(ik, ord@[j - 1], #[trigger] ord@[b]) by {
                    if b > j {
                        assert(ord@[b] == o0[b]);
                    }
                }
            }
            j = j - 1;
        }
        t = t + 1;
    }
    ord
}

/// The single-precision sum of the positions of `ns`: `(true, _)` once it
/// is infinite, else `(false, v)` with `v` its value.
fn float_sum(ns: &Vec<usize>, pos: &Vec<usize>) -> (r: (bool, u128))
    requires
        forall|q: int| 0 <= q < ns@.len() ==> #[trigger] ns@[q] < pos.len(),
    ensures
        r.0 ==> single_sum(pos@, ns@) == single_top(),
        !r.0 ==> r.1 == single_sum(pos@, ns@),
{
    proof {
        lemma_top_values();
    }
    let mut inf = false;
    let mut acc: u128 = 0;
    let mut k: usize = 0;
    while k < ns.len()
        invariant
            k <= ns.len(),
            forall|q: int| 0 <= q < ns@.len() ==> #[trigger] ns@[q] < pos.len(),
            single_top() == 0x1_0000_0000_0000_0000_0000_0000_0000_0000,
            inf ==> single_sum(pos@, ns@.subrange(0, k as int)) == single_top(),
            !inf ==> acc == single_sum(pos@, ns@.subrange(0, k as int)),
        decreases ns.len() - k,
    {
        let u = ns[k];
        let p = pos[u];
        proof {
            assert(ns@.subrange(0, k + 1).drop_last() =~= ns@.subrange(0, k as int));
            assert(ns@.subrange(0, k + 1).last() == u);
            lemma_round_small(p as nat);
        }
        let (_, pv) = round_int(p as u128);
        if !inf {
            match acc.checked_add(pv) {
                None => {
                    inf = true;
                },
                Some(s) => {
                    let (si, sv) = round_int(s);
                    if si {
                        inf = true;
                    } else {
                        acc = sv;
                    }
                },
            }
        }
        k = k + 1;
    }
    proof {
        assert(ns@.subrange(0, ns@.len() as int) =~= ns@);
    }
    (inf, acc)
}

/// Each item's barycenter against `pos`, as single-precision parts.
fn layer_keys(layer: &Vec<usize>, nbrs: &[Vec<usize>], pos: &Vec<usize>) -> (keys: Vec<(u64, i64)>)
    requires
        forall|i: int| 0 <= i < layer.len() ==> (#[trigger] layer@[i]) < nbrs@.len(),
        forall|v: int, k: int| 0 <= v < nbrs@.len() && 0 <= k < nbrs@[v]@.len() ==> #[trigger] nbrs@[v]@[k] < pos.len(),
    ensures
        keys.len() == layer.len(),
        keys_ok(keys@),
        int_keys(keys@) == bary_keys(layer@, nbr_view(nbrs@), pos@),
{
    let mut keys: Vec<(u64, i64)> = Vec::new();
    let mut i: usize = 0;
    while i < layer.len()
        invariant
            i <= layer.len(),
            keys.len() == i,
            forall|q: int| 0 <= q < layer.len() ==> (#[trigger] layer@[q]) < nbrs@.len(),
            forall|v: int, k: int| 0 <= v < nbrs@.len() && 0 <= k < nbrs@[v]@.len() ==> #[trigger] nbrs@[v]@[k] < pos.len(),
            forall|q: int| 0 <= q < i ==> #[trigger] single_ok((keys@[q].0 as int, keys@[q].1 as int)),
            forall|q: int| 0 <= q < i ==> single_frac((#[trigger] keys@[q].0 as int, keys@[q].1 as int)) == bary(
                pos@,
                nbrs@[layer@[q] as int]@,
                q,
            ),
        decreases layer.len() - i,
    {
        let v = layer[i];
        let ns = &nbrs[v];
        let key = if ns.len() == 0 {
            single_of_int(i as u128)
        } else {
            proof {
                assert forall|q: int| 0 <= q < ns@.len() implies #[trigger] ns@[q] < pos.len() by {
                    assert(nbrs@[v as int]@[q] < pos.len());
                }
            }
            let (inf, sum) = float_sum(ns, pos);
            proof {
                lemma_round_small(ns.len() as nat);
                lemma_top_values();
            }
            let (_, cnt) = round_int(ns.len() as u128);
            if inf {
                (0x80_0000u64, 105i64)
            } else if sum == 0 {
                (0u64, 0i64)
            } else {
                quot_single(sum, cnt)
            }
        };
        keys.push(key);
        i = i + 1;
    }
    proof {
        assert(int_keys(keys@) =~= bary_keys(layer@, nbr_view(nbrs@), pos@));
    }
    keys
}

proof fn lemma_pos_after_step(pos: Seq<usize>, l: Seq<usize>, i: int)
    requires
        0 <= i < l.len(),
    ensures
        pos_after(pos, l.subrange(0, i + 1)) == pos_after(pos, l.subrange(0, i)).update(l[i] as int, i as usize),
{
    assert(l.subrange(0, i + 1).drop_last() =~= l.subrange(0, i));
}

/// One barycenter pass: the first layer visited (top for `descending`, bottom
/// otherwise) stays as it is; each later one is sorted by the mean position
/// of each node's neighbours among the layers placed so far, summed and
/// divided in single precision (a node without neighbours keeps its own
/// position as its key), ties broken by current position.
pub fn barycenter_sweep(layers: &mut [Vec<usize>], nbrs: &[Vec<usize>], descending: bool)
    requires
        forall|r: int, i: int|
            0 <= r < old(layers)@.len() && 0 <= i < old(layers)@[r]@.len() ==> #[trigger] old(layers)@[r]@[i] < nbrs@.len(),
        forall|v: int, k: int| 0 <= v < nbrs@.len() && 0 <= k < nbrs@[v]@.len() ==> #[trigger] nbrs@[v]@[k] < nbrs@.len(),
    ensures
        final(layers)@.len() == old(layers)@.len(),
        forall|t: int| 0 <= t < old(layers)@.len() ==> #[trigger] step_ok(old(layers)@, final(layers)@, nbr_view(nbrs@), descending, t),
{
    let nl = layers.len();
    let nv = nbrs.len();
    let ghost l0 = layers@;
    let ghost pos0 = Seq::new(nv as nat, |v: int| 0usize);
    let mut pos: Vec<usize> = Vec::new();
    let mut v: usize = 0;
    while v < nv
        invariant
            v <= nv,
            pos.len() == v,
            forall|w: int| 0 <= w < v ==> #[trigger] pos@[w] == 0,
        decreases nv - v,
    {
        pos.push(0);
        v = v + 1;
    }
    proof {
        assert(pos@ =~= pos0);
    }
    let mut s: usize = 0;
    while s < nl
        invariant
            s <= nl,
            nl == layers@.len(),
            nl == l0.len(),
            nv == nbrs@.len(),
            pos0 == Seq::new(nv as nat, |v: int| 0usize),
            forall|r: int, i: int| 0 <= r < nl && 0 <= i < layers@[r]@.len() ==> #[trigger] layers@[r]@[i] < nv,
            forall|v: int, k: int| 0 <= v < nv && 0 <= k < nbrs@[v]@.len() ==> #[trigger] nbrs@[v]@[k] < nv,
            forall|u: int| s <= u < nl ==> #[trigger] layers@[visit(nl as int, descending, u)]@ == l0[visit(nl as int, descending, u)]@,
            pos.len() == nv,
            pos@ == pos_at(layers@, descending, s as int, pos0),
            forall|t: int| 0 <= t < s ==> #[trigger] step_ok(l0, layers@, nbr_view(nbrs@), descending, t),
        decreases nl - s,
    {
        let r = if descending { s } else { nl - 1 - s };
        let ghost la = layers@;
        proof {
            assert(r == visit(nl as int, descending, s as int));
            assert(layers@[r as int]@ == l0[r as int]@);
        }
        if s > 0 {
            let keys = layer_keys(&layers[r], nbrs, &pos);
            let ord = order_by_keys(&keys);
            let mut fresh: Vec<usize> = Vec::new();
            let mut j: usize = 0;
            while j < ord.len()
                invariant
                    j <= ord.len(),
                    r < layers@.len(),
                    ord.len() == layers@[r as int]@.len(),
                    forall|q: int| 0 <= q < ord.len() ==> (#[trigger] ord@[q]) < ord.len(),
                    fresh.len() == j,
                    forall|q: int| 0 <= q < j ==> #[trigger] fresh@[q] == layers@[r as int]@[ord@[q] as int],
                decreases ord.len() - j,
            {
                fresh.push(layers[r][ord[j]]);
                j = j + 1;
            }
            proof {
                assert(is_reorder(l0[r as int]@, fresh@, ord@));
                assert(bary_reordered(l0[r as int]@, fresh@, nbr_view(nbrs@), pos@));
            }
            layers[r] = fresh;
        }
        let ghost lb = layers@;
        proof {
            assert forall|u: int| 0 <= u < s implies #[trigger] la[visit(nl as int, descending, u)]@ == lb[visit(nl as int, descending, u)]@ by {
                assert(visit(nl as int, descending, u) != r);
            }
            lemma_pos_at_same(la, lb, descending, s as int, pos0);
            assert forall|t: int| 0 <= t < s + 1 implies #[trigger] step_ok(l0, lb, nbr_view(nbrs@), descending, t) by {
                lemma_pos_at_same(la, lb, descending, t, pos0);
                if t < s {
                    assert(step_ok(l0, la, nbr_view(nbrs@), descending, t));
                    assert(visit(nl as int, descending, t) != r);
                }
            }
        }
        let ghost p1 = pos@;
        let mut i: usize = 0;
        while i < layers[r].len()
            invariant
                r < nl,
                nl == layers@.len(),
                layers@ == lb,
                pos.len() == nv,
                forall|q: int| 0 <= q < layers@[r as int]@.len() ==> #[trigger] layers@[r as int]@[q] < nv,
                i <= layers@[r as int]@.len(),
                pos@ == pos_after(p1, layers@[r as int]@.subrange(0, i as int)),
            decreases layers@[r as int]@.len() - i,
        {
            proof {
                lemma_pos_after_step(p1, layers@[r as int]@, i as int);
            }
            let w = layers[r][i];
            pos.set(w, i);
            i = i + 1;
        }
        proof {
            assert(layers@[r as int]@.subrange(0, layers@[r as int]@.len() as int) =~= layers@[r as int]@);
            assert(pos@ == pos_at(layers@, descending, s + 1, pos0));
            assert forall|u: int| s + 1 <= u < nl implies #[trigger] layers@[visit(nl as int, descending, u)]@ == l0[visit(nl as int, descending, u)]@ by {
                assert(visit(nl as int, descending, u) != r);
                assert(la[visit(nl as int, descending, u)]@ == l0[visit(nl as int, descending, u)]@);
            }
        }
        s = s + 1;
    }
}

/// Node `w` sits in some layer.
pub open spec fn is_placed(layers: Seq<Vec<usize>>, w: int) -> bool {
    exists|r: int, i: int| #[trigger] is_at(layers, w, r, i)
}

/// `new` lists the members of `old`, each once.
pub open spec fn same_members(old: Seq<usize>, new: Seq<usize>) -> bool {
    &&& forall|a: int, b: int| 0 <= a < b < new.len() ==> #[trigger] new[a] != #[trigger] new[b]
    &&& forall|x: usize| #[trigger] new.contains(x) <==> old.contains(x)
}

proof fn lemma_placed_slot(layers: Seq<Vec<usize>>, w: int)
    requires
        placed_once(layers),
        is_placed(layers, w),
    ensures
        is_at(layers, w, slot_of(layers, w).0, slot_of(layers, w).1),
        0 <= slot_of(layers, w).0 < layers.len(),
        forall|r: int, i: int| #[trigger] is_at(layers, w, r, i) ==> r == slot_of(layers, w).0 && i == slot_of(layers, w).1,
{
    let (r0, i0) = slot_of(layers, w);
    assert forall|r: int, i: int| #[trigger] is_at(layers, w, r, i) implies r == r0 && i == i0 by {
        assert(layers[r]@[i] == layers[r0]@[i0]);
    }
}

/// The layer index of each of the nodes `0..n`.
pub open spec fn layer_ranks(layers: Seq<Vec<usize>>, n: int) -> Seq<usize> {
    Seq::new(n as nat, |v: int| slot_of(layers, v).0 as usize)
}

/// What the seeding walk produces once it resumes at root `i` of layer `r`.
spec fn walk_from(
    layers: Seq<Seq<usize>>,
    down: Seq<Seq<usize>>,
    rank_of: Seq<usize>,
    r: int,
    i: int,
    seen: Seq<bool>,
    out: Seq<Seq<usize>>,
) -> Seq<Seq<usize>> {
    let w = walk_roots(layers[r].subrange(i, layers[r].len() as int), down, rank_of, seen, out);
    walk_layers(layers, down, rank_of, r + 1, w.0, w.1)
}

/// The state of the depth-first walk that seeds the ordering.
spec fn walk_inv(
    layers: Seq<Vec<usize>>,
    down: Seq<Vec<usize>>,
    rank_of: Seq<usize>,
    out: Seq<Vec<usize>>,
    seen: Seq<bool>,
    stack: Seq<usize>,
) -> bool {
    let nv = down.len();
    &&& rank_of.len() == nv
    &&& seen.len() == nv
    &&& out.len() == layers.len()
    &&& forall|v: int| 0 <= v < nv ==> #[trigger] rank_of[v] as int == slot_of(layers, v).0
    &&& forall|r: int, i: int|
        0 <= r < out.len() && 0 <= i < out[r]@.len() ==> (#[trigger] out[r]@[i]) < nv && seen[out[r]@[i] as int]
            && rank_of[out[r]@[i] as int] == r && !stack.contains(out[r]@[i])
    &&& forall|r: int, a: int, b: int| 0 <= r < out.len() && 0 <= a < b < out[r]@.len() ==> #[trigger] out[r]@[a] != #[trigger] out[r]@[b]
    &&& forall|a: int, b: int| 0 <= a < b < stack.len() ==> #[trigger] stack[a] != #[trigger] stack[b]
    &&& forall|j: int| 0 <= j < stack.len() ==> (#[trigger] stack[j]) < nv && seen[stack[j] as int]
    &&& forall|v: int| 0 <= v < nv && #[trigger] seen[v] ==> is_placed(layers, v) && (stack.contains(v as usize) || out[rank_of[v] as int]@.contains(v as usize))
}

/// Seed the ordering by depth-first discovery: roots in each layer's order,
/// children in list order. Each layer comes out with the same members, in
/// the order the walk reached them (`dfs_layers`).
pub fn dfs_order(layers: &[Vec<usize>], down: &[Vec<usize>]) -> (out: Vec<Vec<usize>>)
    requires
        placed_once(layers@),
        layers_below(layers@, down@.len() as int),
        forall|v: int, k: int| 0 <= v < down@.len() && 0 <= k < down@[v]@.len() ==> (#[trigger] down@[v]@[k]) < down@.len()
            && is_placed(layers@, down@[v]@[k] as int),
    ensures
        out.len() == layers.len(),
        forall|r: int| 0 <= r < out.len() ==> #[trigger] same_members(layers@[r]@, out@[r]@),
        nbr_view(out@) == dfs_layers(nbr_view(layers@), nbr_view(down@), layer_ranks(layers@, down@.len() as int)),
{
    let nv = down.len();
    let nl = layers.len();
    let ghost ls = layers@;
    let ghost ds = down@;
    let (rank_of, _pos) = slots(layers, nv);
    let mut out: Vec<Vec<usize>> = Vec::new();
    let mut x: usize = 0;
    while x < nl
        invariant
            x <= nl,
            out.len() == x,
            forall|y: int| 0 <= y < x ==> (#[trigger] out@[y])@.len() == 0,
        decreases nl - x,
    {
        out.push(Vec::new());
        x = x + 1;
    }
    let mut seen: Vec<bool> = Vec::new();
    let mut x: usize = 0;
    while x < nv
        invariant
            x <= nv,
            seen.len() == x,
            forall|y: int| 0 <= y < x ==> !(#[trigger] seen@[y]),
        decreases nv - x,
    {
        seen.push(false);
        x = x + 1;
    }
    let mut stack: Vec<usize> = Vec::new();
    proof {
        assert forall|v: int| 0 <= v < nv implies #[trigger] rank_of@[v] as int == slot_of(ls, v).0 by {
            lemma_slot(ls, rank_of@, _pos@, v);
        }
    }
    let ghost lv = nbr_view(ls);
    let ghost dv = nbr_view(ds);
    let ghost rk = rank_of@;
    let ghost goal = dfs_layers(lv, dv, rk);
    proof {
        assert(seen@ =~= Seq::new(nv as nat, |v: int| false));
        assert forall|q: int| 0 <= q < nl implies #[trigger] nbr_view(out@)[q] == Seq::<usize>::empty() by {
            assert(out@[q]@ =~= Seq::<usize>::empty());
        }
        assert(nbr_view(out@) =~= Seq::new(nl as nat, |q: int| Seq::<usize>::empty()));
        assert(rk =~= layer_ranks(ls, nv as int));
    }
    let mut r: usize = 0;
    while r < nl
        invariant
            r <= nl,
            nl == ls.len(),
            nv == ds.len(),
            ls == layers@,
            ds == down@,
            placed_once(ls),
            layers_below(ls, nv as int),
            forall|v: int, k: int| 0 <= v < ds.len() && 0 <= k < ds[v]@.len() ==> (#[trigger] ds[v]@[k]) < ds.len()
                && is_placed(ls, ds[v]@[k] as int),
            walk_inv(ls, ds, rank_of@, out@, seen@, stack@),
            stack.len() == 0,
            forall|rr: int, i: int| 0 <= rr < r && 0 <= i < ls[rr]@.len() ==> #[trigger] seen@[ls[rr]@[i] as int],
            lv == nbr_view(ls),
            dv == nbr_view(ds),
            rk == rank_of@,
            walk_layers(lv, dv, rk, r as int, seen@, nbr_view(out@)) == goal,
        decreases nl - r,
    {
        proof {
            assert(lv[r as int].subrange(0, lv[r as int].len() as int) =~= lv[r as int]);
        }
        let mut i: usize = 0;
        while i < layers[r].len()
            invariant
                r < nl,
                nl == ls.len(),
                nv == ds.len(),
                ls == layers@,
                ds == down@,
                placed_once(ls),
                layers_below(ls, nv as int),
                forall|v: int, k: int| 0 <= v < ds.len() && 0 <= k < ds[v]@.len() ==> (#[trigger] ds[v]@[k]) < ds.len()
                    && is_placed(ls, ds[v]@[k] as int),
                walk_inv(ls, ds, rank_of@, out@, seen@, stack@),
                stack.len() == 0,
                i <= ls[r as int]@.len(),
                forall|rr: int, q: int| 0 <= rr < r && 0 <= q < ls[rr]@.len() ==> #[trigger] seen@[ls[rr]@[q] as int],
                forall|q: int| 0 <= q < i ==> #[trigger] seen@[ls[r as int]@[q] as int],
                lv == nbr_view(ls),
                dv == nbr_view(ds),
                rk == rank_of@,
                walk_from(lv, dv, rk, r as int, i as int, seen@, nbr_view(out@)) == goal,
            decreases ls[r as int]@.len() - i,
        {
            let root = layers[r][i];
            proof {
                assert(is_at(ls, root as int, r as int, i as int));
                let sub = lv[r as int].subrange(i as int, lv[r as int].len() as int);
                assert(sub[0] == root);
                assert(sub.drop_first() =~= lv[r as int].subrange(i as int + 1, lv[r as int].len() as int));
            }
            if !seen[root] {
                let ghost dd = drain(dv, rk, seen@.update(root as int, true), seq![root], nbr_view(out@));
                proof {
                    lemma_count_false_set(seen@, root as int);
                }
                seen.set(root, true);
                stack.push(root);
                proof {
                    assert(stack@ =~= seq![root]);
                    assert forall|v: int| 0 <= v < nv && #[trigger] seen@[v] implies is_placed(ls, v) && (stack@.contains(v as usize)
                        || out@[rank_of@[v] as int]@.contains(v as usize)) by {
                        if v == root {
                            assert(stack@[0] == root);
                        }
                    }
                }
                while stack.len() > 0
                    invariant
                        nl == ls.len(),
                        nv == ds.len(),
                        ls == layers@,
                        ds == down@,
                        placed_once(ls),
                        layers_below(ls, nv as int),
                        forall|v: int, k: int| 0 <= v < ds.len() && 0 <= k < ds[v]@.len() ==> (#[trigger] ds[v]@[k]) < ds.len()
                            && is_placed(ls, ds[v]@[k] as int),
                        walk_inv(ls, ds, rank_of@, out@, seen@, stack@),
                        r < nl,
                        i < ls[r as int]@.len(),
                        root == ls[r as int]@[i as int],
                        seen@[root as int],
                        forall|rr: int, q: int| 0 <= rr < r && 0 <= q < ls[rr]@.len() ==> #[trigger] seen@[ls[rr]@[q] as int],
                        forall|q: int| 0 <= q < i ==> #[trigger] seen@[ls[r as int]@[q] as int],
                        lv == nbr_view(ls),
                        dv == nbr_view(ds),
                        rk == rank_of@,
                        drain(dv, rk, seen@, stack@, nbr_view(out@)) == dd,
                        walk_from(lv, dv, rk, r as int, i as int + 1, dd.0, dd.1) == goal,
                    decreases 2 * count_false(seen@) + stack.len(),
                {
                    let ghost m0 = 2 * count_false(seen@) + stack.len();
                    let ghost st0 = stack@;
                    let ghost sb = seen@;
                    let ghost ob = nbr_view(out@);
                    let v = stack.pop().unwrap();
                    let ghost st1 = stack@;
                    proof {
                        assert(st0 =~= st1.push(v));
                        assert(is_placed(ls, v as int));
                        lemma_placed_slot(ls, v as int);
                        assert(rank_of@[v as int] < nl);
                    }
                    let rv = rank_of[v];
                    let ghost o0 = out@;
                    out[rv].push(v);
                    proof {
                        assert forall|rr: int, a: int| 0 <= rr < out@.len() && 0 <= a < out@[rr]@.len() implies (#[trigger] out@[rr]@[a]) < nv && seen@[out@[rr]@[a] as int]
                            && rank_of@[out@[rr]@[a] as int] == rr && !stack@.contains(out@[rr]@[a]) by {
                            if rr == rv && a == o0[rr]@.len() {
                                if stack@.contains(v) {
                                    let j = choose|j: int| 0 <= j < stack@.len() && stack@[j] == v;
                                    assert(st1.push(v)[j] == st1.push(v)[st1.len() as int]);
                                }
                            } else {
                                assert(out@[rr]@[a] == o0[rr]@[a]);
                                assert(!st1.push(v).contains(o0[rr]@[a]));
                                if stack@.contains(o0[rr]@[a]) {
                                    let j = choose|j: int| 0 <= j < stack@.len() && stack@[j] == o0[rr]@[a];
                                    assert(st1.push(v)[j] == o0[rr]@[a]);
                                }
                            }
                        }
                        assert forall|rr: int, a: int, b: int| 0 <= rr < out@.len() && 0 <= a < b < out@[rr]@.len() implies #[trigger] out@[rr]@[a] != #[trigger] out@[rr]@[b] by {
                            if rr == rv && b == o0[rr]@.len() {
                                assert(out@[rr]@[a] == o0[rr]@[a]);
                                assert(st1.push(v)[st1.len() as int] == v);
                                assert(st1.push(v).contains(v));
                            } else if rr == rv {
                                assert(out@[rr]@[a] == o0[rr]@[a]);
                                assert(out@[rr]@[b] == o0[rr]@[b]);
                            } else {
                                assert(out@[rr] == o0[rr]);
                            }
                        }
                        assert forall|w: int| 0 <= w < nv && #[trigger] seen@[w] implies is_placed(ls, w) && (stack@.contains(w as usize)
                            || out@[rank_of@[w] as int]@.contains(w as usize)) by {
                            if w == v {
                                assert(out@[rv as int]@[o0[rv as int]@.len() as int] == v);
                            } else if st1.push(v).contains(w as usize) {
                                let j = choose|j: int| 0 <= j < st1.push(v).len() && st1.push(v)[j] == w as usize;
                                assert(j < st1.len());
                                assert(stack@[j] == w as usize);
                            } else {
                                let y = rank_of@[w] as int;
                                lemma_placed_slot(ls, w);
                                assert(o0[y]@.contains(w as usize));
                                let j = choose|j: int| 0 <= j < o0[y]@.len() && o0[y]@[j] == w as usize;
                                if y == rv {
                                    assert(out@[y]@[j] == o0[y]@[j]);
                                } else {
                                    assert(out@[y] == o0[y]);
                                }
                            }
                        }
                        assert forall|a: int, b: int| 0 <= a < b < stack@.len() implies #[trigger] stack@[a] != #[trigger] stack@[b] by {
                            assert(st1.push(v)[a] == stack@[a] && st1.push(v)[b] == stack@[b]);
                        }
                        assert forall|j: int| 0 <= j < stack@.len() implies (#[trigger] stack@[j]) < nv && seen@[stack@[j] as int] by {
                            assert(st1.push(v)[j] == stack@[j]);
                        }
                        assert(walk_inv(ls, ds, rank_of@, out@, seen@, stack@));
                    }
                    proof {
                        assert(nbr_view(out@) =~= ob.update(rv as int, ob[rv as int].push(v)));
                        assert(st0.last() == v);
                        assert(st0.drop_last() =~= stack@);
                        assert(dv[v as int] == down@[v as int]@);
                    }
                    let nk = down[v].len();
                    let mut k: usize = nk;
                    while k > 0
                        invariant
                            k <= nk,
                            v < nv,
                            nk == ds[v as int]@.len(),
                            nl == ls.len(),
                            nv == ds.len(),
                            ls == layers@,
                            ds == down@,
                            placed_once(ls),
                            layers_below(ls, nv as int),
                            forall|v: int, k: int| 0 <= v < ds.len() && 0 <= k < ds[v]@.len() ==> (#[trigger] ds[v]@[k]) < ds.len()
                                && is_placed(ls, ds[v]@[k] as int),
                            walk_inv(ls, ds, rank_of@, out@, seen@, stack@),
                            2 * count_false(seen@) + stack.len() < m0,
                            r < nl,
                            i < ls[r as int]@.len(),
                            root == ls[r as int]@[i as int],
                            seen@[root as int],
                            forall|rr: int, q: int| 0 <= rr < r && 0 <= q < ls[rr]@.len() ==> #[trigger] seen@[ls[rr]@[q] as int],
                            forall|q: int| 0 <= q < i ==> #[trigger] seen@[ls[r as int]@[q] as int],
                            lv == nbr_view(ls),
                            dv == nbr_view(ds),
                            rk == rank_of@,
                            dv[v as int] == down@[v as int]@,
                            drain(dv, rk, push_children(dv[v as int], k as int, seen@, stack@).0,
                                push_children(dv[v as int], k as int, seen@, stack@).1, nbr_view(out@)) == dd,
                            walk_from(lv, dv, rk, r as int, i as int + 1, dd.0, dd.1) == goal,
                        decreases k,
                    {
                        k = k - 1;
                        let w = down[v][k];
                        let ghost sk = seen@;
                        let ghost stk = stack@;
                        proof {
                            assert(dv[v as int][k as int] == w);
                        }
                        if !seen[w] {
                            let ghost st2 = stack@;
                            proof {
                                lemma_count_false_set(seen@, w as int);
                            }
                            seen.set(w, true);
                            stack.push(w);
                            proof {
                                assert(stack@ == st2.push(w));
                                assert forall|rr: int, a: int| 0 <= rr < out@.len() && 0 <= a < out@[rr]@.len() implies (#[trigger] out@[rr]@[a]) < nv && seen@[out@[rr]@[a] as int]
                                    && rank_of@[out@[rr]@[a] as int] == rr && !stack@.contains(out@[rr]@[a]) by {
                                    let x = out@[rr]@[a];
                                    assert(x != w);
                                    if stack@.contains(x) {
                                        let j = choose|j: int| 0 <= j < stack@.len() && stack@[j] == x;
                                        assert(st2[j] == x);
                                    }
                                }
                                assert forall|a: int, b: int| 0 <= a < b < stack@.len() implies #[trigger] stack@[a] != #[trigger] stack@[b] by {
                                    if b == st2.len() {
                                        assert(seen@[st2[a] as int]);
                                    }
                                }
                                assert forall|q: int| 0 <= q < nv && #[trigger] seen@[q] implies is_placed(ls, q) && (stack@.contains(q as usize)
                                    || out@[rank_of@[q] as int]@.contains(q as usize)) by {
                                    if q == w {
                                        assert(stack@[st2.len() as int] == w);
                                    } else if st2.contains(q as usize) {
                                        let j = choose|j: int| 0 <= j < st2.len() && st2[j] == q as usize;
                                        assert(stack@[j] == q as usize);
                                    }
                                }
                            }
                        }
                        proof {
                            assert(push_children(dv[v as int], k as int + 1, sk, stk) == push_children(dv[v as int], k as int, seen@, stack@));
                        }
                    }
                }
            } else {
                proof {
                    let sub = lv[r as int].subrange(i as int, lv[r as int].len() as int);
                    assert(walk_roots(sub, dv, rk, seen@, nbr_view(out@)) == walk_roots(sub.drop_first(), dv, rk, seen@, nbr_view(out@)));
                }
            }
            i = i + 1;
        }
        r = r + 1;
    }
    proof {
        assert forall|rr: int| 0 <= rr < out.len() implies #[trigger] same_members(ls[rr]@, out@[rr]@) by {
            assert forall|x: usize| #[trigger] out@[rr]@.contains(x) <==> ls[rr]@.contains(x) by {
                if out@[rr]@.contains(x) {
                    let j = choose|j: int| 0 <= j < out@[rr]@.len() && out@[rr]@[j] == x;
                    assert(seen@[x as int]);
                    assert(is_placed(ls, x as int));
                    lemma_placed_slot(ls, x as int);
                    let (r0, i0) = slot_of(ls, x as int);
                    assert(r0 == rr);
                    assert(ls[rr]@[i0] == x);
                }
                if ls[rr]@.contains(x) {
                    let j = choose|j: int| 0 <= j < ls[rr]@.len() && ls[rr]@[j] == x;
                    assert(is_at(ls, x as int, rr, j));
                    assert(seen@[x as int]);
                    lemma_placed_slot(ls, x as int);
                    assert(rank_of@[x as int] == rr);
                }
            }
        }
    }
    out
}

/// `n` distinct indices below `n` cover every index below `n`.
pub(crate) proof fn lemma_pigeon(ord: Seq<usize>, n: int)
    requires
        ord.len() == n,
        forall|j: int| 0 <= j < n ==> (#[trigger] ord[j]) < n,
        forall|a: int, b: int| 0 <= a < b < n ==> #[trigger] ord[a] != #[trigger] ord[b],
    ensures
        forall|x: int| 0 <= x < n ==> #[trigger] ord.contains(x as usize),
{
    let si = ord.map_values(|x: usize| x as int);
    assert(si.no_duplicates()) by {
        assert forall|a: int, b: int| 0 <= a < si.len() && 0 <= b < si.len() && a != b implies si[a] != si[b] by {
            if a < b {
                assert(ord[a] != ord[b]);
            } else {
                assert(ord[b] != ord[a]);
            }
        }
    }
    si.unique_seq_to_set();
    vstd::set_lib::lemma_int_range(0, n);
    let full = vstd::set_lib::set_int_range(0, n);
    assert(si.to_set().subset_of(full)) by {
        assert forall|x: int| si.to_set().contains(x) implies full.contains(x) by {
            let j = choose|j: int| 0 <= j < si.len() && si[j] == x;
            assert(ord[j] < n);
        }
    }
    vstd::seq_lib::seq_to_set_is_finite(si);
    vstd::set_lib::lemma_subset_equality(si.to_set(), full);
    assert forall|x: int| 0 <= x < n implies #[trigger] ord.contains(x as usize) by {
        assert(full.contains(x));
        assert(si.to_set().contains(x));
        let j = choose|j: int| 0 <= j < si.len() && si[j] == x;
        assert(ord[j] == x as usize);
    }
}

/// A sweep step keeps each layer's members.
pub(crate) proof fn lemma_step_members(
    old: Seq<Vec<usize>>,
    new: Seq<Vec<usize>>,
    nbrs: Seq<Seq<usize>>,
    descending: bool,
    t: int,
)
    requires
        0 <= t < old.len(),
        new.len() == old.len(),
        step_ok(old, new, nbrs, descending, t),
        forall|a: int, b: int|
            0 <= a < b < old[visit(old.len() as int, descending, t)]@.len() ==> #[trigger] old[visit(old.len() as int, descending, t)]@[a]
                != #[trigger] old[visit(old.len() as int, descending, t)]@[b],
    ensures
        same_members(old[visit(old.len() as int, descending, t)]@, new[visit(old.len() as int, descending, t)]@),
{
    let r = visit(old.len() as int, descending, t);
    let o = old[r]@;
    let w = new[r]@;
    assert(o.len() <= usize::MAX) by {
        assert(o.len() == old[r].len());
    }
    if t != 0 {
        let pos0 = Seq::new(nbrs.len(), |v: int| 0usize);
        let ord = choose|ord: Seq<usize>| #[trigger] is_reorder(o, w, ord) && sorted_by_keys(ord, bary_keys(o, nbrs, pos_at(new, descending, t, pos0)));
        lemma_pigeon(ord, o.len() as int);
        assert forall|a: int, b: int| 0 <= a < b < w.len() implies #[trigger] w[a] != #[trigger] w[b] by {
            assert(ord[a] != ord[b]);
            if ord[a] < ord[b] {
                assert(o[ord[a] as int] != o[ord[b] as int]);
            } else {
                assert(o[ord[b] as int] != o[ord[a] as int]);
            }
        }
        assert forall|x: usize| #[trigger] w.contains(x) <==> o.contains(x) by {
            if w.contains(x) {
                let j = choose|j: int| 0 <= j < w.len() && w[j] == x;
                assert(o[ord[j] as int] == x);
            }
            if o.contains(x) {
                let i = choose|i: int| 0 <= i < o.len() && o[i] == x;
                assert(ord.contains(i as usize));
                let j = choose|j: int| 0 <= j < ord.len() && ord[j] == i as usize;
                assert(is_reorder(o, w, ord));
                assert(ord[j] < o.len() && w[j] == o[ord[j] as int]);
                assert(ord[j] as int == i);
                assert(w[j] == x);
            }
        }
    }
}

/// Two permutations of `0..n` sorted by the same keys (ties by index) agree
/// on every position below `a`.
proof fn lemma_sorted_prefix(ord1: Seq<usize>, ord2: Seq<usize>, keys: Seq<(int, int)>, n: int, a: int)
    requires
        ord1.len() == n,
        ord2.len() == n,
        keys.len() == n,
        forall|i: int| 0 <= i < n ==> (#[trigger] keys[i]).1 > 0,
        forall|j: int| 0 <= j < n ==> (#[trigger] ord1[j]) < n,
        forall|j: int| 0 <= j < n ==> (#[trigger] ord2[j]) < n,
        forall|x: int, y: int| 0 <= x < y < n ==> #[trigger] ord1[x] != #[trigger] ord1[y],
        forall|x: int, y: int| 0 <= x < y < n ==> #[trigger] ord2[x] != #[trigger] ord2[y],
        sorted_by_keys(ord1, keys),
        sorted_by_keys(ord2, keys),
        0 <= a <= n,
    ensures
        forall|q: int| 0 <= q < a ==> #[trigger] ord1[q] == ord2[q],
    decreases a,
{
    if a > 0 {
        lemma_sorted_prefix(ord1, ord2, keys, n, a - 1);
        let x = ord1[a - 1];
        let y = ord2[a - 1];
        if x != y {
            lemma_pigeon(ord1, n);
            lemma_pigeon(ord2, n);
            assert((y as int) < n);
            assert(ord1.contains((y as int) as usize));
            let p = choose|p: int| 0 <= p < n && ord1[p] == y;
            if p < a - 1 {
                assert(ord1[p] == ord2[p]);
                assert(ord2[p] != ord2[a - 1]);
            }
            assert((x as int) < n);
            assert(ord2.contains((x as int) as usize));
            let c = choose|c: int| 0 <= c < n && ord2[c] == x;
            if c < a - 1 {
                assert(ord1[c] == ord2[c]);
                assert(ord1[c] != ord1[a - 1]);
            }
            assert(sorts_before(keys[ord1[a - 1] as int], ord1[a - 1] as int, keys[ord1[p] as int], ord1[p] as int));
            assert(sorts_before(keys[ord2[a - 1] as int], ord2[a - 1] as int, keys[ord2[c] as int], ord2[c] as int));
            assert(keys[x as int].1 > 0 && keys[y as int].1 > 0);
            assert(false);
        }
    }
}

/// Rearranging one list by two orders sorted by the same keys gives one
/// result.
proof fn lemma_sorted_reorder_unique(
    old: Seq<usize>,
    new1: Seq<usize>,
    new2: Seq<usize>,
    ord1: Seq<usize>,
    ord2: Seq<usize>,
    keys: Seq<(int, int)>,
)
    requires
        is_reorder(old, new1, ord1),
        is_reorder(old, new2, ord2),
        keys.len() == old.len(),
        forall|i: int| 0 <= i < keys.len() ==> (#[trigger] keys[i]).1 > 0,
        sorted_by_keys(ord1, keys),
        sorted_by_keys(ord2, keys),
    ensures
        new1 == new2,
{
    let n = old.len() as int;
    lemma_sorted_prefix(ord1, ord2, keys, n, n);
    assert forall|j: int| 0 <= j < n implies new1[j] == new2[j] by {
        assert(ord1[j] == ord2[j]);
    }
    assert(new1 =~= new2);
}

/// Barycenter keys always have positive denominators.
proof fn lemma_bary_keys_positive(layer: Seq<usize>, nbrs: Seq<Seq<usize>>, pos: Seq<usize>)
    ensures
        forall|i: int| 0 <= i < layer.len() ==> (#[trigger] bary_keys(layer, nbrs, pos)[i]).1 > 0,
{
    assert forall|i: int| 0 <= i < layer.len() implies (#[trigger] bary_keys(layer, nbrs, pos)[i]).1 > 0 by {
        let ns = nbrs[layer[i] as int];
        if ns.len() == 0 {
            lemma_frac_den(int_single(i as nat));
        } else {
            lemma_frac_den(single_quot(single_sum(pos, ns), to_single(ns.len())));
        }
    }
}

/// Law: a barycenter sweep has one outcome — any two results that meet the
/// sweep's contract from the same layers and neighbours hold the same
/// layers.
pub proof fn sweep_outcome_unique(prev: Seq<Vec<usize>>, a: Seq<Vec<usize>>, b: Seq<Vec<usize>>, nbrs: Seq<Seq<usize>>, descending: bool)
    requires
        a.len() == prev.len(),
        b.len() == prev.len(),
        forall|t: int| 0 <= t < prev.len() ==> #[trigger] step_ok(prev, a, nbrs, descending, t),
        forall|t: int| 0 <= t < prev.len() ==> #[trigger] step_ok(prev, b, nbrs, descending, t),
    ensures
        forall|r: int| 0 <= r < prev.len() ==> (#[trigger] a[r])@ == b[r]@,
{
    lemma_sweep_same(prev, prev, a, b, nbrs, descending);
}

/// Sweeps from two orderings with the same views end with the same views.
pub(crate) proof fn lemma_sweep_same(
    p1: Seq<Vec<usize>>,
    p2: Seq<Vec<usize>>,
    a: Seq<Vec<usize>>,
    b: Seq<Vec<usize>>,
    nbrs: Seq<Seq<usize>>,
    descending: bool,
)
    requires
        same_views(p1, p2),
        a.len() == p1.len(),
        b.len() == p1.len(),
        forall|t: int| 0 <= t < p1.len() ==> #[trigger] step_ok(p1, a, nbrs, descending, t),
        forall|t: int| 0 <= t < p1.len() ==> #[trigger] step_ok(p2, b, nbrs, descending, t),
    ensures
        same_views(a, b),
{
    let n = p1.len() as int;
    lemma_sweep_prefix(p1, p2, a, b, nbrs, descending, n);
    assert forall|r: int| 0 <= r < n implies (#[trigger] a[r])@ == b[r]@ by {
        let t = if descending {
            r
        } else {
            n - 1 - r
        };
        assert(visit(n, descending, t) == r);
    }
}

/// Two sweep results agree on every layer visited before step `t`.
proof fn lemma_sweep_prefix(
    p1: Seq<Vec<usize>>,
    p2: Seq<Vec<usize>>,
    a: Seq<Vec<usize>>,
    b: Seq<Vec<usize>>,
    nbrs: Seq<Seq<usize>>,
    descending: bool,
    t: int,
)
    requires
        same_views(p1, p2),
        a.len() == p1.len(),
        b.len() == p1.len(),
        0 <= t <= p1.len(),
        forall|u: int| 0 <= u < p1.len() ==> #[trigger] step_ok(p1, a, nbrs, descending, u),
        forall|u: int| 0 <= u < p1.len() ==> #[trigger] step_ok(p2, b, nbrs, descending, u),
    ensures
        forall|u: int| 0 <= u < t ==> #[trigger] a[visit(a.len() as int, descending, u)]@ == b[visit(a.len() as int, descending, u)]@,
    decreases t,
{
    if t > 0 {
        lemma_sweep_prefix(p1, p2, a, b, nbrs, descending, t - 1);
        let u = t - 1;
        let r = visit(p1.len() as int, descending, u);
        assert(step_ok(p1, a, nbrs, descending, u));
        assert(step_ok(p2, b, nbrs, descending, u));
        assert(p1[r]@ == p2[r]@);
        if u != 0 {
            let pos0 = Seq::new(nbrs.len(), |v: int| 0usize);
            lemma_pos_at_same(a, b, descending, u, pos0);
            let pos = pos_at(a, descending, u, pos0);
            let keys = bary_keys(p1[r]@, nbrs, pos);
            let o1 = choose|ord: Seq<usize>| #[trigger] is_reorder(p1[r]@, a[r]@, ord) && sorted_by_keys(ord, keys);
            let o2 = choose|ord: Seq<usize>| #[trigger] is_reorder(p2[r]@, b[r]@, ord) && sorted_by_keys(ord, keys);
            lemma_bary_keys_positive(p1[r]@, nbrs, pos);
            lemma_sorted_reorder_unique(p1[r]@, a[r]@, b[r]@, o1, o2, keys);
        }
    }
}

} // verus!
