use vstd::prelude::*;

verus! {

/// How strongly a virtual node holds its place during coordinate
/// assignment: a dummy (an id at or above `n_real`) is a piece of one long
/// edge and outranks every real node; among real nodes the busiest wins.
pub open spec fn priority_of(v: int, n_real: int, degree: int) -> int {
    if v >= n_real {
        0x7fff_ffff + degree
    } else {
        degree
    }
}

/// The priority a placement pass gives node `v` with `degree` segments.
pub fn node_priority(v: usize, n_real: usize, degree: u32) -> (r: u32)
    requires
        v >= n_real ==> degree <= 0x8000_0000,
    ensures
        r == priority_of(v as int, n_real as int, degree as int),
{
    if v >= n_real {
        0x7fff_ffff + degree
    } else {
        degree
    }
}

/// Position `a` of a layer is placed before position `b`: higher priority
/// first, then lower node id, then earlier position.
pub open spec fn placed_before(layer: Seq<usize>, prio: Seq<u32>, a: int, b: int) -> bool {
    ||| prio[a] > prio[b]
    ||| (prio[a] == prio[b] && layer[a] < layer[b])
    ||| (prio[a] == prio[b] && layer[a] == layer[b] && a < b)
}

/// The positions of `layer` in the order a placement pass visits them:
/// highest priority first, ties by node id, then by position.
pub fn placement_order(layer: &[usize], prio: &[u32]) -> (ord: Vec<usize>)
    requires
        prio@.len() == layer@.len(),
    ensures
        ord.len() == layer.len(),
        forall|j: int| 0 <= j < ord.len() ==> (#[trigger] ord@[j]) < layer.len(),
        forall|a: int, b: int| 0 <= a < b < ord.len() ==> #[trigger] ord@[a] != #[trigger] ord@[b],
        forall|a: int, b: int|
            0 <= a < b < ord.len() ==> placed_before(layer@, prio@, #[trigger] ord@[a] as int, #[trigger] ord@[b] as int),
{
    let n = layer.len();
    let ghost ls = layer@;
    let ghost ps = prio@;
    let mut ord: Vec<usize> = Vec::new();
    let mut i: usize = 0;
    while i < n
        invariant
            i <= n,
            ord.len() == i,
            forall|j: int| 0 <= j < i ==> #[trigger] ord@[j] == j,
        decreases n - i,
    {
        ord.push(i);
        i = i + 1;
    }
    let mut t: usize = 0;
    while t < n
        invariant
            t <= n,
            n == ls.len(),
            ls == layer@,
            ps == prio@,
            ps.len() == n,
            ord.len() == n,
            forall|j: int| 0 <= j < n ==> (#[trigger] ord@[j]) < n,
            forall|a: int, b: int| 0 <= a < b < n ==> #[trigger] ord@[a] != #[trigger] ord@[b],
            forall|a: int, b: int| 0 <= a < b < t ==> placed_before(ls, ps, #[trigger] ord@[a] as int, #[trigger] ord@[b] as int),
        decreases n - t,
    {
        let mut j: usize = t;
        loop
            invariant
                j <= t < n,
                n == ls.len(),
                ls == layer@,
                ps == prio@,
                ps.len() == n,
                ord.len() == n,
                forall|q: int| 0 <= q < n ==> (#[trigger] ord@[q]) < n,
                forall|a: int, b: int| 0 <= a < b < n ==> #[trigger] ord@[a] != #[trigger] ord@[b],
                forall|a: int, b: int|
                    0 <= a < b <= t && a != j && b != j ==> placed_before(ls, ps, #[trigger] ord@[a] as int, #[trigger] ord@[b] as int),
                forall|b: int| j < b <= t ==> placed_before(ls, ps, ord@[j as int] as int, #[trigger] ord@[b] as int),
            ensures
                ord.len() == n,
                forall|q: int| 0 <= q < n ==> (#[trigger] ord@[q]) < n,
                forall|a: int, b: int| 0 <= a < b < n ==> #[trigger] ord@[a] != #[trigger] ord@[b],
                forall|a: int, b: int| 0 <= a < b <= t ==> placed_before(ls, ps, #[trigger] ord@[a] as int, #[trigger] ord@[b] as int),
            decreases j,
        {
            if j == 0 {
                break;
            }
            let x = ord[j];
            let y = ord[j - 1];
            let (px, py) = (prio[x], prio[y]);
            let (nx, ny) = (layer[x], layer[y]);
            let x_first = px > py || (px == py && (nx < ny || (nx == ny && x < y)));
            if !x_first {
                proof {
                    assert(x != y);
                    assert(placed_before(ls, ps, y as int, x as int));
                }
                break;
            }
            let ghost o0 = ord@;
            ord.set(j, y);
            ord.set(j - 1, x);
            proof {
                assert(ord@ == o0.update(j as int, y).update(j - 1, x));
                assert forall|a: int, b: int| 0 <= a < b < n implies #[trigger] ord@[a] != #[trigger] ord@[b] by {
                    let fa = if a == j { j - 1 } else if a == j - 1 { j as int } else { a };
                    let fb = if b == j { j - 1 } else if b == j - 1 { j as int } else { b };
                    assert(ord@[a] == o0[fa] && ord@[b] == o0[fb]);
                    assert(fa != fb);
                }
                assert forall|a: int, b: int|
                    0 <= a < b <= t && a != j - 1 && b != j - 1 implies placed_before(ls, ps, #[trigger] ord@[a] as int, #[trigger] ord@[b] as int) by {
                    if b == j {
                        assert(ord@[b] == o0[j - 1]);
                        assert(ord@[a] == o0[a]);
                    } else if a == j {
                        assert(ord@[a] == o0[j - 1]);
                        assert(ord@[b] == o0[b]);
                    }
                }
                assert forall|b: int| j - 1 < b <= t implies placed_before(ls, ps, ord@[j - 1] as int, #[trigger] ord@[b] as int) by {
                    if b > j {
                        assert(ord@[b] == o0[b]);
                    }
                }
            }
            j = j - 1;
        }
        t = t + 1;
    }
    ord
}

} // verus!
