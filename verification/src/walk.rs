use vstd::prelude::*;
use crate::graph::count_false;
use crate::graph::lemma_count_false_set;

verus! {

/// Push the children `ws[..k]` that are not yet seen, last first, marking
/// each one seen as it goes on the stack.
pub open spec fn push_children(ws: Seq<usize>, k: int, seen: Seq<bool>, stack: Seq<usize>) -> (Seq<bool>, Seq<usize>)
    decreases k,
{
    if k <= 0 {
        (seen, stack)
    } else {
        let w = ws[k - 1];
        if w < seen.len() && !seen[w as int] {
            push_children(ws, k - 1, seen.update(w as int, true), stack.push(w))
        } else {
            push_children(ws, k - 1, seen, stack)
        }
    }
}

/// Pushing children keeps the length of the seen list and trades each node
/// it marks seen for one new stack entry.
pub proof fn lemma_push_children(ws: Seq<usize>, k: int, seen: Seq<bool>, stack: Seq<usize>)
    ensures
        push_children(ws, k, seen, stack).0.len() == seen.len(),
        count_false(push_children(ws, k, seen, stack).0) + push_children(ws, k, seen, stack).1.len() == count_false(seen)
            + stack.len(),
        push_children(ws, k, seen, stack).1.len() >= stack.len(),
    decreases k,
{
    if k > 0 {
        let w = ws[k - 1];
        if w < seen.len() && !seen[w as int] {
            lemma_count_false_set(seen, w as int);
            lemma_push_children(ws, k - 1, seen.update(w as int, true), stack.push(w));
        } else {
            lemma_push_children(ws, k - 1, seen, stack);
        }
    }
}

/// Run the stack of the seeding walk dry: pop a node, append it to the
/// layer of its rank, push its unseen children so that the first child is
/// popped first.
pub open spec fn drain(
    down: Seq<Seq<usize>>,
    rank_of: Seq<usize>,
    seen: Seq<bool>,
    stack: Seq<usize>,
    out: Seq<Seq<usize>>,
) -> (Seq<bool>, Seq<Seq<usize>>)
    decreases 2 * count_false(seen) + stack.len(),
{
    if stack.len() == 0 {
        (seen, out)
    } else {
        let v = stack.last();
        let r = rank_of[v as int] as int;
        let out2 = if 0 <= r < out.len() {
            out.update(r, out[r].push(v))
        } else {
            out
        };
        let ws = if v < down.len() {
            down[v as int]
        } else {
            Seq::empty()
        };
        let next = push_children(ws, ws.len() as int, seen, stack.drop_last());
        proof {
            lemma_push_children(ws, ws.len() as int, seen, stack.drop_last());
            assert(count_false(next.0) <= count_false(seen));
        }
        drain(down, rank_of, next.0, next.1, out2)
    }
}

/// Walk from each root in turn, skipping the ones already reached.
pub open spec fn walk_roots(
    roots: Seq<usize>,
    down: Seq<Seq<usize>>,
    rank_of: Seq<usize>,
    seen: Seq<bool>,
    out: Seq<Seq<usize>>,
) -> (Seq<bool>, Seq<Seq<usize>>)
    decreases roots.len(),
{
    if roots.len() == 0 {
        (seen, out)
    } else {
        let root = roots[0];
        if root < seen.len() && !seen[root as int] {
            let d = drain(down, rank_of, seen.update(root as int, true), seq![root], out);
            walk_roots(roots.drop_first(), down, rank_of, d.0, d.1)
        } else {
            walk_roots(roots.drop_first(), down, rank_of, seen, out)
        }
    }
}

/// Walk from the roots of layers `r..` in order, layer by layer.
pub open spec fn walk_layers(
    layers: Seq<Seq<usize>>,
    down: Seq<Seq<usize>>,
    rank_of: Seq<usize>,
    r: int,
    seen: Seq<bool>,
    out: Seq<Seq<usize>>,
) -> Seq<Seq<usize>>
    decreases layers.len() - r,
{
    if r < 0 || r >= layers.len() {
        out
    } else {
        let w = walk_roots(layers[r], down, rank_of, seen, out);
        walk_layers(layers, down, rank_of, r + 1, w.0, w.1)
    }
}

/// The layers the depth-first seed produces: roots in each layer's order,
/// children in list order, each node appended to the layer of its rank when
/// the walk reaches it.
pub open spec fn dfs_layers(layers: Seq<Seq<usize>>, down: Seq<Seq<usize>>, rank_of: Seq<usize>) -> Seq<Seq<usize>> {
    walk_layers(
        layers,
        down,
        rank_of,
        0,
        Seq::new(down.len(), |v: int| false),
        Seq::new(layers.len(), |r: int| Seq::<usize>::empty()),
    )
}

} // verus!
