use vstd::prelude::*;

verus! {

/// Which way [`reachable`] walks the edges.
#[derive(Clone, Copy, PartialEq, Eq, Debug, Structural)]
pub enum Direction {
    /// Follow edges backwards: everything that leads *to* the start node.
    Upstream,
    /// Follow edges forwards: everything the start node leads to.
    Downstream,
}

/// The node an edge leaves when walked in `dir`.
pub open spec fn walk_from(e: (u32, u32), dir: Direction) -> int {
    match dir {
        Direction::Downstream => e.0 as int,
        Direction::Upstream => e.1 as int,
    }
}

/// The node an edge arrives at when walked in `dir`.
pub open spec fn walk_to(e: (u32, u32), dir: Direction) -> int {
    match dir {
        Direction::Downstream => e.1 as int,
        Direction::Upstream => e.0 as int,
    }
}

/// One step of a walk: some edge leads from `a` to `b` in direction `dir`.
pub open spec fn step(edges: Seq<(u32, u32)>, dir: Direction, a: int, b: int) -> bool {
    exists|k: int| 0 <= k < edges.len() && walk_from(#[trigger] edges[k], dir) == a && walk_to(edges[k], dir) == b
}

/// `p` is a walk over nodes `0..n`: every node in range, every consecutive
/// pair joined by an edge in direction `dir`.
pub open spec fn is_walk(n: int, edges: Seq<(u32, u32)>, dir: Direction, p: Seq<int>) -> bool {
    &&& p.len() >= 1
    &&& forall|i: int| 0 <= i < p.len() ==> 0 <= #[trigger] p[i] < n
    &&& forall|i: int| 0 <= i < p.len() - 1 ==> step(edges, dir, #[trigger] p[i], p[i + 1])
}

/// `to` can be reached from `from` by following edges in `dir` without
/// leaving the nodes `0..n` (the empty walk counts, so a node reaches itself).
pub open spec fn reaches(n: int, edges: Seq<(u32, u32)>, dir: Direction, from: int, to: int) -> bool {
    exists|p: Seq<int>| #[trigger] is_walk(n, edges, dir, p) && p[0] == from && p.last() == to
}

/// How many entries of `s` are still `false`.
pub open spec fn count_false(s: Seq<bool>) -> nat
    decreases s.len(),
{
    if s.len() == 0 {
        0
    } else {
        count_false(s.drop_last()) + (if s.last() { 0nat } else { 1nat })
    }
}

pub(crate) proof fn lemma_count_false_set(s: Seq<bool>, i: int)
    requires
        0 <= i < s.len(),
        !s[i],
    ensures
        count_false(s.update(i, true)) + 1 == count_false(s),
    decreases s.len(),
{
    let t = s.update(i, true);
    if i == s.len() - 1 {
        assert(t.drop_last() =~= s.drop_last());
    } else {
        assert(t.drop_last() =~= s.drop_last().update(i, true));
        lemma_count_false_set(s.drop_last(), i);
    }
}

/// Extending a walk by one more step.
proof fn lemma_walk_push(n: int, edges: Seq<(u32, u32)>, dir: Direction, p: Seq<int>, b: int)
    requires
        is_walk(n, edges, dir, p),
        0 <= b < n,
        step(edges, dir, p.last(), b),
    ensures
        is_walk(n, edges, dir, p.push(b)),
        p.push(b)[0] == p[0],
        p.push(b).last() == b,
{
    let q = p.push(b);
    assert forall|i: int| 0 <= i < q.len() - 1 implies step(edges, dir, #[trigger] q[i], q[i + 1]) by {
        if i < p.len() - 1 {
            assert(q[i] == p[i] && q[i + 1] == p[i + 1]);
        } else {
            assert(q[i] == p.last());
        }
    }
}

/// A set closed under steps contains every node reachable from its members.
proof fn lemma_closed_contains_walk(
    n: int,
    edges: Seq<(u32, u32)>,
    dir: Direction,
    seen: Seq<bool>,
    p: Seq<int>,
)
    requires
        seen.len() == n,
        is_walk(n, edges, dir, p),
        seen[p[0]],
        forall|a: int, b: int|
            0 <= a < n && 0 <= b < n && #[trigger] seen[a] && step(edges, dir, a, b) ==> #[trigger] seen[b],
    ensures
        seen[p.last()],
    decreases p.len(),
{
    if p.len() > 1 {
        let q = p.drop_last();
        assert forall|i: int| 0 <= i < q.len() - 1 implies step(edges, dir, #[trigger] q[i], q[i + 1]) by {
            assert(q[i] == p[i] && q[i + 1] == p[i + 1]);
        }
        assert(is_walk(n, edges, dir, q));
        lemma_closed_contains_walk(n, edges, dir, seen, q);
        let i = p.len() - 2;
        assert(step(edges, dir, p[i], p[i + 1]));
        assert(seen[p[i]]);
    }
}

/// Which nodes are reachable from `from` by following edges in `dir`,
/// including `from` itself. Out-of-range endpoints are skipped; a `from`
/// past the end reaches nothing.
pub fn reachable(n: usize, edges: &[(u32, u32)], from: usize, dir: Direction) -> (seen: Vec<bool>)
    ensures
        seen.len() == n,
        forall|v: int|
            0 <= v < n ==> (#[trigger] seen@[v] <==> (from < n && reaches(n as int, edges@, dir, from as int, v))),
{
    let mut seen: Vec<bool> = Vec::new();
    let mut i: usize = 0;
    while i < n
        invariant
            i <= n,
            seen.len() == i,
            forall|j: int| 0 <= j < i ==> !seen@[j],
        decreases n - i,
    {
        seen.push(false);
        i = i + 1;
    }
    if from >= n {
        return seen;
    }
    seen.set(from, true);
    let mut stack: Vec<usize> = Vec::new();
    stack.push(from);
    proof {
        let p = seq![from as int];
        assert(is_walk(n as int, edges@, dir, p));
        assert(stack@[0] == from);
        assert(stack@.contains(from));
        assert forall|v: int| 0 <= v < n && #[trigger] seen@[v] implies v == from by {}
    }
    while stack.len() > 0
        invariant
            from < n,
            seen.len() == n,
            seen@[from as int],
            forall|j: int| 0 <= j < stack.len() ==> (#[trigger] stack@[j] < n && seen@[stack@[j] as int]),
            forall|v: int| 0 <= v < n && #[trigger] seen@[v] ==> reaches(n as int, edges@, dir, from as int, v),
            forall|a: int, b: int|
                0 <= a < n && 0 <= b < n && #[trigger] seen@[a] && !stack@.contains(a as usize)
                    && step(edges@, dir, a, b) ==> #[trigger] seen@[b],
        decreases 2 * count_false(seen@) + stack.len(),
    {
        let ghost seen_start = seen@;
        let ghost stack_start = stack@;
        let a = stack.pop().unwrap();
        let ghost stack_before = stack@;
        proof {
            assert(stack_start =~= stack_before.push(a));
        }
        let mut k: usize = 0;
        while k < edges.len()
            invariant
                from < n,
                a < n,
                seen.len() == n,
                seen_start.len() == n,
                seen@[a as int],
                seen@[from as int],
                k <= edges.len(),
                stack_start == stack_before.push(a),
                stack_before.len() <= stack.len(),
                forall|j: int| 0 <= j < stack_before.len() ==> #[trigger] stack@[j] == stack_before[j],
                2 * count_false(seen@) + stack.len() + (stack.len() - stack_before.len())
                    == 2 * count_false(seen_start) + stack_before.len(),
                forall|v: int| 0 <= v < n && #[trigger] seen_start[v] ==> seen@[v],
                forall|v: int| 0 <= v < n && #[trigger] seen@[v] && !seen_start[v] ==> stack@.contains(v as usize),
                forall|j: int| 0 <= j < stack.len() ==> (#[trigger] stack@[j] < n && seen@[stack@[j] as int]),
                forall|v: int| 0 <= v < n && #[trigger] seen@[v] ==> reaches(n as int, edges@, dir, from as int, v),
                forall|c: int, b: int|
                    0 <= c < n && 0 <= b < n && #[trigger] seen_start[c] && !stack_start.contains(c as usize)
                        && step(edges@, dir, c, b) ==> #[trigger] seen_start[b],
                forall|j: int|
                    0 <= j < k && walk_from(#[trigger] edges@[j], dir) == a && walk_to(edges@[j], dir) < n
                        ==> seen@[walk_to(edges@[j], dir)],
            decreases edges.len() - k,
        {
            let (x, y) = edges[k];
            let (from_i, to_i) = match dir {
                Direction::Downstream => (x as usize, y as usize),
                Direction::Upstream => (y as usize, x as usize),
            };
            if from_i == a && to_i < n && !seen[to_i] {
                proof {
                    assert(step(edges@, dir, a as int, to_i as int));
                    let p = choose|p: Seq<int>| #[trigger] is_walk(n as int, edges@, dir, p) && p[0] == from && p.last() == a;
                    lemma_walk_push(n as int, edges@, dir, p, to_i as int);
                    lemma_count_false_set(seen@, to_i as int);
                }
                let ghost stack_prev = stack@;
                seen.set(to_i, true);
                stack.push(to_i);
                proof {
                    assert forall|v: int| 0 <= v < n && #[trigger] seen@[v] && !seen_start[v] implies stack@.contains(v as usize) by {
                        if v == to_i {
                            assert(stack@[stack@.len() - 1] == to_i);
                        } else {
                            assert(stack_prev.contains(v as usize));
                            let j = choose|j: int| 0 <= j < stack_prev.len() && stack_prev[j] == v as usize;
                            assert(stack@[j] == v as usize);
                        }
                    }
                }
            }
            k = k + 1;
        }
        proof {
            assert forall|c: int, b: int|
                0 <= c < n && 0 <= b < n && #[trigger] seen@[c] && !stack@.contains(c as usize)
                    && step(edges@, dir, c, b) implies #[trigger] seen@[b] by {
                if c == a {
                    let j = choose|j: int| 0 <= j < edges@.len() && walk_from(#[trigger] edges@[j], dir) == c && walk_to(edges@[j], dir) == b;
                } else {
                    if !seen_start[c] {
                        assert(stack@.contains(c as usize));
                    }
                    if stack_start.contains(c as usize) {
                        let j = choose|j: int| 0 <= j < stack_start.len() && stack_start[j] == c as usize;
                        assert(j < stack_before.len());
                        assert(stack@[j] == c as usize);
                    }
                    assert(seen_start[b]);
                }
            }
        }
    }
    proof {
        assert forall|v: int| 0 <= v < n && reaches(n as int, edges@, dir, from as int, v) implies #[trigger] seen@[v] by {
            let p = choose|p: Seq<int>| #[trigger] is_walk(n as int, edges@, dir, p) && p[0] == from && p.last() == v;
            lemma_closed_contains_walk(n as int, edges@, dir, seen@, p);
        }
    }
    seen
}

/// The other direction.
pub open spec fn flipped(dir: Direction) -> Direction {
    match dir {
        Direction::Downstream => Direction::Upstream,
        Direction::Upstream => Direction::Downstream,
    }
}

/// Every edge turned around.
pub open spec fn swapped(edges: Seq<(u32, u32)>) -> Seq<(u32, u32)> {
    edges.map_values(|e: (u32, u32)| (e.1, e.0))
}

/// A walk read backwards is a walk the other way.
proof fn lemma_walk_reverse(n: int, edges: Seq<(u32, u32)>, dir: Direction, p: Seq<int>)
    requires
        is_walk(n, edges, dir, p),
    ensures
        is_walk(n, edges, flipped(dir), p.reverse()),
        p.reverse()[0] == p.last(),
        p.reverse().last() == p[0],
{
    let q = p.reverse();
    let m = p.len();
    assert forall|i: int| 0 <= i < q.len() implies 0 <= #[trigger] q[i] < n by {
        assert(q[i] == p[m - 1 - i]);
    }
    assert forall|i: int| 0 <= i < q.len() - 1 implies step(edges, flipped(dir), #[trigger] q[i], q[i + 1]) by {
        let a = m - 2 - i;
        assert(q[i] == p[a + 1] && q[i + 1] == p[a]);
        assert(step(edges, dir, p[a], p[a + 1]));
        let k = choose|k: int| 0 <= k < edges.len() && walk_from(#[trigger] edges[k], dir) == p[a] && walk_to(edges[k], dir) == p[a + 1];
        assert(walk_from(edges[k], flipped(dir)) == p[a + 1] && walk_to(edges[k], flipped(dir)) == p[a]);
    }
}

/// A walk over the edges in `Upstream` is the same walk over the swapped
/// edges `Downstream`, and the other way about.
proof fn lemma_walk_swapped(n: int, edges: Seq<(u32, u32)>, p: Seq<int>)
    ensures
        is_walk(n, edges, Direction::Upstream, p) == is_walk(n, swapped(edges), Direction::Downstream, p),
{
    let sw = swapped(edges);
    assert forall|a: int, b: int| step(edges, Direction::Upstream, a, b) == step(sw, Direction::Downstream, a, b) by {
        if step(edges, Direction::Upstream, a, b) {
            let k = choose|k: int| 0 <= k < edges.len() && walk_from(#[trigger] edges[k], Direction::Upstream) == a && walk_to(edges[k], Direction::Upstream) == b;
            assert(walk_from(sw[k], Direction::Downstream) == a && walk_to(sw[k], Direction::Downstream) == b);
        }
        if step(sw, Direction::Downstream, a, b) {
            let k = choose|k: int| 0 <= k < sw.len() && walk_from(#[trigger] sw[k], Direction::Downstream) == a && walk_to(sw[k], Direction::Downstream) == b;
            assert(walk_from(edges[k], Direction::Upstream) == a && walk_to(edges[k], Direction::Upstream) == b);
        }
    }
    if p.len() >= 1 {
        assert forall|i: int| 0 <= i < p.len() - 1 implies step(edges, Direction::Upstream, #[trigger] p[i], p[i + 1]) == step(sw, Direction::Downstream, p[i], p[i + 1]) by {}
    }
}

/// Law: `b` lies downstream of `a` exactly when `a` lies upstream of `b` —
/// a walk read backwards is a walk against the edges.
pub proof fn downstream_is_upstream_reversed(n: int, edges: Seq<(u32, u32)>, a: int, b: int)
    ensures
        reaches(n, edges, Direction::Downstream, a, b) == reaches(n, edges, Direction::Upstream, b, a),
{
    if reaches(n, edges, Direction::Downstream, a, b) {
        let p = choose|p: Seq<int>| #[trigger] is_walk(n, edges, Direction::Downstream, p) && p[0] == a && p.last() == b;
        lemma_walk_reverse(n, edges, Direction::Downstream, p);
        assert(is_walk(n, edges, Direction::Upstream, p.reverse()));
    }
    if reaches(n, edges, Direction::Upstream, b, a) {
        let p = choose|p: Seq<int>| #[trigger] is_walk(n, edges, Direction::Upstream, p) && p[0] == b && p.last() == a;
        lemma_walk_reverse(n, edges, Direction::Upstream, p);
        assert(is_walk(n, edges, Direction::Downstream, p.reverse()));
    }
}

/// Law: walking against the edges is walking along the swapped edge list.
pub proof fn upstream_is_downstream_on_swapped_edges(n: int, edges: Seq<(u32, u32)>, a: int, b: int)
    ensures
        reaches(n, edges, Direction::Upstream, a, b) == reaches(n, swapped(edges), Direction::Downstream, a, b),
{
    if reaches(n, edges, Direction::Upstream, a, b) {
        let p = choose|p: Seq<int>| #[trigger] is_walk(n, edges, Direction::Upstream, p) && p[0] == a && p.last() == b;
        lemma_walk_swapped(n, edges, p);
    }
    if reaches(n, swapped(edges), Direction::Downstream, a, b) {
        let p = choose|p: Seq<int>| #[trigger] is_walk(n, swapped(edges), Direction::Downstream, p) && p[0] == a && p.last() == b;
        lemma_walk_swapped(n, edges, p);
    }
}

} // verus!
