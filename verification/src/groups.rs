use vstd::prelude::*;

verus! {

/// Where group `g` of a flat sample of `n` values lies: from its start to
/// the next group's start (the last group runs to the end), or nothing when
/// those offsets run backwards or past the end.
pub open spec fn group_bounds(starts: Seq<u32>, n: int, g: int) -> (int, int) {
    let a = starts[g] as int;
    let b = if g + 1 < starts.len() {
        starts[g + 1] as int
    } else {
        n
    };
    if a <= b && b <= n {
        (a, b)
    } else {
        (0, 0)
    }
}

/// Run `g` of a flat list split at `starts`, copied out.
fn run_of<T: Copy>(values: &[T], starts: &[u32], g: usize) -> (r: Vec<T>)
    requires
        g < starts@.len(),
    ensures
        r@ == values@.subrange(group_bounds(starts@, values@.len() as int, g as int).0, group_bounds(starts@, values@.len() as int, g as int).1),
{
    let n = values.len();
    let a = starts[g] as usize;
    let b = if g + 1 < starts.len() {
        starts[g + 1] as usize
    } else {
        n
    };
    let mut run: Vec<T> = Vec::new();
    if a <= b && b <= n {
        let mut i: usize = a;
        while i < b
            invariant
                a <= i <= b <= n,
                n == values@.len(),
                run@ == values@.subrange(a as int, i as int),
            decreases b - i,
        {
            run.push(values[i]);
            proof {
                assert(run@ =~= values@.subrange(a as int, i + 1));
            }
            i = i + 1;
        }
    }
    proof {
        let (lo, hi) = group_bounds(starts@, n as int, g as int);
        if a <= b && b <= n {
            assert(lo == a && hi == b);
        } else {
            assert(run@ =~= values@.subrange(lo, hi));
        }
    }
    run
}

/// Edge `e`'s waypoints out of the flat list `pts` split at `starts`, read
/// the way [`box_groups`] reads its groups: a run that runs off the end, or
/// backwards, is empty — a straight edge — and so is an edge past the end
/// of `starts`.
pub fn edge_route<T: Copy>(pts: &[T], starts: &[u32], e: usize) -> (r: Vec<T>)
    ensures
        e >= starts@.len() ==> r@.len() == 0,
        e < starts@.len() ==> r@ == pts@.subrange(
            group_bounds(starts@, pts@.len() as int, e as int).0,
            group_bounds(starts@, pts@.len() as int, e as int).1,
        ),
{
    if e >= starts.len() {
        return Vec::new();
    }
    run_of(pts, starts, e)
}

/// Split the flat sample into its groups. A `group_starts` that runs past
/// the end, or backwards, yields an empty group rather than failing.
pub fn box_groups<T: Copy>(values: &[T], group_starts: &[u32]) -> (r: Vec<Vec<T>>)
    ensures
        r.len() == group_starts.len(),
        forall|g: int|
            0 <= g < r.len() ==> (#[trigger] r@[g])@ == values@.subrange(
                group_bounds(group_starts@, values@.len() as int, g).0,
                group_bounds(group_starts@, values@.len() as int, g).1,
            ),
{
    let n = values.len();
    let mut out: Vec<Vec<T>> = Vec::new();
    let mut g: usize = 0;
    while g < group_starts.len()
        invariant
            g <= group_starts.len(),
            n == values@.len(),
            out.len() == g,
            forall|h: int|
                0 <= h < g ==> (#[trigger] out@[h])@ == values@.subrange(
                    group_bounds(group_starts@, n as int, h).0,
                    group_bounds(group_starts@, n as int, h).1,
                ),
        decreases group_starts.len() - g,
    {
        let group = run_of(values, group_starts, g);
        out.push(group);
        g = g + 1;
    }
    out
}

} // verus!
