use vstd::prelude::*;

verus! {

/// The whole step between shown categories when the view holds `first` to
/// `last` and about `target` labels fit: the smallest stride that keeps at
/// most `target` of them (a `target` of 0 counts as 1).
pub open spec fn category_stride(first: int, last: int, target: int) -> int {
    let n = last - first + 1;
    let t = if target > 0 {
        target
    } else {
        1
    };
    (n + t - 1) / t
}

/// Which categories a view labels: every stride-th index from `first` up
/// to `last`. Thinning by a whole stride keeps each label on its own
/// category.
pub fn category_picks(first: usize, last: usize, target: usize) -> (r: Vec<usize>)
    requires
        first <= last < usize::MAX,
    ensures
        r.len() == (last - first) / category_stride(first as int, last as int, target as int) + 1,
        forall|q: int| 0 <= q < r.len() ==> #[trigger] r@[q] == first + q * category_stride(first as int, last as int, target as int),
{
    let t = if target > 0 {
        target
    } else {
        1
    };
    let n = last - first + 1;
    proof {
        assert(n / t + 1 <= usize::MAX || n % t == 0) by (nonlinear_arith)
            requires
                n >= 1,
                t >= 1,
                n <= usize::MAX,
        ;
    }
    let stride = n / t + if n % t == 0 {
        0
    } else {
        1
    };
    proof {
        let s = category_stride(first as int, last as int, target as int);
        assert(stride == s) by (nonlinear_arith)
            requires
                n >= 1,
                t >= 1,
                stride == (n as int) / (t as int) + if n % t == 0 {
                    0int
                } else {
                    1int
                },
                s == (n + t - 1) / (t as int),
        ;
        assert(stride >= 1) by (nonlinear_arith)
            requires
                n >= 1,
                t >= 1,
                stride == (n + t - 1) / (t as int),
        ;
    }
    let mut picks: Vec<usize> = Vec::new();
    let mut i = first;
    let ghost mut q: int = 0;
    loop
        invariant_except_break
            picks.len() == q,
        invariant
            first <= i <= last,
            stride >= 1,
            stride == category_stride(first as int, last as int, target as int),
            i == first + q * stride,
            q >= 0,
            q <= (last - first) / (stride as int),
            forall|p: int| 0 <= p < picks.len() ==> #[trigger] picks@[p] == first + p * stride,
        ensures
            picks.len() == (last - first) / (stride as int) + 1,
            forall|p: int| 0 <= p < picks.len() ==> #[trigger] picks@[p] == first + p * stride,
        decreases last - i,
    {
        picks.push(i);
        proof {
            assert(picks@[q] == first + q * stride);
        }
        if last - i < stride {
            proof {
                assert(q == (last - first) / (stride as int)) by (nonlinear_arith)
                    requires
                        i == first + q * stride,
                        last - i < stride,
                        first <= i <= last,
                        stride >= 1,
                        q >= 0,
                ;
            }
            break;
        }
        proof {
            assert(q + 1 <= (last - first) / (stride as int)) by (nonlinear_arith)
                requires
                    i == first + q * stride,
                    last - i >= stride,
                    stride >= 1,
                    q >= 0,
            ;
            assert(i + stride == first + (q + 1) * stride) by (nonlinear_arith)
                requires
                    i == first + q * stride,
            ;
            q = q + 1;
        }
        i = i + stride;
    }
    picks
}

/// Law: thinning keeps at most `target` labels (at least one when the view
/// holds a category, even for a `target` of 0).
pub proof fn category_picks_fit_the_target(first: int, last: int, target: int)
    requires
        0 <= first <= last,
        target >= 0,
    ensures
        1 <= (last - first) / category_stride(first, last, target) + 1 <= if target > 0 {
            target
        } else {
            1
        },
{
    let n = last - first + 1;
    let t = if target > 0 {
        target
    } else {
        1
    };
    let s = category_stride(first, last, target);
    assert(s >= 1 && s * t >= n) by (nonlinear_arith)
        requires
            n >= 1,
            t >= 1,
            s == (n + t - 1) / t,
    ;
    assert((n - 1) / s + 1 <= t) by (nonlinear_arith)
        requires
            n >= 1,
            t >= 1,
            s >= 1,
            s * t >= n,
    ;
    assert((n - 1) / s >= 0) by (nonlinear_arith)
        requires
            n >= 1,
            s >= 1,
    ;
}

} // verus!
