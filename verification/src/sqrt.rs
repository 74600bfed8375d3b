//! Integer square roots.
use vstd::prelude::*;

verus! {

/// `r` is the largest integer whose square is at most `n`.
pub open spec fn is_floor_sqrt(n: int, r: int) -> bool {
    &&& 0 <= r
    &&& r * r <= n
    &&& n < (r + 1) * (r + 1)
}

/// The square root of `n`, rounded down.
pub open spec fn floor_sqrt(n: int) -> int {
    choose|r: int| is_floor_sqrt(n, r)
}

/// There is only one rounded-down square root.
pub proof fn lemma_floor_sqrt_unique(n: int, r: int)
    requires
        is_floor_sqrt(n, r),
    ensures
        floor_sqrt(n) == r,
{
    let s = floor_sqrt(n);
    assert(is_floor_sqrt(n, s));
    assert(s == r) by (nonlinear_arith)
        requires
            0 <= r,
            0 <= s,
            r * r <= n < (r + 1) * (r + 1),
            s * s <= n < (s + 1) * (s + 1),
    ;
}

/// Every non-negative integer has a rounded-down square root.
pub proof fn lemma_floor_sqrt_exists(n: int)
    requires
        0 <= n,
    ensures
        is_floor_sqrt(n, floor_sqrt(n)),
    decreases n,
{
    if n == 0 {
        assert(is_floor_sqrt(0, 0));
    } else {
        lemma_floor_sqrt_exists(n - 1);
        let r = floor_sqrt(n - 1);
        if (r + 1) * (r + 1) <= n {
            assert(n < (r + 2) * (r + 2)) by (nonlinear_arith)
                requires
                    n - 1 < (r + 1) * (r + 1),
                    0 <= r,
            ;
            assert(is_floor_sqrt(n, r + 1));
        } else {
            assert(is_floor_sqrt(n, r));
        }
    }
}

/// One step of Newton's method from an `x` that is not too small lands on a `y` that is not too
/// small either, and moves down unless `x` is already the root.
pub(crate) proof fn lemma_newton_step(n: int, x: int)
    requires
        0 < x,
        0 < n,
        n < (x + 1) * (x + 1),
    ensures
        ({
            let y = (x + n / x) / 2;
            &&& 0 <= n / x <= n
            &&& n < (y + 1) * (y + 1)
            &&& y >= x ==> x * x <= n
            &&& 1 <= y
            &&& x <= n ==> x + n / x <= n + 1
        }),
{
    let q = n / x;
    let y = (x + q) / 2;
    assert(x * q <= n < x * (q + 1) && 0 <= q <= n) by (nonlinear_arith)
        requires
            q == n / x,
            0 < x,
            0 < n,
    ;
    assert(2 * (y + 1) >= x + q + 1);
    assert(x == 1 ==> q == n);
    if x <= n {
        assert(x + q <= n + 1) by (nonlinear_arith)
            requires
                x * q <= n,
                0 < x <= n,
                0 <= q,
        ;
    }
    assert(n < (y + 1) * (y + 1)) by (nonlinear_arith)
        requires
            2 * (y + 1) >= x + (q + 1),
            n < x * (q + 1),
            0 < x,
            0 <= q,
    {
        let a = x + (q + 1);
        let b = 2 * (y + 1);
        assert((x - (q + 1)) * (x - (q + 1)) >= 0);
        assert(a * a >= 4 * (x * (q + 1)));
        assert(b * b >= a * a);
        assert(b * b == 4 * ((y + 1) * (y + 1)));
    }
    if y >= x {
        assert(q >= x);
        assert(x * x <= n) by (nonlinear_arith)
            requires
                x * q <= n,
                q >= x,
                0 < x,
        ;
    }
}

} // verus!
