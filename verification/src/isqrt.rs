//! Integer square roots, rounded up.

use vstd::prelude::*;

verus! {

/// `r` is the least natural number whose square reaches `n`.
pub open spec fn is_ceil_sqrt(n: nat, r: nat) -> bool {
    r * r >= n && (r > 0 ==> (r - 1) * (r - 1) < n)
}

/// The square root of `n`, rounded up to the next natural number.
pub open spec fn ceil_sqrt(n: nat) -> nat {
    choose|r: nat| is_ceil_sqrt(n, r)
}

/// Squaring is monotonic on the natural numbers.
pub proof fn lemma_square_monotonic(a: nat, b: nat)
    requires
        a <= b,
    ensures
        a * a <= b * b,
{
    assert(a * a <= b * b) by (nonlinear_arith)
        requires
            0 <= a <= b,
    ;
}

/// Every natural number has a rounded-up square root.
pub proof fn lemma_ceil_sqrt_exists(n: nat)
    ensures
        exists|r: nat| is_ceil_sqrt(n, r),
    decreases n,
{
    if n == 0 {
        assert(is_ceil_sqrt(0, 0));
    } else {
        let m: nat = (n - 1) as nat;
        lemma_ceil_sqrt_exists(m);
        let r: nat = choose|r: nat| is_ceil_sqrt(m, r);
        if r * r >= n {
            assert(is_ceil_sqrt(n, r));
        } else {
            assert((r + 1) * (r + 1) >= n) by (nonlinear_arith)
                requires
                    r * r >= n - 1,
                    r >= 0,
            ;
            assert(((r + 1) - 1) * ((r + 1) - 1) == r * r);
            assert(is_ceil_sqrt(n, r + 1));
        }
    }
}

/// The rounded-up square root is unique.
pub proof fn lemma_ceil_sqrt_unique(n: nat, r1: nat, r2: nat)
    requires
        is_ceil_sqrt(n, r1),
        is_ceil_sqrt(n, r2),
    ensures
        r1 == r2,
{
    if r1 < r2 {
        lemma_square_monotonic(r1, (r2 - 1) as nat);
    } else if r2 < r1 {
        lemma_square_monotonic(r2, (r1 - 1) as nat);
    }
}

/// `ceil_sqrt(n)` is the least natural number whose square reaches `n`.
pub proof fn lemma_ceil_sqrt(n: nat)
    ensures
        is_ceil_sqrt(n, ceil_sqrt(n)),
{
    lemma_ceil_sqrt_exists(n);
}

/// Whatever satisfies the definition is the rounded-up square root.
pub proof fn lemma_ceil_sqrt_is(n: nat, r: nat)
    requires
        is_ceil_sqrt(n, r),
    ensures
        ceil_sqrt(n) == r,
{
    lemma_ceil_sqrt(n);
    lemma_ceil_sqrt_unique(n, r, ceil_sqrt(n));
}

/// A number whose square reaches `n` bounds the rounded-up square root.
pub proof fn lemma_ceil_sqrt_at_most(n: nat, b: nat)
    requires
        b * b >= n,
    ensures
        ceil_sqrt(n) <= b,
{
    lemma_ceil_sqrt(n);
    let r: nat = ceil_sqrt(n);
    if r > b {
        lemma_square_monotonic(b, (r - 1) as nat);
    }
}

/// Computes the square root of `n`, rounded up, by bisection.
pub fn ceil_sqrt_u128(n: u128) -> (r: u128)
    ensures
        r == ceil_sqrt(n as nat),
        r <= 0x1_0000_0000_0000_0000,
{
    let mut lo: u128 = 0;
    let mut hi: u128 = 0x1_0000_0000_0000_0000;
    assert(0x1_0000_0000_0000_0000int * 0x1_0000_0000_0000_0000int > u128::MAX);
    while lo < hi
        invariant
            lo <= hi <= 0x1_0000_0000_0000_0000,
            hi * hi >= n,
            lo > 0 ==> (lo - 1) * (lo - 1) < n,
        decreases hi - lo,
    {
        let mid: u128 = lo + (hi - lo) / 2;
        proof {
            lemma_square_monotonic(mid as nat, 0xFFFF_FFFF_FFFF_FFFFnat);
            assert(0xFFFF_FFFF_FFFF_FFFFint * 0xFFFF_FFFF_FFFF_FFFFint <= u128::MAX);
        }
        if mid * mid >= n {
            hi = mid;
        } else {
            lo = mid + 1;
        }
    }
    proof {
        lemma_ceil_sqrt_is(n as nat, lo as nat);
    }
    lo
}

} // verus!
