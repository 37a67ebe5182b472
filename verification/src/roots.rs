//! Integer square roots, cube roots and binary logarithms, rounded down.

use vstd::arithmetic::div_mod::lemma_remainder;
use vstd::arithmetic::logarithm::{lemma_log0, lemma_log_nonnegative, lemma_log_s, log};
use vstd::arithmetic::power2::{lemma2_to64, lemma2_to64_rest, lemma_pow2_unfold, pow2};
use vstd::prelude::*;

verus! {

/// `r` is the square root of `x`, rounded down.
pub open spec fn is_sqrt(x: int, r: int) -> bool {
    0 <= r && r * r <= x < (r + 1) * (r + 1)
}

/// `r` is the cube root of `x`, rounded down.
pub open spec fn is_cbrt(x: int, r: int) -> bool {
    0 <= r && r * r * r <= x < (r + 1) * (r + 1) * (r + 1)
}

/// The square root of `x`, rounded down.
pub open spec fn sqrt_floor(x: int) -> int {
    choose|r: int| is_sqrt(x, r)
}

/// The cube root of `x`, rounded down.
pub open spec fn cbrt_floor(x: int) -> int {
    choose|r: int| is_cbrt(x, r)
}

/// Squares grow with their base.
pub proof fn lemma_square_ordered(a: int, b: int)
    requires
        0 <= a <= b,
    ensures
        a * a <= b * b,
{
    assert(a * a <= a * b) by (nonlinear_arith)
        requires
            0 <= a <= b,
    ;
    assert(a * b <= b * b) by (nonlinear_arith)
        requires
            0 <= a <= b,
    ;
}

/// Cubes grow with their base.
pub proof fn lemma_cube_ordered(a: int, b: int)
    requires
        0 <= a <= b,
    ensures
        a * a * a <= b * b * b,
{
    lemma_square_ordered(a, b);
    assert(a * a * a <= b * b * a) by (nonlinear_arith)
        requires
            0 <= a,
            0 <= a * a <= b * b,
    ;
    assert(b * b * a <= b * b * b) by (nonlinear_arith)
        requires
            0 <= a <= b,
            0 <= b * b,
    ;
}

/// Every number that is not negative has a square root rounded down.
pub proof fn lemma_sqrt_exists(x: int)
    requires
        0 <= x,
    ensures
        is_sqrt(x, sqrt_floor(x)),
    decreases x,
{
    if x == 0 {
        assert(is_sqrt(x, 0));
    } else {
        lemma_sqrt_exists(x - 1);
        let r = sqrt_floor(x - 1);
        if (r + 1) * (r + 1) <= x {
            assert((r + 2) * (r + 2) > (r + 1) * (r + 1)) by (nonlinear_arith)
                requires
                    0 <= r,
            ;
            assert(is_sqrt(x, r + 1));
        } else {
            assert(is_sqrt(x, r));
        }
    }
}

/// Every number that is not negative has a cube root rounded down.
pub proof fn lemma_cbrt_exists(x: int)
    requires
        0 <= x,
    ensures
        is_cbrt(x, cbrt_floor(x)),
    decreases x,
{
    if x == 0 {
        assert(is_cbrt(x, 0));
    } else {
        lemma_cbrt_exists(x - 1);
        let r = cbrt_floor(x - 1);
        if (r + 1) * (r + 1) * (r + 1) <= x {
            lemma_cube_ordered(r + 1, r + 2);
            assert((r + 2) * (r + 2) * (r + 2) != (r + 1) * (r + 1) * (r + 1)) by (nonlinear_arith)
                requires
                    0 <= r,
            ;
            assert(is_cbrt(x, r + 1));
        } else {
            assert(is_cbrt(x, r));
        }
    }
}

/// A number has one square root rounded down.
pub proof fn lemma_sqrt_unique(x: int, r: int)
    requires
        is_sqrt(x, r),
    ensures
        sqrt_floor(x) == r,
{
    let c = sqrt_floor(x);
    assert(is_sqrt(x, c));
    if c < r {
        lemma_square_ordered(c + 1, r);
    }
    if r < c {
        lemma_square_ordered(r + 1, c);
    }
}

/// A number has one cube root rounded down.
pub proof fn lemma_cbrt_unique(x: int, r: int)
    requires
        is_cbrt(x, r),
    ensures
        cbrt_floor(x) == r,
{
    let c = cbrt_floor(x);
    assert(is_cbrt(x, c));
    if c < r {
        lemma_cube_ordered(c + 1, r);
    }
    if r < c {
        lemma_cube_ordered(r + 1, c);
    }
}

/// The square root of `x`, rounded down.
pub fn floor_sqrt(x: u128) -> (r: u128)
    ensures
        is_sqrt(x as int, r as int),
        r == sqrt_floor(x as int),
        r < 0x1_0000_0000_0000_0000,
{
    let mut lo: u128 = 0;
    let mut hi: u128 = 0x1_0000_0000_0000_0000;
    assert(0x1_0000_0000_0000_0000int * 0x1_0000_0000_0000_0000int > u128::MAX) by (nonlinear_arith);
    while hi - lo > 1
        invariant
            lo < hi <= 0x1_0000_0000_0000_0000,
            lo * lo <= x < hi * hi,
        decreases hi - lo,
    {
        let mid: u128 = lo + (hi - lo) / 2;
        proof {
            lemma_square_ordered(mid as int, 0xffff_ffff_ffff_ffff);
            assert(0xffff_ffff_ffff_ffffint * 0xffff_ffff_ffff_ffffint <= u128::MAX)
                by (nonlinear_arith);
        }
        if mid * mid <= x {
            lo = mid;
        } else {
            hi = mid;
        }
    }
    proof {
        lemma_sqrt_unique(x as int, lo as int);
    }
    lo
}

/// The cube root of `x`, rounded down.
pub fn floor_cbrt(x: u128) -> (r: u128)
    ensures
        is_cbrt(x as int, r as int),
        r == cbrt_floor(x as int),
        r < 0x800_0000_0000,
{
    let mut lo: u128 = 0;
    let mut hi: u128 = 0x800_0000_0000;
    assert(0x800_0000_0000int * 0x800_0000_0000int * 0x800_0000_0000int > u128::MAX)
        by (nonlinear_arith);
    while hi - lo > 1
        invariant
            lo < hi <= 0x800_0000_0000,
            lo * lo * lo <= x < hi * hi * hi,
        decreases hi - lo,
    {
        let mid: u128 = lo + (hi - lo) / 2;
        proof {
            lemma_square_ordered(mid as int, 0x800_0000_0000);
            assert(0x800_0000_0000int * 0x800_0000_0000int <= u128::MAX) by (nonlinear_arith);
            lemma_remainder(x as int, mid as int);
        }
        let square: u128 = mid * mid;
        let fits: bool = square <= x / mid;
        proof {
            let q = x as int / mid as int;
            if fits {
                assert(square * mid <= q * mid) by (nonlinear_arith)
                    requires
                        0 <= square <= q,
                        0 <= mid,
                ;
            } else {
                assert(square * mid >= (q + 1) * mid) by (nonlinear_arith)
                    requires
                        square >= q + 1,
                        0 <= mid,
                ;
                assert((q + 1) * mid == q * mid + mid) by (nonlinear_arith);
            }
            assert(fits <==> mid * mid * mid <= x);
        }
        if fits {
            lo = mid;
        } else {
            hi = mid;
        }
    }
    proof {
        lemma_cbrt_unique(x as int, lo as int);
    }
    lo
}

/// The binary logarithm of `n`, rounded down.
pub fn floor_log2(n: u128) -> (b: u128)
    requires
        n >= 1,
    ensures
        b == log(2, n as int),
        b <= 127,
{
    let mut b: u128 = 0;
    let mut rest: u128 = n;
    proof {
        lemma_log_bound(n as int);
    }
    while rest >= 2
        invariant
            rest >= 1,
            b + log(2, rest as int) == log(2, n as int),
            log(2, n as int) <= 127,
            log(2, rest as int) >= 0,
        decreases rest,
    {
        proof {
            lemma_log_s(2, rest as int);
            lemma_log_nonnegative(2, rest as int / 2);
        }
        rest = rest / 2;
        b = b + 1;
    }
    proof {
        lemma_log0(2, rest as int);
    }
    b
}

/// The binary logarithm of a number below `2^128` is at most 127.
pub proof fn lemma_log_bound(n: int)
    requires
        1 <= n <= u128::MAX,
    ensures
        0 <= log(2, n) <= 127,
{
    lemma_log_nonnegative(2, n);
    lemma2_to64();
    lemma2_to64_rest();
    vstd::arithmetic::power2::lemma_pow2_adds(63, 64);
    assert(0x8000_0000_0000_0000int * 0x1_0000_0000_0000_0000int
        == 0x8000_0000_0000_0000_0000_0000_0000_0000int) by (nonlinear_arith);
    assert(pow2(63) * pow2(64) == pow2(127));
    lemma_log_below_power(n, 127);
}

/// A number below `2^(e + 1)` has a binary logarithm of at most `e`.
pub proof fn lemma_log_below_power(n: int, e: nat)
    requires
        1 <= n < 2 * pow2(e),
    ensures
        log(2, n) <= e,
    decreases e,
{
    if n < 2 {
        lemma_log0(2, n);
    } else {
        lemma_log_s(2, n);
        if e == 0 {
            lemma2_to64();
        } else {
            lemma_pow2_unfold(e);
            lemma_log_below_power(n / 2, (e - 1) as nat);
        }
    }
}

} // verus!
