//! The sampling step of the selection: for a long range, a much shorter
//! window around the wanted position that is expected to hold the entry of
//! the wanted rank once it is partitioned.
//!
//! With `n` the length of the range and `m` the rank within it, the window
//! has the width `s = n^(2/3) / 2` and starts at `k - m * s / n`, moved by
//! the deviation `sqrt(z * s * (n - s) / n) / 2` towards the middle of the
//! range, where `z` stands for the natural logarithm of `n`. All of it is
//! computed in integers, rounded down, with `7/10` of the binary logarithm
//! for the natural one.

use crate::roots::{
    cbrt_floor, floor_cbrt, floor_log2, floor_sqrt, is_cbrt, is_sqrt, lemma_cbrt_exists,
    lemma_cube_ordered, lemma_log_below_power, lemma_sqrt_exists, lemma_square_ordered,
    sqrt_floor,
};
use vstd::arithmetic::div_mod::{lemma_div_is_ordered, lemma_div_multiples_vanish, lemma_remainder};
use vstd::arithmetic::logarithm::{lemma_log_nonnegative, log};
use vstd::arithmetic::power2::{lemma2_to64, lemma2_to64_rest};
use vstd::prelude::*;

verus! {

/// The width of the window for a range of `n` positions.
pub open spec fn spread(n: int) -> int {
    cbrt_floor(n * n) / 2
}

/// The deviation by which the window is moved, for a range of `n` positions.
pub open spec fn deviation(n: int) -> int {
    sqrt_floor(7 * log(2, n) * spread(n) * (n - spread(n)) / (10 * n)) / 2
}

/// The estimated start of the window for the position `k` of `[left, right]`.
pub open spec fn estimate(k: int, left: int, right: int) -> int {
    let n = right - left + 1;
    let m = k - left + 1;
    if 2 * m < n {
        k - m * spread(n) / n - deviation(n)
    } else {
        k - m * spread(n) / n + deviation(n)
    }
}

/// The window for the position `k` of `[left, right]`: from the estimate to
/// the estimate plus the width, cut to the range.
pub open spec fn window(k: int, left: int, right: int) -> (int, int) {
    let r = estimate(k, left, right);
    let s = spread(right - left + 1);
    (
        if r > left {
            r
        } else {
            left
        },
        if r + s < right {
            r + s
        } else {
            right
        },
    )
}

/// The width of the window is at least 32, at least 7/10 of the binary
/// logarithm of the length, and less than half the length.
pub proof fn lemma_spread_bounds(n: int)
    requires
        601 <= n < 0x1_0000_0000_0000_0000,
    ensures
        32 <= spread(n) < 0x400_0000_0000,
        2 * spread(n) < n,
        0 <= log(2, n) <= 63,
        7 * log(2, n) <= 10 * spread(n),
        is_cbrt(n * n, cbrt_floor(n * n)),
{
    let c = cbrt_floor(n * n);
    assert(n * n >= 0) by (nonlinear_arith);
    lemma_cbrt_exists(n * n);
    if c >= n {
        lemma_cube_ordered(n, c);
        assert(n * n * n > n * n) by (nonlinear_arith)
            requires
                n >= 2,
        ;
    }
    if c >= 0x800_0000_0000 {
        lemma_cube_ordered(0x800_0000_0000, c);
        lemma_square_ordered(n, 0xffff_ffff_ffff_ffff);
        assert(0x800_0000_0000int * 0x800_0000_0000int * 0x800_0000_0000int
            > 0xffff_ffff_ffff_ffffint * 0xffff_ffff_ffff_ffffint) by (nonlinear_arith);
    }
    lemma_square_ordered(601, n);
    if c < 64 {
        lemma_cube_ordered(c + 1, 64);
    }
    lemma_log_nonnegative(2, n);
    lemma2_to64();
    lemma2_to64_rest();
    lemma_log_below_power(n, 63);
    if n < 1024 {
        lemma_log_below_power(n, 9);
    } else {
        lemma_square_ordered(1024, n);
        if c < 90 {
            lemma_cube_ordered(c + 1, 90);
        }
    }
}

/// The deviation is at most half the width.
pub proof fn lemma_deviation_bounds(n: int)
    requires
        601 <= n < 0x1_0000_0000_0000_0000,
    ensures
        0 <= deviation(n) <= spread(n) / 2,
        0 <= 7 * log(2, n) * spread(n) * (n - spread(n)) < 0x10_0000_0000_0000_0000_0000_0000_0000,
        is_sqrt(
            7 * log(2, n) * spread(n) * (n - spread(n)) / (10 * n),
            sqrt_floor(7 * log(2, n) * spread(n) * (n - spread(n)) / (10 * n)),
        ),
{
    lemma_spread_bounds(n);
    let s = spread(n);
    let l7 = 7 * log(2, n);
    let top = l7 * s * (n - s);
    let x = top / (10 * n);
    assert(0 <= l7 * s <= 10 * s * s) by (nonlinear_arith)
        requires
            0 <= l7 <= 10 * s,
            0 <= s,
    ;
    assert(0 <= top <= (l7 * s) * n) by (nonlinear_arith)
        requires
            top == l7 * s * (n - s),
            0 <= l7 * s,
            0 <= s < n,
    ;
    assert((l7 * s) * n <= (10 * s * s) * n) by (nonlinear_arith)
        requires
            l7 * s <= 10 * s * s,
            0 <= n,
    ;
    assert((10 * s * s) * n == (10 * n) * (s * s)) by (nonlinear_arith);
    lemma_div_is_ordered(top, (10 * n) * (s * s), 10 * n);
    lemma_div_multiples_vanish(s * s, 10 * n);
    lemma_div_is_ordered(0, top, 10 * n);
    assert(0 <= x <= s * s);
    lemma_sqrt_exists(x);
    let d = sqrt_floor(x);
    if d > s {
        lemma_square_ordered(s + 1, d);
        assert((s + 1) * (s + 1) > s * s) by (nonlinear_arith)
            requires
                0 <= s,
        ;
    }
    assert(l7 * s < 0x8_0000_0000_0000) by (nonlinear_arith)
        requires
            0 <= l7 <= 441,
            0 <= s < 0x400_0000_0000,
    ;
    assert((l7 * s) * n < 0x10_0000_0000_0000_0000_0000_0000_0000) by (nonlinear_arith)
        requires
            0 <= l7 * s < 0x8_0000_0000_0000,
            0 <= n < 0x1_0000_0000_0000_0000,
    ;
}

/// The quotient `m * s / n` lies on the same side of `s / 2` as `m` lies
/// of `n / 2`.
pub proof fn lemma_share(m: int, s: int, n: int)
    requires
        1 <= m <= n,
        0 <= s,
    ensures
        0 <= m * s / n <= s,
        2 * m >= n ==> m * s / n >= s / 2,
        2 * m < n ==> m * s / n <= s / 2,
{
    let q = m * s / n;
    let h = s / 2;
    assert(0 <= m * s <= n * s) by (nonlinear_arith)
        requires
            0 <= m <= n,
            0 <= s,
    ;
    lemma_remainder(m * s, n);
    lemma_div_is_ordered(0, m * s, n);
    lemma_div_is_ordered(m * s, n * s, n);
    lemma_div_multiples_vanish(s, n);
    if 2 * m >= n && q < h {
        assert((q + 1) * n <= h * n) by (nonlinear_arith)
            requires
                q + 1 <= h,
                0 <= n,
        ;
        assert(q * n + n == (q + 1) * n) by (nonlinear_arith);
        assert(2 * (h * n) <= s * n) by (nonlinear_arith)
            requires
                2 * h <= s,
                0 <= n,
        ;
        assert(s * n <= 2 * (m * s)) by (nonlinear_arith)
            requires
                n <= 2 * m,
                0 <= s,
        ;
    }
    if 2 * m < n && q > h {
        assert(q * n >= (h + 1) * n) by (nonlinear_arith)
            requires
                q >= h + 1,
                0 <= n,
        ;
        assert(2 * ((h + 1) * n) >= (s + 1) * n) by (nonlinear_arith)
            requires
                2 * h + 2 >= s + 1,
                0 <= n,
        ;
        assert((s + 1) * n == s * n + n) by (nonlinear_arith);
        assert(s * n >= 2 * (m * s)) by (nonlinear_arith)
            requires
                n >= 2 * m,
                0 <= s,
        ;
    }
}

/// The window lies within the range, holds the wanted position, and is
/// shorter than the range.
pub proof fn lemma_window(k: int, left: int, right: int)
    requires
        0 <= left <= k <= right,
        600 <= right - left < 0xffff_ffff_ffff_ffff,
    ensures
        left <= window(k, left, right).0 <= k <= window(k, left, right).1 <= right,
        window(k, left, right).1 - window(k, left, right).0 < right - left,
        estimate(k, left, right) <= k <= estimate(k, left, right) + spread(right - left + 1),
{
    let n = right - left + 1;
    let m = k - left + 1;
    lemma_spread_bounds(n);
    lemma_deviation_bounds(n);
    lemma_share(m, spread(n), n);
}

/// Computes the window for the position `k` of `[left, right]`.
pub fn sample_window(k: usize, left: usize, right: usize) -> (w: (usize, usize))
    requires
        left <= k <= right < usize::MAX,
        right - left >= 600,
    ensures
        (w.0 as int, w.1 as int) == window(k as int, left as int, right as int),
        left <= w.0 <= k <= w.1 <= right,
        w.1 - w.0 < right - left,
{
    let n: u128 = (right - left) as u128 + 1;
    let m: u128 = (k - left) as u128 + 1;
    proof {
        lemma_spread_bounds(n as int);
        lemma_deviation_bounds(n as int);
        lemma_share(m as int, spread(n as int), n as int);
        lemma_window(k as int, left as int, right as int);
        assert(n * n <= 0xffff_ffff_ffff_ffff * 0xffff_ffff_ffff_ffff) by {
            lemma_square_ordered(n as int, 0xffff_ffff_ffff_ffff);
        }
        assert(0xffff_ffff_ffff_ffff * 0xffff_ffff_ffff_ffff <= u128::MAX) by (nonlinear_arith);
    }
    let s: u128 = floor_cbrt(n * n) / 2;
    let z: u128 = floor_log2(n);
    assert(7 * z * s < 0x8_0000_0000_0000) by (nonlinear_arith)
        requires
            0 <= 7 * z <= 441,
            0 <= s < 0x400_0000_0000,
    ;
    assert(7 * z * s * (n - s) == 7 * log(2, n as int) * spread(n as int) * (n as int - spread(
        n as int,
    )));
    assert(m * s <= n * s < 0x1_0000_0000_0000_0000_0000_0000_0000) by (nonlinear_arith)
        requires
            0 <= m <= n < 0x1_0000_0000_0000_0000,
            0 <= s < 0x400_0000_0000,
    ;
    let d: u128 = floor_sqrt(7 * z * s * (n - s) / (10 * n)) / 2;
    let q: u128 = m * s / n;
    let r: i128 = if 2 * m < n {
        k as i128 - q as i128 - d as i128
    } else {
        k as i128 - q as i128 + d as i128
    };
    assert(r == estimate(k as int, left as int, right as int));
    let low: usize = if r > left as i128 {
        r as usize
    } else {
        left
    };
    let high: usize = if r + (s as i128) < right as i128 {
        (r + s as i128) as usize
    } else {
        right
    };
    (low, high)
}

} // verus!
