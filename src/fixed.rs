//! Fixed-point scalars.
//!
//! A scalar is an `i64` holding a multiple of `1 / ONE`: the raw value `x`
//! stands for the real number `x / ONE`. Every operation keeps its result in
//! `[-LIM, LIM]`, saturating at the ends, so a chain of operations can never
//! overflow.
use vstd::arithmetic::div_mod::*;
use vstd::prelude::*;

verus! {

/// Raw units per unit length.
pub const ONE: i64 = 1073741824;

/// Largest magnitude of a raw scalar (2^60 raw, 2^30 units).
pub const LIM: i64 = 1152921504606846976;

pub open spec fn in_range(x: int) -> bool {
    -LIM <= x <= LIM
}

/// `x` saturated into `[-LIM, LIM]`.
pub open spec fn sat(x: int) -> int {
    if x > LIM {
        LIM as int
    } else if x < -LIM {
        -LIM as int
    } else {
        x
    }
}

pub open spec fn mag(x: int) -> int {
    if x < 0 {
        -x
    } else {
        x
    }
}

/// Integer quotient rounded toward zero.
pub open spec fn quot(a: int, b: int) -> int {
    if (a < 0) == (b < 0) {
        mag(a) / mag(b)
    } else {
        -(mag(a) / mag(b))
    }
}

pub open spec fn add_spec(a: int, b: int) -> int {
    sat(a + b)
}

pub open spec fn sub_spec(a: int, b: int) -> int {
    sat(a - b)
}

/// Product of two scalars.
pub open spec fn mul_spec(a: int, b: int) -> int {
    sat(quot(a * b, ONE as int))
}

/// Quotient of two scalars.
pub open spec fn div_spec(a: int, b: int) -> int {
    sat(quot(a * ONE, b))
}

pub open spec fn max_spec(a: int, b: int) -> int {
    if a >= b {
        a
    } else {
        b
    }
}

pub open spec fn min_spec(a: int, b: int) -> int {
    if a <= b {
        a
    } else {
        b
    }
}

/// `r` is the integer square root of `n`, rounded down.
pub open spec fn is_isqrt(n: int, r: int) -> bool {
    0 <= r && r * r <= n && n < (r + 1) * (r + 1)
}

/// The integer square root of `n`, rounded down.
pub open spec fn isqrt_spec(n: int) -> int {
    choose|r: int| #[trigger] is_isqrt(n, r)
}

/// Square root of a non-negative scalar, rounded down to the raw grid.
pub open spec fn sqrt_spec(a: int) -> int {
    isqrt_spec(a * ONE)
}

/// `b` raised to the power `e` by repeated products, left to right.
pub open spec fn pow_spec(b: int, e: nat) -> int
    decreases e,
{
    if e == 0 {
        ONE as int
    } else {
        mul_spec(pow_spec(b, (e - 1) as nat), b)
    }
}

pub proof fn lemma_isqrt_unique(n: int, r1: int, r2: int)
    requires
        is_isqrt(n, r1),
        is_isqrt(n, r2),
    ensures
        r1 == r2,
{
    if r1 < r2 {
        assert((r1 + 1) * (r1 + 1) <= r2 * r2) by (nonlinear_arith)
            requires
                0 <= r1 + 1 <= r2,
        ;
    } else if r2 < r1 {
        assert((r2 + 1) * (r2 + 1) <= r1 * r1) by (nonlinear_arith)
            requires
                0 <= r2 + 1 <= r1,
        ;
    }
}

pub proof fn lemma_isqrt_exists(n: int)
    requires
        0 <= n,
    ensures
        exists|r: int| #[trigger] is_isqrt(n, r),
    decreases n,
{
    if n == 0 {
        assert(is_isqrt(0, 0));
    } else {
        lemma_isqrt_exists(n - 1);
        let r = choose|r: int| #[trigger] is_isqrt(n - 1, r);
        if (r + 1) * (r + 1) <= n {
            assert(n < (r + 2) * (r + 2)) by (nonlinear_arith)
                requires
                    n - 1 < (r + 1) * (r + 1),
                    0 <= r,
            ;
            assert(is_isqrt(n, r + 1));
        } else {
            assert(is_isqrt(n, r));
        }
    }
}

/// `isqrt_spec` is the rounded-down root.
pub proof fn lemma_isqrt_is(n: int)
    requires
        0 <= n,
    ensures
        is_isqrt(n, isqrt_spec(n)),
{
    lemma_isqrt_exists(n);
}

/// Any witness of the rounded-down root is the one `isqrt_spec` picks.
pub proof fn lemma_isqrt_spec(n: int, r: int)
    requires
        is_isqrt(n, r),
    ensures
        isqrt_spec(n) == r,
{
    lemma_isqrt_is(n);
    lemma_isqrt_unique(n, isqrt_spec(n), r);
}

/// The rounded-down root of a non-negative scalar.
pub proof fn lemma_sqrt_is_isqrt(a: int)
    requires
        0 <= a,
    ensures
        is_isqrt(a * ONE, sqrt_spec(a)),
{
    assert(0 <= a * ONE) by (nonlinear_arith)
        requires
            0 <= a,
    ;
    lemma_isqrt_is(a * ONE);
}

pub proof fn lemma_mul_bound(a: int, b: int)
    requires
        in_range(a),
        in_range(b),
    ensures
        -(LIM * LIM) <= a * b <= LIM * LIM,
{
    assert(-(LIM * LIM) <= a * b <= LIM * LIM) by (nonlinear_arith)
        requires
            -LIM <= a <= LIM,
            -LIM <= b <= LIM,
    ;
}

/// Bound on the wide intermediates (2^126).
pub const WIDE: i128 = 85070591730234615865843651857942052864;

/// Saturates a wide intermediate into the scalar range.
pub fn sat_wide(x: i128) -> (r: i64)
    ensures
        r == sat(x as int),
        in_range(r as int),
{
    if x > LIM as i128 {
        LIM
    } else if x < -(LIM as i128) {
        -LIM
    } else {
        x as i64
    }
}

/// Quotient of a wide intermediate by a positive divisor, toward zero.
pub fn quot_wide(a: i128, b: i128) -> (r: i128)
    requires
        b > 0,
        -WIDE <= a <= WIDE,
    ensures
        r == quot(a as int, b as int),
        mag(r as int) <= mag(a as int),
{
    if a >= 0 {
        proof {
            lemma_div_is_ordered_by_denominator(a as int, 1, b as int);
        }
        a / b
    } else {
        proof {
            lemma_div_is_ordered_by_denominator(-a as int, 1, b as int);
        }
        -((-a) / b)
    }
}

pub fn fx_add(a: i64, b: i64) -> (r: i64)
    requires
        in_range(a as int),
        in_range(b as int),
    ensures
        r == add_spec(a as int, b as int),
{
    sat_wide(a as i128 + b as i128)
}

pub fn fx_sub(a: i64, b: i64) -> (r: i64)
    requires
        in_range(a as int),
        in_range(b as int),
    ensures
        r == sub_spec(a as int, b as int),
{
    sat_wide(a as i128 - b as i128)
}

pub fn fx_mul(a: i64, b: i64) -> (r: i64)
    requires
        in_range(a as int),
        in_range(b as int),
    ensures
        r == mul_spec(a as int, b as int),
{
    proof {
        lemma_mul_bound(a as int, b as int);
    }
    let p: i128 = a as i128 * b as i128;
    sat_wide(quot_wide(p, ONE as i128))
}

pub fn fx_div(a: i64, b: i64) -> (r: i64)
    requires
        in_range(a as int),
        in_range(b as int),
        b != 0,
    ensures
        r == div_spec(a as int, b as int),
{
    proof {
        lemma_mul_bound(a as int, ONE as int);
    }
    let p: i128 = a as i128 * ONE as i128;
    if b > 0 {
        sat_wide(quot_wide(p, b as i128))
    } else {
        let q = quot_wide(p, -(b as i128));
        assert(quot(p as int, b as int) == -quot(p as int, -b as int));
        sat_wide(-q)
    }
}

pub fn fx_max(a: i64, b: i64) -> (r: i64)
    ensures
        r == max_spec(a as int, b as int),
{
    if a >= b {
        a
    } else {
        b
    }
}

pub fn fx_min(a: i64, b: i64) -> (r: i64)
    ensures
        r == min_spec(a as int, b as int),
{
    if a <= b {
        a
    } else {
        b
    }
}

/// The integer square root of `n`, rounded down.
pub fn isqrt_wide(n: u128) -> (r: u128)
    requires
        n <= 0x400_0000_0000_0000_0000_0000_0000_0000,
    ensures
        is_isqrt(n as int, r as int),
        r <= 0x2000_0000_0000_0000,
{
    let mut lo: u128 = 0;
    let mut hi: u128 = 0x2000_0000_0000_0001;
    assert(n < hi * hi) by (nonlinear_arith)
        requires
            n <= 0x400_0000_0000_0000_0000_0000_0000_0000,
            hi == 0x2000_0000_0000_0001,
    ;
    while hi - lo > 1
        invariant
            lo < hi <= 0x2000_0000_0000_0001,
            lo * lo <= n,
            n < hi * hi,
        decreases hi - lo,
    {
        let mid: u128 = lo + (hi - lo) / 2;
        assert(mid * mid <= 0x2000_0000_0000_0001 * 0x2000_0000_0000_0001) by (nonlinear_arith)
            requires
                mid <= 0x2000_0000_0000_0001,
        ;
        if mid * mid <= n {
            lo = mid;
        } else {
            hi = mid;
        }
    }
    lo
}

/// Square root of a non-negative scalar, rounded down to the raw grid.
pub fn fx_sqrt(a: i64) -> (r: i64)
    requires
        0 <= a <= LIM,
    ensures
        r == sqrt_spec(a as int),
        0 <= r,
        in_range(r as int),
{
    proof {
        lemma_mul_bound(a as int, ONE as int);
    }
    let n: u128 = a as u128 * ONE as u128;
    let r = isqrt_wide(n);
    proof {
        lemma_isqrt_spec(n as int, r as int);
        if r > 0x8_0000_0000_0000 {
            assert(r * r > 0x8_0000_0000_0000 * 0x8_0000_0000_0000) by (nonlinear_arith)
                requires
                    r > 0x8_0000_0000_0000,
            ;
        }
    }
    r as i64
}

/// `b` raised to the integer power `e`.
pub fn fx_pow(b: i64, e: u32) -> (r: i64)
    requires
        in_range(b as int),
    ensures
        r == pow_spec(b as int, e as nat),
        in_range(r as int),
{
    let mut acc: i64 = ONE;
    let mut i: u32 = 0;
    while i < e
        invariant
            i <= e,
            in_range(b as int),
            acc == pow_spec(b as int, i as nat),
            in_range(acc as int),
        decreases e - i,
    {
        acc = fx_mul(acc, b);
        i = i + 1;
    }
    acc
}

} // verus!
