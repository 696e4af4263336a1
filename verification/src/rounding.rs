//! Binary floating-point arithmetic on integers.
//!
//! A quotient `num / den` is rounded to a fixed number of significant binary
//! digits, to the nearest representable value and to the even one of two equally
//! near ones. Values are held as integers, as multiples of a unit that the caller
//! chooses small enough that every representable value of interest is a multiple
//! of it.
use vstd::prelude::*;
use vstd::arithmetic::power2::{
    lemma2_to64, lemma2_to64_rest, lemma_pow2_adds, lemma_pow2_pos, lemma_pow2_unfold, pow2,
};

verus! {

/// Two to the number of significant digits of a double.
pub const DOUBLE: u128 = 0x20_0000_0000_0000;

/// Two to the number of significant digits of a single.
pub const SINGLE: u128 = 0x100_0000;

/// The integer nearest to a quotient, the even one of two equally near ones.
pub open spec fn nearest_even(num: int, den: int) -> int {
    let q = num / den;
    let r = num % den;
    if 2 * r < den || (2 * r == den && q % 2 == 0) {
        q
    } else {
        q + 1
    }
}

/// The weight of the last significant digit of a quotient whose digits span
/// `top`: the least power of two `u` with `num / den < u * top`.
pub open spec fn weight(num: int, den: int, top: int) -> int
    decreases num - den,
    when den > 0 && top >= 2
    via weight_decreases
{
    if num < den * top {
        1
    } else {
        2 * weight(num, 2 * den, top)
    }
}

#[via_fn]
proof fn weight_decreases(num: int, den: int, top: int) {
    if !(num < den * top) {
        assert(den * top >= den * 2) by (nonlinear_arith)
            requires
                den > 0,
                top >= 2,
        ;
    }
}

/// A quotient rounded to the significant digits that `top` spans.
pub open spec fn rounded(num: int, den: int, top: int) -> int {
    let u = weight(num, den, top);
    nearest_even(num, den * u) * u
}

/// A nonnegative quotient rounded to the nearest integer, halves upwards.
pub open spec fn half_up(num: int, den: int) -> int {
    (2 * num + den) / (2 * den)
}

/// A quotient that is below `2^k * top` has a weight that divides `2^k`.
pub proof fn weight_divides(num: int, den: int, top: int, k: nat) -> (q: nat)
    requires
        den > 0,
        top >= 2,
        num < den * pow2(k) * top,
    ensures
        weight(num, den, top) >= 1,
        pow2(k) == q * weight(num, den, top),
    decreases k,
{
    lemma_pow2_pos(k);
    if num < den * top {
        pow2(k)
    } else {
        if k == 0 {
            lemma2_to64();
            assert(den * 1 * top == den * top) by (nonlinear_arith);
            assert(false);
        }
        let j = (k - 1) as nat;
        lemma_pow2_unfold(k);
        assert(den * (2 * pow2(j)) * top == (2 * den) * pow2(j) * top) by (nonlinear_arith);
        let q = weight_divides(num, 2 * den, top, j);
        let w = weight(num, 2 * den, top);
        assert(2 * (q * w) == q * (2 * w)) by (nonlinear_arith);
        q
    }
}

/// Rounding keeps a quotient below any representable bound that it is below.
pub proof fn rounded_at_most(num: int, den: int, top: int, k: nat, b: int)
    requires
        den > 0,
        top >= 2,
        0 <= num < den * pow2(k) * top,
        num <= den * (b * pow2(k)),
    ensures
        0 <= rounded(num, den, top) <= b * pow2(k),
{
    let q = weight_divides(num, den, top, k);
    let u = weight(num, den, top);
    let d = den * u;
    let bound = b * q;
    assert(den * (b * (q * u)) == (den * u) * (b * q)) by (nonlinear_arith);
    assert(d > 0) by (nonlinear_arith)
        requires
            d == den * u,
            den > 0,
            u >= 1,
    ;
    assert(num <= d * bound);
    nearest_at_most(num, d, bound);
    let n = nearest_even(num, d);
    assert(n * u <= bound * u) by (nonlinear_arith)
        requires
            n <= bound,
            u >= 1,
    ;
    assert(0 <= n * u) by (nonlinear_arith)
        requires
            n >= 0,
            u >= 1,
    ;
    assert((b * q) * u == b * (q * u)) by (nonlinear_arith);
}

/// Rounding keeps a quotient above any representable bound that it is above.
pub proof fn rounded_at_least(num: int, den: int, top: int, k: nat, b: int)
    requires
        den > 0,
        top >= 2,
        0 <= num < den * pow2(k) * top,
        den * (b * pow2(k)) <= num,
    ensures
        b * pow2(k) <= rounded(num, den, top),
{
    let q = weight_divides(num, den, top, k);
    let u = weight(num, den, top);
    let d = den * u;
    let bound = b * q;
    assert(den * (b * (q * u)) == (den * u) * (b * q)) by (nonlinear_arith);
    assert(d > 0) by (nonlinear_arith)
        requires
            d == den * u,
            den > 0,
            u >= 1,
    ;
    let n = nearest_even(num, d);
    assert(bound <= num / d) by (nonlinear_arith)
        requires
            d * bound <= num,
            d > 0,
    ;
    assert(bound * u <= n * u) by (nonlinear_arith)
        requires
            bound <= n,
            u >= 1,
    ;
    assert((b * q) * u == b * (q * u)) by (nonlinear_arith);
}

proof fn nearest_at_most(num: int, d: int, bound: int)
    requires
        d > 0,
        0 <= num <= d * bound,
    ensures
        0 <= nearest_even(num, d) <= bound,
{
    let q = num / d;
    let r = num % d;
    assert(num == d * q + r && 0 <= r < d && q >= 0) by (nonlinear_arith)
        requires
            d > 0,
            num >= 0,
            q == num / d,
            r == num % d,
    ;
    assert(q <= bound) by (nonlinear_arith)
        requires
            d > 0,
            d * q + r <= d * bound,
            r >= 0,
    ;
    if q == bound {
        assert(r == 0) by (nonlinear_arith)
            requires
                d * q + r <= d * bound,
                r >= 0,
                q == bound,
        ;
    }
}

/// Rounds a quotient to the significant digits that `top` spans.
pub fn round(num: u128, den: u128, top: u128) -> (r: u128)
    requires
        den > 0,
        top >= 2,
        num < 0x4000_0000_0000_0000_0000_0000_0000_0000,
    ensures
        r == rounded(num as int, den as int, top as int),
{
    let limit: u128 = num / top;
    let mut u: u128 = 1;
    let mut d: u128 = den;
    proof {
        assert(num < (limit + 1) * top && limit * top <= num) by (nonlinear_arith)
            requires
                limit == num / top,
                top >= 2,
        ;
        assert(2 * limit <= num) by (nonlinear_arith)
            requires
                limit * top <= num,
                top >= 2,
                limit >= 0,
        ;
    }
    while d <= limit
        invariant
            num < 0x4000_0000_0000_0000_0000_0000_0000_0000,
            top >= 2,
            den > 0,
            u >= 1,
            d == den * u,
            num < (limit + 1) * top,
            limit * top <= num,
            2 * limit <= num,
            u == 1 || u <= 2 * limit,
            weight(num as int, den as int, top as int) == u * weight(
                num as int,
                d as int,
                top as int,
            ),
        decreases 2 * limit + 1 - d,
    {
        proof {
            assert(d * top <= num) by (nonlinear_arith)
                requires
                    d <= limit,
                    limit * top <= num,
                    top >= 2,
            ;
            assert(u <= d) by (nonlinear_arith)
                requires
                    d == den * u,
                    den >= 1,
                    u >= 1,
            ;
            assert(den * (2 * u) == 2 * (den * u)) by (nonlinear_arith);
            let w = weight(num as int, 2 * d as int, top as int);
            assert(u * (2 * w) == (2 * u) * w) by (nonlinear_arith);
        }
        u = 2 * u;
        d = 2 * d;
    }
    proof {
        assert(num < d * top) by (nonlinear_arith)
            requires
                d >= limit + 1,
                num < (limit + 1) * top,
                top >= 2,
        ;
        assert(u * 1 == u) by (nonlinear_arith);
    }
    let q: u128 = num / d;
    let rest: u128 = num % d;
    let up: bool = rest > d - rest || (rest == d - rest && q % 2 == 1);
    proof {
        assert(d > 0 && rest < d) by (nonlinear_arith)
            requires
                d == den * u,
                den >= 1,
                u >= 1,
                rest == num % d,
        ;
        assert(q * d <= num) by (nonlinear_arith)
            requires
                q == num / d,
                d > 0,
        ;
        assert(u <= d) by (nonlinear_arith)
            requires
                d == den * u,
                den >= 1,
                u >= 1,
        ;
        assert(q * u <= num) by (nonlinear_arith)
            requires
                q * d <= num,
                u <= d,
                q >= 0,
        ;
        assert((q + 1) * u == q * u + u) by (nonlinear_arith);
        assert(0 <= q * u) by (nonlinear_arith)
            requires
                q >= 0,
                u >= 1,
        ;
    }
    if up {
        (q + 1) * u
    } else {
        q * u
    }
}

/// Computes a small power of two.
pub fn power_of_two(k: u32) -> (r: u128)
    requires
        k < 127,
    ensures
        r == pow2(k as nat),
{
    let mut r: u128 = 1;
    let mut i: u32 = 0;
    proof {
        lemma2_to64();
        lemma2_to64_rest();
        lemma_pow2_adds(63, 63);
    }
    while i < k
        invariant
            i <= k < 127,
            r == pow2(i as nat),
            r <= pow2(126),
            pow2(126) == 0x4000_0000_0000_0000_0000_0000_0000_0000,
        decreases k - i,
    {
        proof {
            lemma_pow2_unfold((i + 1) as nat);
            lemma_pow2_adds((i + 1) as nat, (126 - i - 1) as nat);
            lemma_pow2_pos((126 - i - 1) as nat);
            let a = pow2((i + 1) as nat);
            let b = pow2((126 - i - 1) as nat);
            assert(a <= a * b) by (nonlinear_arith)
                requires
                    a >= 0,
                    b >= 1,
            ;
        }
        r = 2 * r;
        i += 1;
    }
    r
}

proof fn weight_is_small(num: int, den: int, top: int)
    requires
        den > 0,
        top >= 2,
    ensures
        weight(num, den, top) >= 1,
        num < den * top ==> weight(num, den, top) == 1,
        num >= den * top ==> den * weight(num, den, top) * top <= 2 * num,
    decreases num - den,
{
    if num >= den * top {
        assert(den * top >= den * 2) by (nonlinear_arith)
            requires
                den > 0,
                top >= 2,
        ;
        weight_is_small(num, 2 * den, top);
        let w = weight(num, 2 * den, top);
        assert(den * (2 * w) * top == (2 * den) * w * top) by (nonlinear_arith);
        if num < 2 * den * top {
            assert(2 * den * 1 * top == 2 * (den * top)) by (nonlinear_arith);
        }
    }
}

proof fn nearest_is_near(num: int, d: int)
    requires
        d > 0,
        num >= 0,
    ensures
        -d <= 2 * (nearest_even(num, d) * d - num) <= d,
{
    let q = num / d;
    let r = num % d;
    assert(num == d * q + r && 0 <= r < d) by (nonlinear_arith)
        requires
            d > 0,
            q == num / d,
            r == num % d,
    ;
    assert((q + 1) * d == d * q + d) by (nonlinear_arith);
    assert(q * d == d * q) by (nonlinear_arith);
}

/// A rounded quotient is no further from the exact one than half of its last digit: half
/// a unit where all of its digits fit, and else one part in as many as its digits span.
pub proof fn rounding_is_close(num: int, den: int, top: int)
    requires
        den > 0,
        top >= 2,
        num >= 0,
    ensures
        num < den * top ==> -den <= 2 * (rounded(num, den, top) * den - num) <= den,
        num >= den * top ==> -num <= (rounded(num, den, top) * den - num) * top <= num,
{
    let u = weight(num, den, top);
    weight_is_small(num, den, top);
    let d = den * u;
    assert(d > 0) by (nonlinear_arith)
        requires
            d == den * u,
            den > 0,
            u >= 1,
    ;
    nearest_is_near(num, d);
    let n = nearest_even(num, d);
    let error = n * d - num;
    assert(n * u * den == n * (den * u)) by (nonlinear_arith);
    if num < den * top {
        assert(den * 1 == den);
    } else {
        assert(-(d * top) <= 2 * error * top <= d * top) by (nonlinear_arith)
            requires
                -d <= 2 * error <= d,
                top >= 2,
        ;
        assert(2 * error * top == 2 * (error * top)) by (nonlinear_arith);
    }
}

/// Rounding to the nearest integer with halves upwards is off by half at most.
pub proof fn half_up_is_near(num: int, den: int)
    requires
        den > 0,
        num >= 0,
    ensures
        -den < 2 * (half_up(num, den) * den - num) <= den,
        half_up(num, den) >= 0,
{
    let h = half_up(num, den);
    let d = 2 * den;
    let x = 2 * num + den;
    assert(d * h <= x < d * h + d) by (nonlinear_arith)
        requires
            d > 0,
            h == x / d,
    ;
    assert(d * h == 2 * (h * den)) by (nonlinear_arith)
        requires
            d == 2 * den,
    ;
    assert(h >= 0) by (nonlinear_arith)
        requires
            h == x / d,
            x >= 0,
            d > 0,
    ;
}

} // verus!
