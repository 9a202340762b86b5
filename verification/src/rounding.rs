//! Rounding to so many binary digits, as binary floating-point arithmetic does
//! it: to the nearest, and of two that are equally near, to the even one.

use vstd::arithmetic::div_mod::{
    lemma_div_is_ordered, lemma_div_multiples_vanish_quotient, lemma_fundamental_div_mod,
    lemma_fundamental_div_mod_converse, lemma_truncate_middle,
};
use vstd::arithmetic::power2::{
    lemma2_to64, lemma_pow2_adds, lemma_pow2_pos, lemma_pow2_strictly_increases,
    lemma_pow2_unfold, pow2,
};
use vstd::prelude::*;

verus! {

/// How far apart two numbers are.
pub open spec fn distance(a: int, b: int) -> int {
    if a <= b {
        b - a
    } else {
        a - b
    }
}

/// The whole number nearest to `n / d`; of two that are equally near, the even
/// one.
pub open spec fn nearest(n: nat, d: nat) -> nat {
    let q = n / d;
    let r = n % d;
    if 2 * r > d || (2 * r == d && q % 2 == 1) {
        q + 1
    } else {
        q
    }
}

/// How many binary digits `n` has beyond `digits`.
pub open spec fn excess(n: nat, digits: nat) -> nat
    decreases n,
{
    if n == 0 || n < pow2(digits) {
        0
    } else {
        excess(n / 2, digits) + 1
    }
}

/// `n` rounded to so many significant binary digits.
pub open spec fn rounded(n: nat, digits: nat) -> nat {
    let unit = pow2(excess(n, digits));
    nearest(n, unit) * unit
}

/// Divides and rounds to the nearest whole number.
pub fn divide_nearest(n: u128, d: u128) -> (q: u128)
    requires
        0 < d,
        n < u128::MAX,
    ensures
        q == nearest(n as nat, d as nat),
{
    let q: u128 = n / d;
    let r: u128 = n % d;
    assert(q <= n) by (nonlinear_arith)
        requires
            q == n / d,
            0 < d,
    ;
    if r > d - r || (r == d - r && q % 2 == 1) {
        q + 1
    } else {
        q
    }
}

/// A power of two.
pub fn power_of_two(e: u32) -> (p: u128)
    requires
        e < 128,
    ensures
        p == pow2(e as nat),
{
    let mut p: u128 = 1;
    let mut i: u32 = 0;
    proof {
        lemma2_to64();
    }
    while i < e
        invariant
            i <= e < 128,
            p == pow2(i as nat),
        decreases e - i,
    {
        proof {
            lemma_pow2_unfold((i + 1) as nat);
            power_fits((i + 1) as nat);
        }
        p = p * 2;
        i = i + 1;
    }
    p
}

proof fn power_fits(e: nat)
    requires
        e < 128,
    ensures
        pow2(e) <= u128::MAX,
{
    lemma2_to64();
    lemma_pow2_adds(64, 64);
    lemma_pow2_strictly_increases(e, 128);
    assert(0x10000000000000000nat * 0x10000000000000000nat == u128::MAX + 1);
}

/// Counts the binary digits of `n` beyond `digits`.
pub fn count_excess(n: u128, digits: u32) -> (e: u32)
    requires
        0 < digits < 128,
    ensures
        e == excess(n as nat, digits as nat),
        e < 128,
        n > 0 ==> pow2(e as nat) <= n,
{
    let limit: u128 = power_of_two(digits);
    let mut rest: u128 = n;
    let mut e: u32 = 0;
    proof {
        lemma2_to64();
        lemma_pow2_pos(digits as nat);
    }
    assert(limit >= 2) by {
        lemma_pow2_unfold(digits as nat);
        lemma_pow2_pos((digits - 1) as nat);
    }
    while rest >= limit
        invariant
            limit == pow2(digits as nat),
            excess(n as nat, digits as nat) == e + excess(rest as nat, digits as nat),
            rest * pow2(e as nat) <= n,
            n > 0 ==> rest > 0,
            limit >= 2,
            e < 128,
        decreases rest,
    {
        proof {
            lemma_pow2_unfold((e + 1) as nat);
            let p = pow2(e as nat) as int;
            let half = rest as int / 2;
            assert(half * (2 * p) <= rest * p) by (nonlinear_arith)
                requires
                    half == rest as int / 2,
                    0 <= p,
            ;
            if e + 1 >= 128 {
                assert(rest * p >= 2 * p) by (nonlinear_arith)
                    requires
                        rest >= 2,
                        0 <= p,
                ;
                lemma2_to64();
                lemma_pow2_adds(64, 64);
                assert(0x10000000000000000nat * 0x10000000000000000nat == u128::MAX + 1);
                assert(pow2(128) == u128::MAX + 1);
            }
        }
        rest = rest / 2;
        e = e + 1;
    }
    proof {
        if n > 0 {
            let p = pow2(e as nat) as int;
            assert(p <= rest * p) by (nonlinear_arith)
                requires
                    rest >= 1,
                    0 <= p,
            ;
        }
    }
    e
}

/// Rounds to so many significant binary digits.
pub fn round_to(n: u128, digits: u32) -> (m: u128)
    requires
        0 < digits < 128,
        n < u128::MAX / 2,
    ensures
        m == rounded(n as nat, digits as nat),
        m <= 2 * n,
{
    let unit: u128 = power_of_two(count_excess(n, digits));
    proof {
        lemma_pow2_pos(excess(n as nat, digits as nat));
        rounded_is_close(n as nat, digits as nat);
    }
    divide_nearest(n, unit) * unit
}

/// Rounding does not more than double a number.
proof fn rounded_is_close(n: nat, digits: nat)
    requires
        digits > 0,
    ensures
        rounded(n, digits) <= 2 * n,
{
    let e = excess(n, digits);
    lemma_pow2_pos(e);
    let u = pow2(e) as int;
    lemma_fundamental_div_mod(n as int, u);
    let q = n as int / u;
    let r = n as int % u;
    excess_brackets(n, digits);
    assert(u * q == q * u) by (nonlinear_arith);
    assert((q + 1) * u == q * u + u) by (nonlinear_arith);
    if n == 0 {
        lemma2_to64();
    } else if e == 0 {
        lemma2_to64();
        assert(r == 0);
    } else {
        assert(u <= n);
    }
}

/// Where `n` lies, by its binary digits.
pub proof fn excess_brackets(n: nat, digits: nat)
    requires
        digits > 0,
    ensures
        n < pow2(digits + excess(n, digits)),
        excess(n, digits) > 0 ==> pow2((digits + excess(n, digits) - 1) as nat) <= n,
        n > 0 ==> pow2(excess(n, digits)) <= n,
    decreases n,
{
    lemma_pow2_pos(digits);
    lemma2_to64();
    if n == 0 || n < pow2(digits) {
    } else {
        let e = excess(n / 2, digits);
        excess_brackets(n / 2, digits);
        lemma_pow2_unfold(digits + e + 1);
        lemma_pow2_unfold(e + 1);
        if e > 0 {
            lemma_pow2_unfold((digits + e) as nat);
        }
        lemma_pow2_unfold(digits);
        lemma_pow2_pos((digits - 1) as nat);
    }
}

/// A number between two powers of two has this many digits beyond `digits`.
pub proof fn excess_between(n: nat, digits: nat, e: nat)
    requires
        digits > 0,
        n < pow2(digits + e),
        e > 0 ==> pow2((digits + e - 1) as nat) <= n,
    ensures
        excess(n, digits) == e,
{
    let f = excess(n, digits);
    excess_brackets(n, digits);
    if f < e {
        if digits + f < digits + e - 1 {
            lemma_pow2_strictly_increases(digits + f, (digits + e - 1) as nat);
        }
    } else if e < f {
        if digits + e < digits + f - 1 {
            lemma_pow2_strictly_increases(digits + e, (digits + f - 1) as nat);
        }
    }
}

/// The nearest whole number is half a unit away at most.
pub proof fn nearest_is_close(n: nat, d: nat)
    requires
        d > 0,
    ensures
        2 * distance((nearest(n, d) * d) as int, n as int) <= d,
{
    let q = n as int / d as int;
    let dd = d as int;
    lemma_fundamental_div_mod(n as int, dd);
    assert((q + 1) * dd == dd * q + dd) by (nonlinear_arith);
    assert(q * dd == dd * q) by (nonlinear_arith);
}

/// A fraction is rounded alike when it is extended.
pub proof fn nearest_of_extended(n: nat, d: nat, c: nat)
    requires
        0 < d,
        0 < c,
    ensures
        0 < c * d,
        nearest(c * n, c * d) == nearest(n, d),
{
    lemma_div_multiples_vanish_quotient(c as int, n as int, d as int);
    lemma_truncate_middle(n as int, c as int, d as int);
    let r = n as int % d as int;
    let cc = c as int;
    let dd = d as int;
    assert(2 * (cc * r) > cc * dd <==> 2 * r > dd) by (nonlinear_arith)
        requires
            cc > 0,
    ;
    assert(2 * (cc * r) == cc * dd <==> 2 * r == dd) by (nonlinear_arith)
        requires
            cc > 0,
    ;
}

/// A number that is within half a unit of a multiple rounds to that multiple.
pub proof fn nearest_to_multiple(m: nat, d: nat, x: int)
    requires
        0 < d,
        -(d as int) < 2 * x < d,
        m * d + x >= 0,
    ensures
        nearest((m * d + x) as nat, d) == m,
{
    let n = m * d + x;
    let dd = d as int;
    if x >= 0 {
        lemma_fundamental_div_mod_converse(n, dd, m as int, x);
    } else {
        assert(m > 0) by (nonlinear_arith)
            requires
                m * d + x >= 0,
                x < 0,
                m >= 0,
        ;
        assert(m * d + x == (m - 1) * dd + (dd + x)) by (nonlinear_arith)
            requires
                dd == d,
        ;
        lemma_fundamental_div_mod_converse(n, dd, m - 1, dd + x);
    }
}

/// The nearest whole number does not fall when the fraction rises.
pub proof fn nearest_is_ordered(a: nat, b: nat, d: nat)
    requires
        0 < d,
        a <= b,
    ensures
        nearest(a, d) <= nearest(b, d),
{
    lemma_div_is_ordered(a as int, b as int, d as int);
    lemma_fundamental_div_mod(a as int, d as int);
    lemma_fundamental_div_mod(b as int, d as int);
}

/// Doubling a number moves its binary digits by one place, and so what it is
/// rounded to.
pub proof fn rounded_of_double(n: nat, digits: nat)
    requires
        digits > 0,
    ensures
        rounded(2 * n, digits) == 2 * rounded(n, digits),
{
    let e = excess(n, digits);
    lemma2_to64();
    lemma_pow2_unfold(digits);
    lemma_pow2_pos((digits - 1) as nat);
    lemma_pow2_pos(e);
    if n == 0 || 2 * n < pow2(digits) {
        lemma_pow2_pos(digits);
        rounded_of_short(n, digits);
        rounded_of_short(2 * n, digits);
    } else {
        assert((2 * n) / 2 == n);
        assert(excess(2 * n, digits) == e + 1);
        lemma_pow2_unfold(e + 1);
        nearest_of_extended(n, pow2(e), 2);
        let q = nearest(n, pow2(e)) as int;
        let u = pow2(e) as int;
        assert(q * (2 * u) == 2 * (q * u)) by (nonlinear_arith);
    }
}

/// The same for any power of two.
pub proof fn rounded_of_shifted(n: nat, k: nat, digits: nat)
    requires
        digits > 0,
    ensures
        rounded(n * pow2(k), digits) == rounded(n, digits) * pow2(k),
    decreases k,
{
    if k == 0 {
        lemma2_to64();
        assert(n * 1 == n && rounded(n, digits) * 1 == rounded(n, digits));
    } else {
        let j = (k - 1) as nat;
        rounded_of_shifted(n, j, digits);
        rounded_of_double(n * pow2(j), digits);
        lemma_pow2_unfold(k);
        let p = pow2(j) as int;
        let r = rounded(n, digits) as int;
        assert(n * (2 * p) == 2 * (n * p)) by (nonlinear_arith);
        assert(r * (2 * p) == 2 * (r * p)) by (nonlinear_arith);
        assert(n * pow2(k) == 2 * (n * pow2(j)));
    }
}

/// A number that has no more binary digits than that is rounded to itself.
pub proof fn rounded_of_short(n: nat, digits: nat)
    requires
        n < pow2(digits),
    ensures
        rounded(n, digits) == n,
{
    lemma2_to64();
    assert(excess(n, digits) == 0);
    assert(nearest(n, 1) == n);
    assert(nearest(n, 1) * 1 == n);
}

/// What is rounded does not fall when the number rises.
pub proof fn rounded_is_ordered(a: nat, b: nat, digits: nat)
    requires
        digits > 0,
        a <= b,
    ensures
        rounded(a, digits) <= rounded(b, digits),
{
    let e = excess(a, digits);
    let f = excess(b, digits);
    excess_is_ordered(a, b, digits);
    lemma_pow2_pos(e);
    lemma_pow2_pos(f);
    let u = pow2(e) as int;
    let v = pow2(f) as int;
    let q = nearest(a, pow2(e)) as int;
    let r = nearest(b, pow2(f)) as int;
    if e == f {
        nearest_is_ordered(a, b, pow2(e));
        assert(q * u <= r * u) by (nonlinear_arith)
            requires
                q <= r,
                u > 0,
        ;
    } else {
        significand_bounds(a, digits);
        significand_bounds(b, digits);
        let full = pow2(digits) as int;
        let half = pow2((digits - 1) as nat) as int;
        lemma_pow2_unfold(digits);
        lemma_pow2_unfold(e + 1);
        if e + 1 < f {
            lemma_pow2_strictly_increases(e + 1, f);
        }
        assert(q * u <= full * u) by (nonlinear_arith)
            requires
                q <= full,
                u > 0,
        ;
        assert(full * u == half * (2 * u)) by (nonlinear_arith)
            requires
                full == 2 * half,
        ;
        assert(half * (2 * u) <= r * v) by (nonlinear_arith)
            requires
                half <= r,
                0 <= half,
                0 < 2 * u <= v,
        ;
    }
}

pub proof fn excess_is_ordered(a: nat, b: nat, digits: nat)
    requires
        digits > 0,
        a <= b,
    ensures
        excess(a, digits) <= excess(b, digits),
{
    let e = excess(a, digits);
    let f = excess(b, digits);
    excess_brackets(a, digits);
    excess_brackets(b, digits);
    if f < e && digits + f < digits + e - 1 {
        lemma_pow2_strictly_increases(digits + f, (digits + e - 1) as nat);
    }
}

/// The significand that a number is rounded to: at most `digits` digits or the
/// next power of two, and no fewer than `digits` if any were in excess.
pub proof fn significand_bounds(n: nat, digits: nat)
    requires
        digits > 0,
    ensures
        nearest(n, pow2(excess(n, digits))) <= pow2(digits),
        excess(n, digits) > 0 ==> pow2((digits - 1) as nat) <= nearest(
            n,
            pow2(excess(n, digits)),
        ),
{
    let e = excess(n, digits);
    lemma_pow2_pos(e);
    lemma_pow2_pos(digits);
    excess_brackets(n, digits);
    let full = pow2(digits);
    let u = pow2(e);
    lemma_pow2_adds(digits, e);
    nearest_is_ordered(n, full * u, u);
    nearest_to_multiple(full, u, 0);
    if e > 0 {
        let half = pow2((digits - 1) as nat);
        lemma_pow2_adds((digits - 1) as nat, e);
        nearest_is_ordered(half * u, n, u);
        nearest_to_multiple(half, u, 0);
    }
}

/// No multiple of the unit is nearer than the one that a number is rounded to.
pub proof fn nearest_is_best(n: nat, d: nat, other: nat)
    requires
        d > 0,
    ensures
        distance((nearest(n, d) * d) as int, n as int) <= distance((other * d) as int, n as int),
{
    let q = n as int / d as int;
    let dd = d as int;
    let o = other as int;
    lemma_fundamental_div_mod(n as int, dd);
    assert((q + 1) * dd == dd * q + dd) by (nonlinear_arith);
    assert(q * dd == dd * q) by (nonlinear_arith);
    if o <= q {
        assert(o * dd <= q * dd) by (nonlinear_arith)
            requires
                o <= q,
                dd > 0,
        ;
    } else {
        assert(o * dd >= (q + 1) * dd) by (nonlinear_arith)
            requires
                o >= q + 1,
                dd > 0,
        ;
    }
}

/// A number halfway between two multiples is rounded to the even one.
pub proof fn nearest_of_half_is_even(m: nat, d: nat)
    requires
        d > 0,
    ensures
        nearest(m * (2 * d) + d, 2 * d) == if m % 2 == 0 {
            m
        } else {
            m + 1
        },
{
    lemma_fundamental_div_mod_converse(
        (m * (2 * d) + d) as int,
        2 * d as int,
        m as int,
        d as int,
    );
}

/// Rounding to so many digits changes a number by its share of the last digit at
/// most.
pub proof fn rounded_is_near(n: nat, digits: nat)
    requires
        digits > 0,
    ensures
        distance(rounded(n, digits) as int, n as int) * pow2(digits) <= n,
{
    let e = excess(n, digits);
    excess_brackets(n, digits);
    lemma_pow2_pos(e);
    lemma_pow2_pos(digits);
    let u = pow2(e) as int;
    nearest_is_close(n, pow2(e));
    let x = distance(rounded(n, digits) as int, n as int);
    let p = pow2(digits) as int;
    if e == 0 {
        lemma2_to64();
        assert(x * p == 0) by (nonlinear_arith)
            requires
                x == 0,
        ;
    } else {
        let h = pow2((digits - 1) as nat) as int;
        lemma_pow2_unfold(digits);
        lemma_pow2_adds((digits - 1) as nat, e);
        assert(x * p <= h * u) by (nonlinear_arith)
            requires
                2 * x <= u,
                p == 2 * h,
                h >= 0,
        ;
    }
}

} // verus!
