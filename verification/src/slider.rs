//! What the slider of the window makes of a speed.

use crate::rounding::{
    count_excess, distance, divide_nearest, excess, excess_between, excess_brackets,
    excess_is_ordered, nearest, nearest_is_best, nearest_is_close, nearest_is_ordered,
    nearest_of_extended, nearest_to_multiple, power_of_two, significand_bounds,
};
use crate::speed::{
    bounds_are_what_they_say, doublings, doublings_of, encoded, encoded_of_shifted,
    encoded_of_zero, encoding_is_ordered, magnitude_is, numbers_are_read_from_their_bits, parts,
    parts_are_ordered, parts_of, significand, significand_of, tenth_is, Speed, BINADE, FASTEST,
    INFINITY, NORMAL, SECOND_BINADE, SHORT, SIGN, SLOWEST,
};
use vstd::arithmetic::div_mod::{
    lemma_basic_div, lemma_div_denominator, lemma_div_is_ordered,
    lemma_div_multiples_vanish_quotient, lemma_fundamental_div_mod,
    lemma_fundamental_div_mod_converse,
};
use vstd::arithmetic::power2::{
    lemma2_to64, lemma2_to64_rest, lemma_pow2_adds, lemma_pow2_pos,
    lemma_pow2_strictly_increases, lemma_pow2_unfold, pow2,
};
use vstd::prelude::*;

verus! {

/// The bits of 0.005. A slider that is no further than that from the speed that
/// is played stays where it is.
pub const CLOSE: u32 = 0x3ba3_d70a;

/// The bits of ten times a finite number, in single precision.
pub open spec fn tenfold(magnitude: nat) -> nat {
    let bits = encoded(10 * parts(magnitude));
    if bits < INFINITY {
        bits
    } else {
        INFINITY as nat
    }
}

/// The whole number nearest to a finite number; of two that are equally near,
/// the larger one.
pub open spec fn whole(magnitude: nat) -> nat {
    (2 * parts(magnitude) + pow2(149)) / pow2(150)
}

/// The bits of the number nearest to `n / d` times 2 to the power of -149, in
/// single precision.
pub open spec fn encoded_quotient(n: nat, d: nat) -> nat {
    let e = excess(n / d, SHORT as nat);
    e * BINADE as nat + nearest(n, d * pow2(e))
}

impl Speed {
    /// The speed with one decimal: ten times as much, as a whole number, divided
    /// by ten, all in single precision.
    pub open spec fn with_one_decimal(self) -> Speed {
        let sign: int = if self.bits < SIGN {
            0
        } else {
            SIGN as int
        };
        if !self.is_finite() {
            self
        } else {
            let ten = tenfold(self.magnitude());
            if ten == INFINITY {
                Speed { bits: (sign + INFINITY) as u32 }
            } else {
                Speed { bits: (sign + encoded_quotient(whole(ten) * pow2(149), 10)) as u32 }
            }
        }
    }

    /// Whether two speeds are more than 0.005 apart, their difference in single
    /// precision. What is no number is apart from nothing.
    pub open spec fn apart(self, other: Speed) -> bool {
        if self.is_nan() || other.is_nan() {
            false
        } else if !self.is_finite() || !other.is_finite() {
            self != other
        } else {
            encoded(distance(self.value(), other.value()) as nat) > CLOSE
        }
    }

    /// What a slider that shows `self` shows next, while `played` is the speed
    /// that is played.
    pub open spec fn followed(self, played: Speed) -> Speed {
        if self.apart(played) {
            played
        } else {
            self
        }
    }

    /// Keeps a slider that shows `self` in step with the speed that is played.
    pub fn follow(self, played: Speed) -> (speed: Speed)
        ensures
            speed == self.followed(played),
    {
        if self.is_off(played) {
            played
        } else {
            self
        }
    }

    /// Decides whether a slider that shows `self` is off the speed that is
    /// played.
    pub fn is_off(self, played: Speed) -> (off: bool)
        ensures
            off == self.apart(played),
    {
        let a: u32 = self.bits % SIGN;
        let b: u32 = played.bits % SIGN;
        if a > INFINITY || b > INFINITY {
            return false;
        }
        if a == INFINITY || b == INFINITY {
            return self.bits != played.bits;
        }
        proof {
            close_is(distance(self.value(), played.value()) as nat);
        }
        if a >= LARGE || b >= LARGE {
            proof {
                if a >= b {
                    large_are_apart(a as nat, b as nat);
                } else {
                    large_are_apart(b as nat, a as nat);
                }
            }
            return self.bits != played.bits;
        }
        let x: u128 = coarse(a);
        let y: u128 = coarse(b);
        proof {
            coarse_decides(a as nat, b as nat, x as nat, y as nat);
        }
        if (self.bits >= SIGN) != (played.bits >= SIGN) {
            x + y > LIMIT
        } else if x >= y {
            x - y > LIMIT
        } else {
            y - x > LIMIT
        }
    }

    /// Rounds to one decimal.
    pub fn round(self) -> (speed: Speed)
        ensures
            speed == self.with_one_decimal(),
    {
        let mag: u32 = self.bits % SIGN;
        if mag >= INFINITY {
            return self;
        }
        let sign: u32 = self.bits - mag;
        let m: u32 = significand_of(mag);
        let k: u32 = doublings_of(mag);
        let ten: u32 = encode_tenfold(m, k);
        proof {
            magnitude_is(mag as nat);
            let p = pow2(k as nat) as int;
            assert(10 * (m * p) == (10 * m) * p) by (nonlinear_arith);
        }
        if ten >= INFINITY {
            return Speed { bits: sign + INFINITY };
        }
        Speed { bits: sign + divide_by_ten(ten) }
    }
}

/// Ten times `m` times 2 to the power of `k - 149`.
fn encode_tenfold(m: u32, k: u32) -> (bits: u32)
    requires
        m < SECOND_BINADE,
        k > 0 ==> m >= BINADE,
        k <= 253,
    ensures
        bits == encoded((10 * m) as nat * pow2(k as nat)),
{
    let n: u128 = 10 * m as u128;
    let e: u32 = count_excess(n, SHORT);
    proof {
        lemma2_to64();
        lemma_pow2_pos(e as nat);
        significand_bounds(n as nat, SHORT as nat);
        if e >= 28 {
            if e > 28 {
                lemma_pow2_strictly_increases(28, e as nat);
            }
            assert(pow2(e as nat) <= n);
        }
        if k > 0 {
            encoded_of_shifted(n as nat, k as nat);
        } else {
            assert(n * 1 == n);
        }
    }
    let r: u128 = divide_nearest(n, power_of_two(e));
    (e + k) * BINADE + r as u32
}

/// The whole number nearest to a number that is `m` times 2 to the power of
/// `k - 149`, in terms of `m`.
proof fn whole_is(magnitude: nat)
    requires
        magnitude < INFINITY,
    ensures
        ({
            let m = significand(magnitude);
            let k = doublings(magnitude);
            &&& k >= 149 ==> whole(magnitude) * pow2(149) == m * pow2(k)
            &&& k < 149 ==> whole(magnitude) == (2 * m + pow2((149 - k) as nat)) / pow2(
                (150 - k) as nat,
            )
        }),
{
    let m = significand(magnitude);
    let k = doublings(magnitude);
    let p = pow2(k) as int;
    lemma_pow2_pos(149);
    lemma_pow2_unfold(150);
    let z = pow2(149) as int;
    if k >= 149 {
        let q = pow2((k - 149) as nat) as int;
        lemma_pow2_adds(149, (k - 149) as nat);
        let w = m * q;
        assert(2 * (m * (z * q)) + z == z * (2 * (m * q) + 1)) by (nonlinear_arith);
        assert(m * (z * q) == (m * q) * z) by (nonlinear_arith);
        assert(z * 2 == 2 * z);
        lemma_div_multiples_vanish_quotient(z, 2 * w + 1, 2);
        assert((2 * w + 1) / 2 == w);
    } else {
        let s = (149 - k) as nat;
        lemma_pow2_adds(k, s);
        lemma_pow2_adds(k, (s + 1) as nat);
        lemma_pow2_pos(k);
        lemma_pow2_pos((s + 1) as nat);
        let a = pow2(s) as int;
        let b = pow2((s + 1) as nat) as int;
        assert(2 * (m * p) + p * a == p * (2 * m + a)) by (nonlinear_arith);
        lemma_div_multiples_vanish_quotient(p, 2 * m + a, b);
    }
}

/// Doubling a quotient of full length adds one to its exponent.
proof fn quotient_of_shifted(n: nat, d: nat, k: nat)
    requires
        d > 0,
        n / d >= BINADE,
    ensures
        encoded_quotient(n * pow2(k), d) == encoded_quotient(n, d) + k * BINADE as nat,
        (n * pow2(k)) / d >= BINADE,
    decreases k,
{
    lemma2_to64();
    if k == 0 {
        assert(n * 1 == n);
    } else {
        let j = (k - 1) as nat;
        quotient_of_shifted(n, d, j);
        let a = n * pow2(j);
        lemma_pow2_unfold(k);
        let p = pow2(j) as int;
        assert(n * (2 * p) == 2 * (n * p)) by (nonlinear_arith);
        assert(n * pow2(k) == 2 * a);
        let q = a / d;
        lemma_div_denominator(2 * a as int, d as int, 2);
        lemma_div_multiples_vanish_quotient(2, a as int, d as int);
        assert(2 * d == d * 2);
        assert((2 * a) / d / 2 == q);
        let e = excess(q, 24);
        assert(excess((2 * a) / d, 24) == e + 1);
        lemma_pow2_unfold(e + 1);
        lemma_pow2_pos(e);
        let u = pow2(e) as int;
        assert(d * u > 0) by (nonlinear_arith)
            requires
                d > 0,
                u > 0,
        ;
        assert(d * (2 * u) == 2 * (d * u)) by (nonlinear_arith);
        nearest_of_extended(a, d * pow2(e), 2);
    }
}

/// Divides the whole number nearest to a number by ten.
fn divide_by_ten(mag: u32) -> (bits: u32)
    requires
        mag < INFINITY,
    ensures
        bits == encoded_quotient(whole(mag as nat) * pow2(149), 10),
        bits < SIGN,
{
    let m: u32 = significand_of(mag);
    let k: u32 = doublings_of(mag);
    proof {
        whole_is(mag as nat);
        magnitude_is(mag as nat);
    }
    if k >= 149 {
        return encode_tenth(m, k - 40);
    }
    let down: u32 = 149 - k;
    if down >= 26 {
        proof {
            lemma2_to64();
            if down > 26 {
                lemma_pow2_strictly_increases(26, down as nat);
            }
            lemma_pow2_unfold((down + 1) as nat);
            lemma_basic_div(2 * m + pow2(down as nat), pow2((down + 1) as nat) as int);
            assert(0 * pow2(149) == 0);
            assert(nearest(0, 10 * 1) == 0);
        }
        return 0;
    }
    let half: u32 = power_of_two(down) as u32;
    proof {
        lemma2_to64();
        lemma_pow2_unfold((down + 1) as nat);
        lemma_pow2_pos(down as nat);
        if down < 25 {
            lemma_pow2_strictly_increases(down as nat, 25);
        }
        if down > 1 {
            lemma_pow2_strictly_increases(1, down as nat);
        }
        assert((2 * m + half) / (2 * half) < 0x1000000) by (nonlinear_arith)
            requires
                m < 0x1000000,
                half >= 2,
        ;
    }
    let t: u32 = (2 * m + half) / (2 * half);
    if t == 0 {
        proof {
            assert(0 * pow2(149) == 0);
            assert(nearest(0, 10 * 1) == 0);
        }
        return 0;
    }
    encode_tenth(t, 109)
}

/// A tenth of `m` times 2 to the power of `40 + j - 149`.
fn encode_tenth(m: u32, j: u32) -> (bits: u32)
    requires
        0 < m < SECOND_BINADE,
        j <= 213,
    ensures
        bits == encoded_quotient(m as nat * pow2((40 + j) as nat), 10),
        bits < SIGN,
{
    proof {
        lemma2_to64();
        lemma2_to64_rest();
    }
    let n: u128 = m as u128 * 0x100_0000_0000;
    let e: u32 = count_excess(n / 10, SHORT);
    proof {
        if e >= 38 {
            if e > 38 {
                lemma_pow2_strictly_increases(38, e as nat);
            }
            excess_brackets((n / 10) as nat, SHORT as nat);
            if e > 38 {
                lemma_pow2_strictly_increases(61, (24 + e - 1) as nat);
            }
        }
        lemma_pow2_pos(e as nat);
        quotient_significand(n as nat, 10);
        lemma_pow2_adds(40, j as nat);
        quotient_of_shifted(n as nat, 10, j as nat);
        let p = pow2(j as nat) as int;
        assert(m * (0x100_0000_0000 * p) == (m * 0x100_0000_0000) * p) by (nonlinear_arith);
        lemma_pow2_strictly_increases(e as nat, 64);
    }
    let r: u128 = divide_nearest(n, 10 * power_of_two(e));
    (e + j) * BINADE + r as u32
}

/// The significand that a quotient is rounded to.
proof fn quotient_significand(n: nat, d: nat)
    requires
        d > 0,
    ensures
        ({
            let e = excess(n / d, SHORT as nat);
            let m = nearest(n, d * pow2(e));
            &&& m <= SECOND_BINADE
            &&& e > 0 ==> m >= BINADE
        }),
{
    let q = n / d;
    let e = excess(q, 24);
    excess_brackets(q, 24);
    lemma_pow2_pos(e);
    lemma2_to64();
    let u = pow2(e) as int;
    let unit = d * pow2(e);
    assert(d * u > 0) by (nonlinear_arith)
        requires
            d > 0,
            u > 0,
    ;
    lemma_fundamental_div_mod(n as int, d as int);
    lemma_pow2_adds(24, e);
    let qq = q as int;
    let nn = n as int;
    assert(nn < 0x1000000 * (d * u)) by (nonlinear_arith)
        requires
            nn == d * qq + nn % (d as int),
            0 <= nn % (d as int) < d,
            qq + 1 <= 0x1000000 * u,
            d > 0,
    ;
    nearest_is_ordered(n, 0x1000000 * unit, unit);
    nearest_to_multiple(0x1000000, unit, 0);
    if e > 0 {
        lemma_pow2_adds(23, e);
        assert(0x800000 * (d * u) <= nn) by (nonlinear_arith)
            requires
                nn == d * qq + nn % (d as int),
                0 <= nn % (d as int),
                qq >= 0x800000 * u,
                d > 0,
        ;
        nearest_is_ordered(0x800000 * unit, n, unit);
        nearest_to_multiple(0x800000, unit, 0);
    }
}

/// The bits of 2 to the power of 17. From there on, neighbours are more than
/// 0.005 apart.
const LARGE: u32 = 0x4800_0000;

/// Halfway from 0.005 to its successor, times 2 to the power of 74.
const LIMIT: u128 = 94_447_331_944_377_090_048;

spec fn limit() -> nat {
    21_474_837 * pow2(117)
}

proof fn limit_is()
    ensures
        limit() == LIMIT as nat * pow2(75),
        limit() == 10_737_418 * pow2(118) + pow2(117),
        pow2(118) == 2 * pow2(117),
        pow2(117) > 0,
        pow2(141) == 0x1000000 * pow2(117),
        pow2(142) == 0x2000000 * pow2(117),
        pow2(142) == 0x1000000 * pow2(118),
        pow2(141) == 0x800000 * pow2(118),
{
    lemma2_to64();
    lemma2_to64_rest();
    lemma_pow2_adds(42, 75);
    lemma_pow2_unfold(118);
    lemma_pow2_pos(117);
    lemma_pow2_adds(24, 117);
    lemma_pow2_adds(25, 117);
    lemma_pow2_adds(24, 118);
    lemma_pow2_adds(23, 118);
    let q = pow2(75) as int;
    assert(21_474_837 * (0x400_0000_0000 * q) == (21_474_837 * 0x400_0000_0000) * q)
        by (nonlinear_arith);
}

/// What is rounded to more than 0.005 is what lies beyond the limit.
proof fn close_is(n: nat)
    ensures
        encoded(n) > CLOSE <==> n > limit(),
{
    limit_is();
    let u = pow2(118);
    let l = limit();
    excess_between(l, 24, 118);
    excess_between(l + 1, 24, 118);
    lemma_fundamental_div_mod_converse(l as int, u as int, 10_737_418, pow2(117) as int);
    if n <= l {
        encoding_is_ordered(n, l);
    } else {
        nearest_is_ordered(l + 1, n, u);
        lemma_pow2_pos(116);
        lemma_pow2_unfold(117);
        nearest_to_multiple(10_737_419, u, 1 - pow2(117));
        encoding_is_ordered(l + 1, n);
    }
}

/// Beyond a large number, every other number lies beyond the limit.
proof fn large_are_apart(a: nat, b: nat)
    requires
        LARGE <= a < INFINITY,
        b <= a,
    ensures
        parts(a) > limit(),
        b < a ==> parts(a) - parts(b) > limit(),
{
    limit_is();
    magnitude_is(a);
    lemma2_to64();
    let m = significand(a);
    let k = doublings(a);
    assert(k >= 143);
    lemma_pow2_unfold(k);
    let h = pow2((k - 1) as nat) as int;
    if k > 143 {
        lemma_pow2_strictly_increases(142, (k - 1) as nat);
    }
    assert(h > limit());
    assert(m * (2 * h) >= h) by (nonlinear_arith)
        requires
            m >= 0x800000,
            h > 0,
    ;
    if b < a {
        let c = (a - 1) as nat;
        parts_are_ordered(b, c);
        magnitude_is(c);
        if m > BINADE {
            assert(significand(c) == m - 1 && doublings(c) == k);
            assert((m - 1) * (2 * h) == m * (2 * h) - 2 * h) by (nonlinear_arith);
        } else {
            assert(significand(c) == 0xffffff && doublings(c) == k - 1);
            assert(0x800000 * (2 * h) - 0xffffff * h == h) by (nonlinear_arith);
        }
    }
}

/// No number is near the limit.
proof fn none_is_near_the_limit(magnitude: nat)
    requires
        magnitude < INFINITY,
    ensures
        parts(magnitude) + pow2(117) <= limit() || parts(magnitude) >= limit() + pow2(117),
{
    limit_is();
    magnitude_is(magnitude);
    let m = significand(magnitude);
    let k = doublings(magnitude);
    let o = pow2(117) as int;
    if k <= 117 {
        if k < 117 {
            lemma_pow2_strictly_increases(k, 117);
        }
        let p = pow2(k) as int;
        assert(m * p <= 0x1000000 * o) by (nonlinear_arith)
            requires
                0 <= m <= 0x1000000,
                0 <= p <= o,
        ;
    } else {
        let j = (k - 118) as nat;
        lemma_pow2_adds(j, 118);
        let i = pow2(j) as int;
        let w = m * i;
        assert(m * (i * (2 * o)) == (2 * w) * o) by (nonlinear_arith)
            requires
                w == m * i,
        ;
        if 2 * w <= 21_474_836 {
            assert((2 * w) * o <= 21_474_836 * o) by (nonlinear_arith)
                requires
                    2 * w <= 21_474_836,
                    o > 0,
            ;
        } else {
            assert((2 * w) * o >= 21_474_838 * o) by (nonlinear_arith)
                requires
                    2 * w >= 21_474_838,
                    o > 0,
            ;
        }
    }
}

/// A number times 2 to the power of 74, or 0 if it is too small to matter.
spec fn coarsened(magnitude: nat) -> nat {
    if doublings(magnitude) >= 75 {
        significand(magnitude) * pow2((doublings(magnitude) - 75) as nat)
    } else {
        0
    }
}

/// Leaves out what is too small to matter.
fn coarse(mag: u32) -> (x: u128)
    requires
        mag < LARGE,
    ensures
        x == coarsened(mag as nat),
        x < 0x1_0000_0000_0000_0000_0000_0000,
{
    let m: u32 = significand_of(mag);
    let k: u32 = doublings_of(mag);
    if k < 75 {
        return 0;
    }
    let p: u128 = power_of_two(k - 75);
    proof {
        lemma2_to64();
        lemma_pow2_adds(24, 72);
        lemma_pow2_adds(32, 64);
        assert(0x1_0000_0000nat * 0x1_0000_0000_0000_0000nat
            == 0x1_0000_0000_0000_0000_0000_0000nat);
        assert(k <= 142);
        lemma_pow2_strictly_increases((k - 75) as nat, 72);
        let top = pow2(72) as int;
        lemma_pow2_pos((k - 75) as nat);
        assert(m * p < 0x1000000 * top) by (nonlinear_arith)
            requires
                m < 0x1000000,
                0 < p < top,
        ;
    }
    m as u128 * p
}

proof fn coarsened_is(magnitude: nat)
    requires
        magnitude < LARGE,
    ensures
        doublings(magnitude) >= 75 ==> parts(magnitude) == coarsened(magnitude) * pow2(75),
        doublings(magnitude) < 75 ==> parts(magnitude) < pow2(99),
{
    let m = significand(magnitude);
    let k = doublings(magnitude);
    magnitude_is(magnitude);
    lemma2_to64();
    if k >= 75 {
        lemma_pow2_adds((k - 75) as nat, 75);
        let p = pow2((k - 75) as nat) as int;
        let q = pow2(75) as int;
        assert(m * (p * q) == (m * p) * q) by (nonlinear_arith);
    } else {
        lemma_pow2_strictly_increases(k, 75);
        lemma_pow2_adds(24, 75);
        let p = pow2(k) as int;
        let q = pow2(75) as int;
        lemma_pow2_pos(k);
        assert(m * p < 0x1000000 * q) by (nonlinear_arith)
            requires
                0 <= m < 0x1000000,
                0 < p <= q,
        ;
    }
}

/// What is left out does not matter for whether two numbers are apart.
proof fn coarse_decides(a: nat, b: nat, x: nat, y: nat)
    requires
        a < LARGE,
        b < LARGE,
        x == coarsened(a),
        y == coarsened(b),
    ensures
        parts(a) + parts(b) > limit() <==> x + y > LIMIT,
        distance(parts(a) as int, parts(b) as int) > limit() <==> distance(x as int, y as int)
            > LIMIT,
{
    limit_is();
    coarsened_is(a);
    coarsened_is(b);
    none_is_near_the_limit(a);
    none_is_near_the_limit(b);
    lemma_pow2_adds(18, 99);
    lemma2_to64();
    lemma_pow2_pos(75);
    let q = pow2(75) as int;
    let l = LIMIT as int;
    let v = x as int;
    let w = y as int;
    assert(v > l <==> v * q > l * q) by (nonlinear_arith)
        requires
            q > 0,
    ;
    assert(w > l <==> w * q > l * q) by (nonlinear_arith)
        requires
            q > 0,
    ;
    assert(v + w > l <==> v * q + w * q > l * q) by (nonlinear_arith)
        requires
            q > 0,
    ;
    assert(v - w > l <==> v * q - w * q > l * q) by (nonlinear_arith)
        requires
            q > 0,
    ;
    assert(w - v > l <==> w * q - v * q > l * q) by (nonlinear_arith)
        requires
            q > 0,
    ;
}

/// A quotient does not fall when the number that is divided rises.
proof fn quotient_is_ordered(a: nat, b: nat, d: nat)
    requires
        d > 0,
        a <= b,
    ensures
        encoded_quotient(a, d) <= encoded_quotient(b, d),
{
    let e = excess(a / d, 24);
    let f = excess(b / d, 24);
    lemma_div_is_ordered(a as int, b as int, d as int);
    excess_is_ordered(a / d, b / d, 24);
    lemma_pow2_pos(e);
    if e == f {
        let u = pow2(e) as int;
        assert(d * u > 0) by (nonlinear_arith)
            requires
                d > 0,
                u > 0,
        ;
        nearest_is_ordered(a, b, d * pow2(e));
    } else {
        quotient_significand(a, d);
        quotient_significand(b, d);
    }
}

/// The bits of 100.0.
const HUNDRED: u32 = 0x42c8_0000;

/// What the bits of tenfold 0.1 and tenfold 10.0 are, and what comes back.
proof fn bounds_have_one_decimal()
    ensures
        tenfold(SLOWEST as nat) == NORMAL,
        whole(NORMAL as nat) == 1,
        encoded_quotient(pow2(149), 10) == SLOWEST,
        tenfold(FASTEST as nat) == HUNDRED,
        whole(HUNDRED as nat) == 100,
        encoded_quotient(100 * pow2(149), 10) == FASTEST,
{
    slowest_has_one_decimal();
    fastest_has_one_decimal();
}

proof fn slowest_has_one_decimal()
    ensures
        tenfold(SLOWEST as nat) == NORMAL,
        whole(NORMAL as nat) == 1,
        encoded_quotient(pow2(149), 10) == SLOWEST,
{
    lemma2_to64();
    lemma2_to64_rest();
    let p = pow2(122) as int;
    assert(significand(SLOWEST as nat) == 13_421_773 && doublings(SLOWEST as nat) == 122);
    assert(10 * (13_421_773 * p) == 134_217_730 * p) by (nonlinear_arith);
    encoded_of_shifted(134_217_730, 122);
    excess_between(134_217_730, 24, 4);
    assert(nearest(134_217_730, 16) == 8_388_608);
    whole_is(NORMAL as nat);
    assert(significand(NORMAL as nat) == 0x800000 && doublings(NORMAL as nat) == 126);
    lemma_fundamental_div_mod_converse(0x180_0000, 0x100_0000, 1, 0x80_0000);
    quotient_of_shifted(0x100_0000_0000, 10, 109);
    lemma_pow2_adds(40, 109);
    excess_between(0x100_0000_0000nat / 10, 24, 13);
    lemma_fundamental_div_mod_converse(0x100_0000_0000, 81_920, 13_421_772, 65_536);
    assert(nearest(0x100_0000_0000, 10 * 0x2000) == 13_421_773);
}

proof fn fastest_has_one_decimal()
    ensures
        tenfold(FASTEST as nat) == HUNDRED,
        whole(HUNDRED as nat) == 100,
        encoded_quotient(100 * pow2(149), 10) == FASTEST,
{
    lemma2_to64();
    lemma2_to64_rest();
    let q = pow2(129) as int;
    assert(significand(FASTEST as nat) == 0xa00000 && doublings(FASTEST as nat) == 129);
    assert(10 * (0xa00000 * q) == 104_857_600 * q) by (nonlinear_arith);
    encoded_of_shifted(104_857_600, 129);
    excess_between(104_857_600, 24, 3);
    assert(nearest(104_857_600, 8) == 13_107_200);
    whole_is(HUNDRED as nat);
    assert(significand(HUNDRED as nat) == 13_107_200 && doublings(HUNDRED as nat) == 132);
    lemma_fundamental_div_mod_converse(26_345_472, 0x4_0000, 100, 131_072);
    let r = pow2(109) as int;
    lemma_pow2_adds(40, 109);
    assert(100 * (0x100_0000_0000 * r) == 0x6400_0000_0000 * r) by (nonlinear_arith);
    quotient_of_shifted(0x6400_0000_0000, 10, 109);
    excess_between(0x6400_0000_0000nat / 10, 24, 20);
    lemma_fundamental_div_mod_converse(0x6400_0000_0000, 10_485_760, 10_485_760, 0);
    assert(nearest(0x6400_0000_0000, 10 * 0x10_0000) == 0xa00000);
}

/// The tenths of a speed within bounds.
proof fn tenths_of_a_speed(speed: Speed)
    requires
        speed.in_bounds(),
    ensures
        tenfold(speed.magnitude()) <= HUNDRED,
        1 <= whole(tenfold(speed.magnitude())) <= 100,
{
    let mag = speed.magnitude();
    let ten = tenfold(mag);
    bounds_have_one_decimal();
    parts_are_ordered(SLOWEST as nat, mag);
    parts_are_ordered(mag, FASTEST as nat);
    encoding_is_ordered(10 * parts(SLOWEST as nat), 10 * parts(mag));
    encoding_is_ordered(10 * parts(mag), 10 * parts(FASTEST as nat));
    parts_are_ordered(NORMAL as nat, ten);
    parts_are_ordered(ten, HUNDRED as nat);
    lemma_pow2_pos(150);
    let z = pow2(149) as int;
    lemma_div_is_ordered(
        2 * parts(NORMAL as nat) + z,
        2 * parts(ten) + z,
        pow2(150) as int,
    );
    lemma_div_is_ordered(
        2 * parts(ten) + z,
        2 * parts(HUNDRED as nat) + z,
        pow2(150) as int,
    );
}

/// A speed within bounds stays within bounds when it is rounded to one decimal.
pub proof fn rounding_stays_in_bounds(speed: Speed)
    requires
        speed.in_bounds(),
    ensures
        speed.with_one_decimal().in_bounds(),
{
    tenths_of_a_speed(speed);
    tenths_are_in_bounds(whole(tenfold(speed.magnitude())));
}

proof fn tenths_are_in_bounds(t: nat)
    requires
        1 <= t <= 100,
    ensures
        SLOWEST <= encoded_quotient(t * pow2(149), 10) <= FASTEST,
{
    bounds_have_one_decimal();
    let z = pow2(149) as int;
    assert(z <= t * z <= 100 * z) by (nonlinear_arith)
        requires
            1 <= t <= 100,
            z >= 0,
    ;
    quotient_is_ordered(pow2(149), t * pow2(149), 10);
    quotient_is_ordered(t * pow2(149), 100 * pow2(149), 10);
}

/// A slider that follows the speed that is played is not off it.
pub proof fn slider_keeps_up(slider: Speed, played: Speed)
    ensures
        !slider.followed(played).apart(played),
{
    encoded_of_zero();
}

/// Rounding a speed that was rounded before changes nothing.
pub proof fn rounding_once_is_enough(speed: Speed)
    requires
        speed.in_bounds(),
    ensures
        speed.with_one_decimal().with_one_decimal() == speed.with_one_decimal(),
{
    let t = whole(tenfold(speed.magnitude()));
    let n = t * pow2(149);
    tenths_of_a_speed(speed);
    rounding_stays_in_bounds(speed);
    let next = speed.with_one_decimal();
    tenths_of_a_speed(next);
    tenth_reads_back(t);
    tenths_are_in_bounds(t);
    assert(next.magnitude() == encoded_quotient(n, 10));
}

/// Ten times a tenth of a whole number is that number again, once rounded.
proof fn tenth_reads_back(t: nat)
    requires
        1 <= t <= 100,
    ensures
        ({
            let r = encoded_quotient(t * pow2(149), 10);
            whole(encoded(10 * parts(r))) == t
        }),
{
    lemma2_to64();
    lemma2_to64_rest();
    let z = pow2(149) as int;
    lemma_pow2_pos(149);
    lemma_pow2_unfold(150);
    lemma_pow2_adds(33, 116);
    let n = t * pow2(149);
    assert(z <= n <= 100 * z) by (nonlinear_arith)
        requires
            n == t * z,
            1 <= t <= 100,
            z > 0,
    ;
    let q = n / 10;
    let e = excess(q, 24);
    let u = pow2(e) as int;
    excess_brackets(q, 24);
    quotient_significand(n, 10);
    lemma_pow2_pos(e);
    lemma_pow2_pos(116);
    assert(q >= 0x1000000);
    lemma_pow2_adds(23, e);
    assert(10 * (0x800000 * u) <= n);
    let m = nearest(n, 10 * pow2(e));
    nearest_is_close(n, 10 * pow2(e));
    parts_of(e, m);
    let r = encoded_quotient(n, 10);
    let p = 10 * parts(r);
    assert(m * (10 * u) == 10 * (m * u)) by (nonlinear_arith);
    assert(2 * distance(p as int, n as int) <= 10 * u);
    let f = excess(p, 24);
    let v = pow2(f) as int;
    excess_brackets(p, 24);
    significand_bounds(p, 24);
    lemma_pow2_pos(f);
    lemma_pow2_adds(23, f);
    assert(p >= 0x1000000);
    assert(0x800000 * v <= p);
    let m2 = nearest(p, pow2(f));
    nearest_is_close(p, pow2(f));
    parts_of(f, m2);
    let w = m2 * pow2(f);
    assert(parts(encoded(p)) == w);
    assert(2 * distance(w as int, n as int) < z);
    let x = 2 * w + z - 2 * n;
    assert(2 * w + z == t * (2 * z) + x) by (nonlinear_arith)
        requires
            x == 2 * w + z - 2 * n,
            n == t * z,
    ;
    lemma_fundamental_div_mod_converse(2 * w + z, 2 * z, t as int, x);
}

/// No number is nearer to a quotient than the one that is encoded.
proof fn quotient_is_nearest(n: nat, d: nat, other: nat)
    requires
        d > 0,
        n / d >= SECOND_BINADE,
        other < INFINITY,
    ensures
        distance((d * parts(encoded_quotient(n, d))) as int, n as int) <= distance(
            (d * parts(other)) as int,
            n as int,
        ),
{
    let q = n / d;
    let e = excess(q, 24);
    let u = pow2(e) as int;
    let unit = d * pow2(e);
    let m = nearest(n, unit);
    let dd = d as int;
    lemma2_to64();
    lemma_pow2_pos(e);
    excess_brackets(q, 24);
    quotient_significand(n, d);
    parts_of(e, m);
    magnitude_is(other);
    assert(dd * u > 0) by (nonlinear_arith)
        requires
            dd > 0,
            u > 0,
    ;
    assert(dd * (m * u) == m * (dd * u)) by (nonlinear_arith);
    let k = doublings(other);
    let o = significand(other) as int;
    if k >= e {
        lemma_pow2_adds((k - e) as nat, e);
        let r = pow2((k - e) as nat) as int;
        assert(dd * (o * (r * u)) == (o * r) * (dd * u)) by (nonlinear_arith);
        assert(o * r >= 0) by (nonlinear_arith)
            requires
                o >= 0,
                r >= 0,
        ;
        nearest_is_best(n, unit, (o * r) as nat);
    } else {
        nearest_is_best(n, unit, 0x800000);
        lemma_pow2_adds(23, e);
        lemma_fundamental_div_mod(n as int, dd);
        let j = (e - 1) as nat;
        if k < j {
            lemma_pow2_strictly_increases(k, j);
        }
        lemma_pow2_unfold(e);
        let p = pow2(k) as int;
        let h = pow2(j) as int;
        lemma_pow2_pos(k);
        assert(o * p <= 0x800000 * u) by (nonlinear_arith)
            requires
                0 <= o <= 0x1000000,
                0 < p <= h,
                u == 2 * h,
        ;
        assert(dd * (o * p) <= 0x800000 * (dd * u)) by (nonlinear_arith)
            requires
                o * p <= 0x800000 * u,
                dd > 0,
        ;
        let qq = q as int;
        assert(0x800000 * (dd * u) <= dd * qq) by (nonlinear_arith)
            requires
                0x800000 * u <= qq,
                dd > 0,
        ;
    }
}

/// A speed within bounds that is near a number of tenths becomes the speed that is
/// nearest to it.
#[verifier::rlimit(40)]
pub proof fn rounding_gives_the_nearest_tenth(speed: Speed, tenths: nat, other: Speed)
    requires
        speed.in_bounds(),
        other.bits < INFINITY,
        distance(10 * speed.value(), (tenths * pow2(149)) as int) < pow2(148) - pow2(132),
    ensures
        distance(10 * speed.with_one_decimal().value(), (tenths * pow2(149)) as int) <= distance(
            10 * other.value(),
            (tenths * pow2(149)) as int,
        ),
{
    let mag = speed.magnitude();
    let p = 10 * parts(mag);
    let n = tenths * pow2(149);
    let z = pow2(149) as int;
    lemma2_to64();
    lemma_pow2_pos(149);
    lemma_pow2_unfold(149);
    lemma_pow2_unfold(150);
    lemma_pow2_adds(16, 132);
    lemma_pow2_pos(132);
    tenths_of_a_speed(speed);
    parts_are_ordered(mag, FASTEST as nat);
    parts_are_ordered(SLOWEST as nat, mag);
    bounds_are_what_they_say(0);
    bounds_are_what_they_say(NORMAL as nat);
    numbers_are_read_from_their_bits(0);
    tenth_is();
    lemma_pow2_adds(13, 132);
    let f = excess(p, 24);
    let v = pow2(f) as int;
    excess_brackets(p, 24);
    significand_bounds(p, 24);
    lemma_pow2_pos(f);
    lemma_pow2_adds(23, f);
    let m = nearest(p, pow2(f));
    nearest_is_close(p, pow2(f));
    assert(p >= 0x1000000);
    parts_of(f, m);
    let w = (m * pow2(f)) as int;
    assert(parts(encoded(p)) == w);
    assert(p <= 100 * z);
    assert(v <= 2 * pow2(132));
    assert(2 * distance(w, n as int) < z);
    let x = 2 * w + z - 2 * n;
    assert(2 * w + z == tenths * (2 * z) + x) by (nonlinear_arith)
        requires
            x == 2 * w + z - 2 * n,
            n == tenths * z,
    ;
    lemma_fundamental_div_mod_converse(2 * w + z, 2 * z, tenths as int, x);
    assert(whole(tenfold(mag)) == tenths);
    tenths_are_in_bounds(tenths);
    assert(n >= z) by (nonlinear_arith)
        requires
            n == tenths * z,
            tenths >= 1,
            z > 0,
    ;
    assert(n / 10 >= SECOND_BINADE) by {
        lemma_div_is_ordered(0x1000_0000, n as int, 10);
    }
    quotient_is_nearest(n, 10, other.magnitude());
}

/// A slider is off the speed that is played if the two are further apart than half
/// a digit beyond 0.005, and not if they are less: 0.005 is 21,474,836 times 2 to
/// the power of -32, and half a digit is one more.
pub proof fn slider_is_off_beyond_a_limit(slider: Speed, played: Speed)
    requires
        slider.is_finite(),
        played.is_finite(),
    ensures
        slider.apart(played) <==> distance(slider.value(), played.value()) > 21_474_837 * pow2(117),
        parts(CLOSE as nat) == 21_474_836 * pow2(117),
{
    close_is(distance(slider.value(), played.value()) as nat);
    limit_is();
    assert(significand(CLOSE as nat) == 10_737_418 && doublings(CLOSE as nat) == 118);
}

/// A slider follows the speed that is played where it is off, and stays where it
/// is otherwise. What is no number is not followed, and what is infinite is, but
/// by itself.
pub proof fn slider_moves_when_it_is_off(slider: Speed, played: Speed)
    ensures
        slider.followed(played) == slider || slider.followed(played) == played,
        slider.apart(played) ==> slider.followed(played) == played,
        !slider.apart(played) ==> slider.followed(played) == slider,
        slider.apart(played) == played.apart(slider),
        slider.is_nan() || played.is_nan() ==> !slider.apart(played),
        !slider.is_nan() && !played.is_nan() && !(slider.is_finite() && played.is_finite()) ==> (
        slider.apart(played) <==> slider.bits != played.bits),
{
}

/// What is not finite stays as it is when it is rounded, and the sign always does.
pub proof fn rounding_keeps_the_sign(speed: Speed)
    ensures
        !speed.is_finite() ==> speed.with_one_decimal() == speed,
        speed.in_bounds() ==> speed.with_one_decimal().bits < SIGN,
{
    if speed.in_bounds() {
        rounding_stays_in_bounds(speed);
    }
}

} // verus!
