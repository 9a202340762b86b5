//! Beats per minute.

use crate::rounding::{
    count_excess, distance, divide_nearest, excess, excess_brackets, nearest, nearest_is_close,
    nearest_of_half_is_even, nearest_to_multiple, power_of_two, round_to, rounded,
    rounded_is_ordered, rounded_of_shifted, rounded_of_short,
};
use crate::text::{decimal, decimal_text};
use vstd::arithmetic::div_mod::{
    lemma_div_multiples_vanish, lemma_fundamental_div_mod, lemma_fundamental_div_mod_converse,
};
use vstd::arithmetic::power2::{
    lemma2_to64, lemma2_to64_rest, lemma_pow2_adds, lemma_pow2_pos,
    lemma_pow2_strictly_increases, pow2,
};
use vstd::prelude::*;

verus! {

/// The microseconds in a minute.
pub const MINUTE: u32 = 60_000_000;

/// A number of beats per minute, by the length of a beat in microseconds: it is
/// a minute divided by that length. A beat of no length at all makes it
/// infinite.
#[derive(Clone, Copy, Debug, PartialEq, Eq, Structural)]
pub struct Bpm {
    pub micros_per_beat: u32,
}

/// The binary digits that a double-precision number has.
pub const DIGITS: u32 = 53;

/// A minute in microseconds, times the 59th power of two.
pub const MINUTE_IN_PARTS: u128 = 34_587_645_138_205_409_280_000_000;

/// Half a beat, times the 59th power of two.
pub const HALF_A_BEAT: u128 = 288_230_376_151_711_744;

/// `MINUTE / t` in double precision, times the 59th power of two. That makes it
/// a whole number: even for the largest `t`, the last of the 53 binary digits of
/// the quotient is worth no less than 2 to the power of -59.
pub open spec fn beats(t: u32) -> nat
    recommends
        t > 0,
{
    let unit = pow2(excess(MINUTE_IN_PARTS as nat / t as nat, DIGITS as nat));
    nearest(MINUTE_IN_PARTS as nat, t as nat * unit) * unit
}

/// Whether `MINUTE / a` and `MINUTE / b` are half a beat or more apart, the
/// quotients and their difference all in double precision. An infinite number
/// of beats is apart from every finite one, and not from itself.
pub open spec fn half_a_beat_apart(a: u32, b: u32) -> bool {
    if a == 0 || b == 0 {
        a != b
    } else {
        rounded(distance(beats(a) as int, beats(b) as int) as nat, DIGITS as nat) >= HALF_A_BEAT
    }
}

fn count_beats(t: u32) -> (n: u128)
    requires
        t > 0,
    ensures
        n == beats(t),
        n <= 2 * MINUTE_IN_PARTS,
{
    let quotient: u128 = MINUTE_IN_PARTS / t as u128;
    let e: u32 = count_excess(quotient, DIGITS);
    let unit: u128 = power_of_two(e);
    proof {
        lemma_pow2_pos(e as nat);
        let m = MINUTE_IN_PARTS as int;
        let tt = t as int;
        let q = quotient as int;
        let u = unit as int;
        lemma_fundamental_div_mod(m, tt);
        assert(q > 0) by (nonlinear_arith)
            requires
                m == tt * q + m % tt,
                0 <= m % tt < tt,
                tt <= u32::MAX,
                m == 34_587_645_138_205_409_280_000_000,
        ;
        assert(0 < tt * u <= m) by (nonlinear_arith)
            requires
                m == tt * q + m % tt,
                0 <= m % tt,
                0 < u <= q,
                0 < tt,
        ;
        let d = tt * u;
        let near = nearest(m as nat, d as nat) as int;
        lemma_fundamental_div_mod(m, d);
        assert(near * u <= 2 * m) by (nonlinear_arith)
            requires
                near <= m / d + 1,
                m == d * (m / d) + m % d,
                0 <= m % d,
                d == tt * u,
                d <= m,
                0 < u,
                1 <= tt,
                0 <= m / d,
        {
            assert((m / d) * u <= (m / d) * d);
            assert(u <= d);
            assert(near * u <= (m / d) * u + u);
        }
    }
    divide_nearest(MINUTE_IN_PARTS, t as u128 * unit) * unit
}

/// Whether the tempo has moved so far from the one on display, if there is one,
/// that the display is due for a change.
pub open spec fn display_due(shown: Option<Bpm>, tempo: u32) -> bool {
    match shown {
        Some(bpm) => half_a_beat_apart(bpm.micros_per_beat, tempo),
        None => true,
    }
}

/// What is on display after a change of tempo.
pub open spec fn shown_after(shown: Option<Bpm>, tempo: u32) -> Option<Bpm> {
    if display_due(shown, tempo) {
        Some(Bpm { micros_per_beat: tempo })
    } else {
        shown
    }
}

/// Decides whether a change of tempo calls for a change of the display.
pub fn is_display_due(shown: Option<Bpm>, tempo: u32) -> (due: bool)
    ensures
        due == display_due(shown, tempo),
{
    match shown {
        None => true,
        Some(bpm) => {
            let a: u32 = bpm.micros_per_beat;
            let b: u32 = tempo;
            if a == 0 || b == 0 {
                a != b
            } else {
                let x: u128 = count_beats(a);
                let y: u128 = count_beats(b);
                let apart: u128 = if x <= y {
                    y - x
                } else {
                    x - y
                };
                round_to(apart, DIGITS) >= HALF_A_BEAT
            }
        },
    }
}

impl Bpm {
    /// The number, rounded to a whole one.
    pub open spec fn shown(self) -> Seq<char> {
        if self.micros_per_beat == 0 {
            "inf"@
        } else {
            decimal(nearest(MINUTE as nat, self.micros_per_beat as nat))
        }
    }

    /// Writes the number, rounded to a whole one.
    pub fn text(self) -> (text: String)
        ensures
            text@ == self.shown(),
    {
        let t: u32 = self.micros_per_beat;
        if t == 0 {
            "inf".to_owned()
        } else {
            decimal_text(divide_nearest(MINUTE as u128, t as u128))
        }
    }
}

/// No whole number is nearer to the number of beats than the one on display.
pub proof fn shown_bpm_is_nearest(micros_per_beat: u32, other: nat)
    requires
        micros_per_beat > 0,
    ensures
        distance(
            nearest(MINUTE as nat, micros_per_beat as nat) * micros_per_beat,
            MINUTE as int,
        ) <= distance(other * micros_per_beat, MINUTE as int),
{
    let t = micros_per_beat as int;
    let m = MINUTE as int;
    let q = m / t;
    let r = m % t;
    let best = nearest(m as nat, t as nat) as int;
    lemma_fundamental_div_mod(m, t);
    assert(m == q * t + r && 0 <= r < t) by (nonlinear_arith)
        requires
            m == t * q + r,
            0 <= r < t,
    ;
    assert((q + 1) * t == q * t + t) by (nonlinear_arith);
    if other <= q {
        assert(other * t <= q * t) by (nonlinear_arith)
            requires
                other <= q,
                t > 0,
        ;
    } else {
        assert(other * t >= q * t + t) by (nonlinear_arith)
            requires
                other >= q + 1,
                t > 0,
        ;
    }
    assert(best * t == q * t || best * t == q * t + t);
}

/// How far the number of beats in double precision is from the number of beats.
proof fn beats_are_close(t: u32)
    requires
        t > 0,
    ensures
        distance((beats(t) * t) as int, MINUTE_IN_PARTS as int) <= 3_840_000_000,
{
    let m = MINUTE_IN_PARTS as nat;
    let tt = t as nat;
    let q = m / tt;
    let e = excess(q, 53);
    let u = pow2(e);
    excess_brackets(q, 53);
    lemma_pow2_pos(e);
    lemma_fundamental_div_mod(m as int, tt as int);
    let d = tt * u;
    assert(0 < tt * u) by (nonlinear_arith)
        requires
            0 < tt,
            0 < u,
    ;
    nearest_is_close(m, d);
    let n = nearest(m, d) as int;
    assert((n * u) * tt == n * (tt * u)) by (nonlinear_arith);
    if e == 0 {
        lemma2_to64();
        assert(tt * 1 == tt);
    } else {
        lemma_pow2_adds(52, e);
        lemma2_to64();
        lemma2_to64_rest();
        let uu = u as int;
        assert(0x10_0000_0000_0000 * (tt * uu) <= m) by (nonlinear_arith)
            requires
                m == tt * q + m as int % tt as int,
                0 <= m as int % tt as int,
                0x10_0000_0000_0000 * uu <= q,
                0 < tt,
        ;
    }
}

/// The whole number on display is the one that is nearest to the number of beats
/// in double precision, too.
pub proof fn shown_bpm_is_that_of_double_precision(micros_per_beat: u32)
    requires
        micros_per_beat > 0,
    ensures
        nearest(beats(micros_per_beat), pow2(59)) == nearest(
            MINUTE as nat,
            micros_per_beat as nat,
        ),
{
    let t = micros_per_beat as int;
    let m = MINUTE as int;
    let b = beats(micros_per_beat) as int;
    let q = m / t;
    let r = m % t;
    let unit = pow2(59) as int;
    lemma2_to64();
    lemma2_to64_rest();
    beats_are_close(micros_per_beat);
    lemma_fundamental_div_mod(m, t);
    assert(unit == 0x800_0000_0000_0000);
    assert(m * unit == MINUTE_IN_PARTS);
    let qt = q * t;
    assert(t * q == qt) by (nonlinear_arith)
        requires
            qt == q * t,
    ;
    if 2 * r == t {
        half_beats_are_exact(micros_per_beat);
        lemma_fundamental_div_mod_converse(b, unit, q, unit / 2);
    } else {
        let best = if 2 * r < t {
            q
        } else {
            q + 1
        };
        let x = b - best * unit;
        assert((q + 1) * t == q * t + t) by (nonlinear_arith);
        assert((b - best * unit) * t == b * t - (best * t) * unit) by (nonlinear_arith);
        let y = b * t - MINUTE_IN_PARTS;
        let z = m - best * t;
        assert(x * t == y + z * unit);
        assert(-t < 2 * z < t);
        assert(2 * z <= t - 1 && 2 * z >= 1 - t);
        assert(2 * x < unit) by (nonlinear_arith)
            requires
                x * t == y + z * unit,
                2 * z <= t - 1,
                y <= 3_840_000_000,
                unit == 0x800_0000_0000_0000,
                t > 0,
        ;
        assert(2 * x > -unit) by (nonlinear_arith)
            requires
                x * t == y + z * unit,
                2 * z >= 1 - t,
                y >= -3_840_000_000,
                unit == 0x800_0000_0000_0000,
                t > 0,
        ;
        nearest_to_multiple(best as nat, unit as nat, x);
    }
}

/// A number of beats that is halfway between two whole numbers is exact in
/// double precision.
proof fn half_beats_are_exact(t: u32)
    requires
        t > 0,
        2 * (MINUTE as int % t as int) == t,
    ensures
        beats(t) == (2 * (MINUTE as nat / t as nat) + 1) * pow2(58),
{
    let tt = t as int;
    let m = MINUTE_IN_PARTS as int;
    let w = 2 * (MINUTE as int / tt) + 1;
    lemma2_to64();
    lemma2_to64_rest();
    lemma_fundamental_div_mod(MINUTE as int, tt);
    assert(2 * MINUTE == tt * w) by (nonlinear_arith)
        requires
            MINUTE == tt * (MINUTE as int / tt) + MINUTE as int % tt,
            2 * (MINUTE as int % tt) == tt,
            w == 2 * (MINUTE as int / tt) + 1,
    ;
    assert(0 < w <= 120_000_000) by (nonlinear_arith)
        requires
            120_000_000 == tt * w,
            tt >= 1,
    ;
    let h = pow2(58) as int;
    let whole = w * h;
    assert(m == (w * h) * tt) by (nonlinear_arith)
        requires
            m == 120_000_000 * h,
            120_000_000 == tt * w,
    ;
    lemma_div_multiples_vanish(whole, tt);
    assert((w * h) * tt == tt * (w * h)) by (nonlinear_arith);
    assert(m / tt == whole);
    let e = excess(whole as nat, 53);
    excess_brackets(whole as nat, 53);
    if e > 58 {
        if e > 59 {
            lemma_pow2_strictly_increases(111, (53 + e - 1) as nat);
        }
        lemma_pow2_adds(53, 58);
        assert(whole < 0x20_0000_0000_0000 * h) by (nonlinear_arith)
            requires
                whole == w * h,
                w <= 120_000_000,
                h > 0,
        ;
    }
    let f = (58 - e) as nat;
    lemma_pow2_adds(e, f);
    lemma_pow2_pos(e);
    let u = pow2(e) as int;
    let v = pow2(f) as int;
    assert(tt * u > 0) by (nonlinear_arith)
        requires
            tt > 0,
            u > 0,
    ;
    assert((w * (u * v)) * tt == (w * v) * (tt * u)) by (nonlinear_arith);
    assert((w * v) * u == w * (u * v)) by (nonlinear_arith);
    assert(w * v >= 0) by (nonlinear_arith)
        requires
            w > 0,
            v >= 0,
    ;
    nearest_to_multiple((w * v) as nat, (tt * u) as nat, 0);
}

/// After every change of tempo, the number on display is less than half a beat
/// away from the tempo that is played.
pub proof fn display_keeps_up(shown: Option<Bpm>, tempo: u32)
    ensures
        shown_after(shown, tempo) is Some,
        !half_a_beat_apart(shown_after(shown, tempo)->0.micros_per_beat, tempo),
{
    lemma_pow2_pos(DIGITS as nat);
    rounded_of_short(0, DIGITS as nat);
}

/// Which of two tempos is the first does not matter, and none is apart from
/// itself.
pub proof fn being_apart_is_mutual(a: u32, b: u32)
    ensures
        half_a_beat_apart(a, b) == half_a_beat_apart(b, a),
        !half_a_beat_apart(a, a),
        a > 0 ==> half_a_beat_apart(a, 0),
{
    lemma_pow2_pos(DIGITS as nat);
    rounded_of_short(0, DIGITS as nat);
}

/// Tempos are apart if their exact numbers of beats per minute are more than half
/// a beat from each other, and not apart if they are less. Double precision has a
/// say only where the two are within 2 to the power of -25 of half a beat.
pub proof fn half_a_beat_decides(a: u32, b: u32)
    requires
        a > 0,
        b > 0,
    ensures
        ({
            let beats_apart = 60_000_000 * distance(a as int, b as int) * 0x200_0000;
            let both = a as int * b as int;
            &&& beats_apart >= 0x100_0001 * both ==> half_a_beat_apart(a, b)
            &&& beats_apart <= 0xff_ffff * both ==> !half_a_beat_apart(a, b)
        }),
{
    if a <= b {
        half_a_beat_decides_in_order(a, b);
    } else {
        half_a_beat_decides_in_order(b, a);
        being_apart_is_mutual(a, b);
        assert(a as int * b as int == b as int * a as int) by (nonlinear_arith);
    }
}

proof fn half_a_beat_decides_in_order(a: u32, b: u32)
    requires
        0 < a <= b,
    ensures
        ({
            let beats_apart = 60_000_000 * (b - a) * 0x200_0000;
            let both = a as int * b as int;
            &&& beats_apart >= 0x100_0001 * both ==> half_a_beat_apart(a, b)
            &&& beats_apart <= 0xff_ffff * both ==> !half_a_beat_apart(a, b)
        }),
{
    let x = beats(a) as int;
    let y = beats(b) as int;
    let aa = a as int;
    let bb = b as int;
    let m = MINUTE_IN_PARTS as int;
    let s = aa * bb;
    beats_are_close(a);
    beats_are_close(b);
    let f = x * aa - m;
    let g = y * bb - m;
    let z = x - y;
    let dd = 60_000_000 * (bb - aa) * 0x200_0000;
    assert(z * s == (x * aa) * bb - (y * bb) * aa) by (nonlinear_arith)
        requires
            s == aa * bb,
            z == x - y,
    ;
    assert((m + f) * bb == m * bb + f * bb) by (nonlinear_arith);
    assert((m + g) * aa == m * aa + g * aa) by (nonlinear_arith);
    assert(m * bb - m * aa == dd * 0x4_0000_0000) by {
        assert(m == 60_000_000 * 0x200_0000 * 0x4_0000_0000);
    }
    let r = f * bb - g * aa;
    assert(-7_680_000_000 * s <= r <= 7_680_000_000 * s) by (nonlinear_arith)
        requires
            r == f * bb - g * aa,
            s == aa * bb,
            aa >= 1,
            bb >= 1,
            -3_840_000_000 <= f <= 3_840_000_000,
            -3_840_000_000 <= g <= 3_840_000_000,
    {
        assert(f * bb <= 3_840_000_000 * bb && f * bb >= -3_840_000_000 * bb);
        assert(g * aa <= 3_840_000_000 * aa && g * aa >= -3_840_000_000 * aa);
        assert(bb <= s && aa <= s);
    }
    assert(z * s == dd * 0x4_0000_0000 + r);
    lemma2_to64();
    lemma2_to64_rest();
    let half = 0x400_0000_0000_0000int;
    assert(s > 0) by (nonlinear_arith)
        requires
            s == aa * bb,
            aa >= 1,
            bb >= 1,
    ;
    if dd >= 0x100_0001 * s {
        assert(z >= half) by (nonlinear_arith)
            requires
                z * s >= half * s,
                s > 0,
        ;
        rounded_is_ordered(half as nat, z as nat, 53);
        rounded_of_short(1, 53);
        rounded_of_shifted(1, 58, 53);
        assert(1 * pow2(58) == half);
    }
    if dd <= 0xff_ffff * s {
        let top = half - 0x2_0000_0000;
        assert(z <= top) by (nonlinear_arith)
            requires
                z * s <= top * s,
                s > 0,
        ;
        assert(z >= -7_680_000_000) by (nonlinear_arith)
            requires
                z * s >= -7_680_000_000 * s,
                s > 0,
        ;
        let d = distance(x, y);
        assert(0 <= d <= top);
        rounded_is_ordered(d as nat, top as nat, 53);
        rounded_of_short(0x1ff_ffff, 53);
        rounded_of_shifted(0x1ff_ffff, 33, 53);
        assert(0x1ff_ffff * pow2(33) == top);
    }
}

/// The number on display is the whole number that is less than half a beat from a
/// minute over the length of a beat, the even one of two that are half a beat
/// from it, and infinite for a beat of no length.
pub proof fn beats_are_shown_as_a_whole_number(micros_per_beat: u32, whole: nat)
    ensures
        ({
            let shown = (Bpm { micros_per_beat }).shown();
            let t = micros_per_beat as int;
            &&& t == 0 ==> shown == "inf"@
            &&& 2 * distance(whole * t, 60_000_000) < t ==> shown == decimal(whole)
            &&& t > 0 && 2 * (60_000_000 - whole * t) == t ==> shown == decimal(
                if whole % 2 == 0 {
                    whole
                } else {
                    whole + 1
                },
            )
        }),
{
    let t = micros_per_beat as int;
    if t > 0 {
        if 2 * distance(whole * t, 60_000_000) < t {
            nearest_to_multiple(whole, t as nat, 60_000_000 - whole * t);
        }
        if 2 * (60_000_000 - whole * t) == t {
            let h = t / 2;
            assert(whole * t == whole * (2 * h));
            nearest_of_half_is_even(whole, h as nat);
        }
    }
}

/// The first tempo is put on display, and after that one that is half a beat or
/// more from the one that is there.
pub proof fn display_changes_when_due(shown: Bpm, tempo: u32)
    ensures
        display_due(None, tempo),
        shown_after(None, tempo) == Some(Bpm { micros_per_beat: tempo }),
        display_due(Some(shown), tempo) == half_a_beat_apart(shown.micros_per_beat, tempo),
        shown_after(Some(shown), tempo) == if half_a_beat_apart(shown.micros_per_beat, tempo) {
            Some(Bpm { micros_per_beat: tempo })
        } else {
            Some(shown)
        },
{
}

} // verus!
