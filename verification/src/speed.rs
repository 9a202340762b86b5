//! The playback speed and its bounds.
//!
//! A speed is an IEEE 754 number in single precision, held by its bits. What is
//! computed with it is computed on whole numbers: every finite speed is a whole
//! multiple of the smallest one above zero, 2 to the power of -149.

use crate::rounding::{
    count_excess, distance, divide_nearest, excess, excess_between, excess_brackets,
    excess_is_ordered, nearest, nearest_is_best, nearest_is_ordered, nearest_of_extended,
    nearest_of_half_is_even, nearest_to_multiple, power_of_two, round_to, rounded,
    rounded_is_near, rounded_is_ordered, rounded_of_shifted, rounded_of_short,
    significand_bounds,
};
use crate::text::{decimal, decimal_text};
use crate::track::LONGEST_IN_MICROS;
use vstd::arithmetic::div_mod::{
    lemma_basic_div, lemma_div_is_ordered, lemma_div_multiples_vanish,
    lemma_div_multiples_vanish_quotient, lemma_fundamental_div_mod,
};
use vstd::arithmetic::power2::{
    lemma2_to64, lemma2_to64_rest, lemma_pow2_adds, lemma_pow2_pos,
    lemma_pow2_strictly_increases, lemma_pow2_unfold, pow2,
};
use vstd::prelude::*;

verus! {

/// How many times faster than normal a track is played: an IEEE 754 number in
/// single precision, by its bits.
#[derive(Clone, Copy, Debug, PartialEq, Eq, Structural)]
pub struct Speed {
    pub bits: u32,
}

/// The bits of 10.0, above which the speed cannot be raised.
pub const FASTEST: u32 = 0x4120_0000;

/// The bits of 0.1, below which the speed cannot be lowered.
pub const SLOWEST: u32 = 0x3dcc_cccd;

/// The bits of 1.0.
pub const NORMAL: u32 = 0x3f80_0000;

/// The bit that holds the sign.
pub const SIGN: u32 = 0x8000_0000;

/// The bits of infinity. With the sign aside, all that lies above is no number.
pub const INFINITY: u32 = 0x7f80_0000;

/// The bits of the smallest number with a significand of full length, and the
/// distance between the bits of a number and of its double.
pub const BINADE: u32 = 0x0080_0000;

/// The first number whose last digit is worth more than the smallest number
/// there is.
pub const SECOND_BINADE: u32 = 0x0100_0000;

/// How often 0.1 in single precision holds 2 to the power of -27.
pub const TENTH: u32 = 13_421_773;

/// The digits of a significand in single precision.
pub const SHORT: u32 = 24;

/// The digits of a significand in double precision.
pub const LONG: u32 = 53;

/// The significand of the finite number whose bits, without the sign, are
/// `magnitude`.
pub open spec fn significand(magnitude: nat) -> nat {
    if magnitude < SECOND_BINADE {
        magnitude
    } else {
        BINADE as nat + magnitude % BINADE as nat
    }
}

/// How many doublings stand between the significand and the number.
pub open spec fn doublings(magnitude: nat) -> nat {
    if magnitude < SECOND_BINADE {
        0
    } else {
        (magnitude / BINADE as nat - 1) as nat
    }
}

/// The finite number whose bits, without the sign, are `magnitude`, times 2 to
/// the power of 149.
pub open spec fn parts(magnitude: nat) -> nat {
    significand(magnitude) * pow2(doublings(magnitude))
}

/// The bits of the number nearest to `n` times 2 to the power of -149, in single
/// precision.
pub open spec fn encoded(n: nat) -> nat {
    let e = excess(n, SHORT as nat);
    e * BINADE as nat + nearest(n, pow2(e))
}

/// 0.1 in single precision, times 2 to the power of 149.
pub open spec fn tenth() -> nat {
    parts(SLOWEST as nat)
}

impl Speed {
    /// The bits without the sign.
    pub open spec fn magnitude(self) -> nat {
        (self.bits % SIGN) as nat
    }

    pub open spec fn is_finite(self) -> bool {
        self.magnitude() < INFINITY
    }

    /// A finite number, times 2 to the power of 149.
    pub open spec fn value(self) -> int {
        if self.bits < SIGN {
            parts(self.magnitude()) as int
        } else {
            -(parts(self.magnitude()) as int)
        }
    }

    /// The sum of `self` and a number that is given times 2 to the power of 149,
    /// rounded to single precision. What is not finite stays as it is.
    pub open spec fn plus(self, step: int) -> Speed {
        if !self.is_finite() {
            self
        } else {
            let sum = self.value() + step;
            if sum >= 0 {
                Speed { bits: encoded(sum as nat) as u32 }
            } else {
                Speed { bits: (SIGN + encoded((-sum) as nat)) as u32 }
            }
        }
    }

    /// One step faster: 0.1 more, but no more than 10.0.
    pub open spec fn raised(self) -> Speed {
        self.plus(tenth() as int).capped()
    }

    /// One step slower: 0.1 less, but no less than 0.1.
    pub open spec fn lowered(self) -> Speed {
        self.plus(-(tenth() as int)).floored()
    }

    /// `n` times `self` in double precision, cut to a whole number that fits in
    /// 64 bits. What is negative or no number gives 0.
    pub open spec fn times(self, n: nat) -> nat {
        if self.is_nan() || self.bits >= SIGN {
            0
        } else if !self.is_finite() {
            if n == 0 {
                0
            } else {
                u64::MAX as nat
            }
        } else {
            let product = rounded(
                rounded(n, LONG as nat) * parts(self.magnitude()),
                LONG as nat,
            ) / pow2(149);
            if product <= u64::MAX {
                product
            } else {
                u64::MAX as nat
            }
        }
    }

    /// The number with one decimal.
    pub open spec fn shown(self) -> Seq<char> {
        let sign = if self.bits >= SIGN {
            "-"@
        } else {
            ""@
        };
        if self.is_nan() {
            "NaN"@
        } else if !self.is_finite() {
            sign + "inf"@
        } else {
            let tenths = nearest(10 * parts(self.magnitude()), pow2(149));
            sign + decimal(tenths / 10) + "."@ + decimal(tenths % 10)
        }
    }

    /// Whether the bits stand for no number at all.
    pub open spec fn is_nan(self) -> bool {
        self.bits as int % SIGN as int > INFINITY
    }

    /// An integer that is ordered as the numbers are: of two numbers, the
    /// smaller one has the smaller rank.
    pub open spec fn rank(self) -> int {
        if self.bits < SIGN {
            self.bits as int
        } else {
            SIGN - self.bits
        }
    }

    /// Whether both are numbers, and `self` is not above `other`.
    pub open spec fn at_most(self, other: Speed) -> bool {
        !self.is_nan() && !other.is_nan() && self.rank() <= other.rank()
    }

    /// Whether the speed is one that raising and lowering keep to.
    pub open spec fn in_bounds(self) -> bool {
        (Speed { bits: SLOWEST }).at_most(self) && self.at_most(Speed { bits: FASTEST })
    }

    /// `self` or 10.0, whichever is smaller, and 10.0 for no number.
    pub open spec fn capped(self) -> Speed {
        if self.at_most(Speed { bits: FASTEST }) {
            self
        } else {
            Speed { bits: FASTEST }
        }
    }

    /// `self` or 0.1, whichever is larger, and 0.1 for no number.
    pub open spec fn floored(self) -> Speed {
        if (Speed { bits: SLOWEST }).at_most(self) {
            self
        } else {
            Speed { bits: SLOWEST }
        }
    }

    /// Keeps a speed that was raised to `self` within bounds.
    fn cap(self) -> (speed: Speed)
        ensures
            speed == self.capped(),
    {
        if self.bits % SIGN > INFINITY {
            Speed { bits: FASTEST }
        } else if self.bits >= SIGN || self.bits <= FASTEST {
            self
        } else {
            Speed { bits: FASTEST }
        }
    }

    /// Keeps a speed that was lowered to `self` within bounds.
    fn floor(self) -> (speed: Speed)
        ensures
            speed == self.floored(),
    {
        if self.bits % SIGN > INFINITY {
            Speed { bits: SLOWEST }
        } else if self.bits < SIGN && self.bits >= SLOWEST {
            self
        } else {
            Speed { bits: SLOWEST }
        }
    }

    /// Adds 0.1, or takes it away.
    fn step(self, up: bool) -> (speed: Speed)
        ensures
            speed == self.plus(
                if up {
                    tenth() as int
                } else {
                    -(tenth() as int)
                },
            ),
    {
        let mag: u32 = self.bits % SIGN;
        if mag >= INFINITY {
            return self;
        }
        let negative: bool = self.bits >= SIGN;
        proof {
            tenth_is();
        }
        if mag >= FAR {
            proof {
                far_from_zero(mag as nat);
            }
            return self;
        }
        if mag < NEAR {
            proof {
                near_zero(mag as nat);
            }
            return if up {
                Speed { bits: SLOWEST }
            } else {
                Speed { bits: SIGN + SLOWEST }
            };
        }
        let m: u32 = BINADE + mag % BINADE;
        let k: u32 = mag / BINADE - 1;
        let unit: u128 = power_of_two(k - SCALE);
        proof {
            scaled_parts(mag as nat);
        }
        let x: u128 = m as u128 * unit;
        proof {
            let q = pow2(75) as int;
            lemma_pow2_pos(75);
            assert(x * q + TENTH_SCALED * q == (x + TENTH_SCALED) * q) by (nonlinear_arith);
            assert(x * q - TENTH_SCALED * q == (x - TENTH_SCALED) * q) by (nonlinear_arith);
            assert(TENTH_SCALED * q - x * q == (TENTH_SCALED - x) * q) by (nonlinear_arith);
            assert(parts(self.magnitude()) == x * q);
            assert(x < TENTH_SCALED ==> x * q < TENTH_SCALED * q) by (nonlinear_arith)
                requires
                    q > 0,
            ;
            assert(x > TENTH_SCALED ==> x * q > TENTH_SCALED * q) by (nonlinear_arith)
                requires
                    q > 0,
            ;
        }
        if negative == up {
            // The two are on different sides of zero.
            if x == TENTH_SCALED {
                proof {
                    encoded_of_zero();
                }
                Speed { bits: 0 }
            } else if x < TENTH_SCALED {
                let rest: u128 = TENTH_SCALED - x;
                proof {
                    scaled_sum(rest as nat);
                }
                let bits: u32 = encode_scaled(rest);
                if up {
                    Speed { bits }
                } else {
                    Speed { bits: SIGN + bits }
                }
            } else {
                let rest: u128 = x - TENTH_SCALED;
                proof {
                    scaled_sum(rest as nat);
                }
                let bits: u32 = encode_scaled(rest);
                if up {
                    Speed { bits: SIGN + bits }
                } else {
                    Speed { bits }
                }
            }
        } else {
            let rest: u128 = x + TENTH_SCALED;
            proof {
                scaled_sum(rest as nat);
            }
            let bits: u32 = encode_scaled(rest);
            if up {
                Speed { bits }
            } else {
                Speed { bits: SIGN + bits }
            }
        }
    }

    /// Goes one step faster.
    pub fn raise(self) -> (speed: Speed)
        ensures
            speed == self.raised(),
    {
        self.step(true).cap()
    }

    /// Goes one step slower.
    pub fn lower(self) -> (speed: Speed)
        ensures
            speed == self.lowered(),
    {
        self.step(false).floor()
    }
}

/// Reads the significand of a finite number.
pub(crate) fn significand_of(mag: u32) -> (m: u32)
    requires
        mag < INFINITY,
    ensures
        m == significand(mag as nat),
        m < SECOND_BINADE,
{
    if mag < SECOND_BINADE {
        mag
    } else {
        BINADE + mag % BINADE
    }
}

/// Reads how many doublings stand between the significand and the number.
pub(crate) fn doublings_of(mag: u32) -> (k: u32)
    requires
        mag < INFINITY,
    ensures
        k == doublings(mag as nat),
        k <= 253,
{
    if mag < SECOND_BINADE {
        0
    } else {
        mag / BINADE - 1
    }
}

impl Speed {
    /// Multiplies in double precision and cuts to a whole number.
    pub fn multiply(self, n: u128) -> (product: u64)
        requires
            n <= LONGEST_IN_MICROS,
        ensures
            product == self.times(n as nat),
    {
        let mag: u32 = self.bits % SIGN;
        if mag > INFINITY || self.bits >= SIGN {
            return 0;
        }
        if mag == INFINITY {
            return if n == 0 {
                0
            } else {
                u64::MAX
            };
        }
        let m: u32 = significand_of(mag);
        let k: u32 = doublings_of(mag);
        let exact: u128 = round_to(n, LONG);
        assert(exact * m <= 2 * LONGEST_IN_MICROS * 0x1000000) by (nonlinear_arith)
            requires
                exact <= 2 * LONGEST_IN_MICROS,
                m < 0x1000000,
        ;
        let r: u128 = round_to(exact * m as u128, LONG);
        let ghost whole = rounded(exact as nat * parts(mag as nat), LONG as nat) / pow2(149);
        proof {
            lemma2_to64();
            lemma2_to64_rest();
            let d = exact as int;
            let mm = m as int;
            let p = pow2(k as nat) as int;
            assert(d * (mm * p) == (d * mm) * p) by (nonlinear_arith);
            rounded_of_shifted((exact * m) as nat, k as nat, LONG as nat);
            assert(whole == (r as nat * pow2(k as nat)) / pow2(149));
        }
        if k >= 149 {
            let up: u32 = k - 149;
            proof {
                shifted_up(r as nat, up as nat);
            }
            if r == 0 {
                assert(0 * pow2(up as nat) == 0);
                0
            } else if up >= 64 || r > u64::MAX as u128 {
                proof {
                    let q = pow2(up as nat) as int;
                    lemma_pow2_pos(up as nat);
                    if up > 64 {
                        lemma_pow2_strictly_increases(64, up as nat);
                    }
                    assert(r * q > u64::MAX) by (nonlinear_arith)
                        requires
                            r >= 1,
                            q >= 1,
                            r > u64::MAX || q > u64::MAX,
                    ;
                }
                u64::MAX
            } else {
                let q: u128 = power_of_two(up);
                proof {
                    lemma_pow2_strictly_increases(up as nat, 64);
                    assert(r * q <= u128::MAX) by (nonlinear_arith)
                        requires
                            r <= u64::MAX,
                            q <= u64::MAX + 1,
                    ;
                }
                let product: u128 = r * q;
                if product > u64::MAX as u128 {
                    u64::MAX
                } else {
                    product as u64
                }
            }
        } else {
            let down: u32 = 149 - k;
            proof {
                shifted_down(r as nat, down as nat);
                lemma_pow2_pos(down as nat);
            }
            if down >= 128 {
                proof {
                    lemma_pow2_adds(64, 64);
                    assert(0x10000000000000000nat * 0x10000000000000000nat == u128::MAX + 1);
                    if down > 128 {
                        lemma_pow2_strictly_increases(128, down as nat);
                    }
                    lemma_basic_div(r as int, pow2(down as nat) as int);
                }
                0
            } else {
                let product: u128 = r / power_of_two(down);
                if product > u64::MAX as u128 {
                    u64::MAX
                } else {
                    product as u64
                }
            }
        }
    }

    /// Writes the number with one decimal.
    pub fn text(self) -> (text: String)
        ensures
            text@ == self.shown(),
    {
        let mag: u32 = self.bits % SIGN;
        if mag > INFINITY {
            return "NaN".to_owned();
        }
        let mut text = if self.bits >= SIGN {
            "-".to_owned()
        } else {
            "".to_owned()
        };
        if mag == INFINITY {
            text.append("inf");
            return text;
        }
        let m: u32 = significand_of(mag);
        let k: u32 = doublings_of(mag);
        let ghost tenths = nearest(10 * parts(mag as nat), pow2(149));
        let ghost p = pow2(k as nat) as int;
        assert(10 * (m * p) == (10 * m) * p) by (nonlinear_arith);
        if k >= 149 {
            let up: u32 = k - 149;
            let q: u128 = power_of_two(up);
            proof {
                lemma2_to64();
                lemma2_to64_rest();
                lemma_pow2_adds(64, 40);
                if up < 104 {
                    lemma_pow2_strictly_increases(up as nat, 104);
                }
                assert(pow2(104) == 0x1_0000_0000_0000_0000nat * 0x100_0000_0000nat);
                assert(m * q <= u128::MAX) by (nonlinear_arith)
                    requires
                        m < 0x1000000,
                        q <= 0x1_0000_0000_0000_0000 * 0x100_0000_0000,
                ;
                lemma_pow2_adds(149, up as nat);
                lemma_pow2_pos(149);
                let z = pow2(149) as int;
                let qq = q as int;
                let mm = m as int;
                assert((10 * mm) * (z * qq) == (10 * (mm * qq)) * z) by (nonlinear_arith);
                nearest_to_multiple((10 * (mm * qq)) as nat, pow2(149), 0);
            }
            let whole: u128 = m as u128 * q;
            assert(tenths == 10 * whole);
            text.append(decimal_text(whole).as_str());
            text.append(".");
            text.append(decimal_text(0).as_str());
        } else {
            let down: u32 = 149 - k;
            proof {
                lemma2_to64();
                lemma_pow2_adds(k as nat, down as nat);
                lemma_pow2_pos(k as nat);
                lemma_pow2_pos(down as nat);
                nearest_of_extended((10 * m) as nat, pow2(down as nat), pow2(k as nat));
                assert((10 * m) * p == p * (10 * m)) by (nonlinear_arith);
            }
            let found: u128 = if down >= 64 {
                proof {
                    if down > 64 {
                        lemma_pow2_strictly_increases(64, down as nat);
                    }
                    nearest_to_multiple(0, pow2(down as nat), 10 * m);
                }
                0
            } else {
                divide_nearest(10 * m as u128, power_of_two(down))
            };
            assert(tenths == found);
            text.append(decimal_text(found / 10).as_str());
            text.append(".");
            text.append(decimal_text(found % 10).as_str());
        }
        text
    }
}

proof fn shifted_up(r: nat, up: nat)
    ensures
        (r * pow2(149 + up)) / pow2(149) == r * pow2(up),
{
    lemma_pow2_adds(149, up);
    lemma_pow2_pos(149);
    let z = pow2(149) as int;
    let q = pow2(up) as int;
    assert(r * (z * q) == z * (r * q)) by (nonlinear_arith);
    lemma_div_multiples_vanish(r * q, z);
}

proof fn shifted_down(r: nat, down: nat)
    requires
        down <= 149,
    ensures
        (r * pow2((149 - down) as nat)) / pow2(149) == r / pow2(down),
{
    let k = (149 - down) as nat;
    lemma_pow2_adds(k, down);
    lemma_pow2_pos(k);
    lemma_pow2_pos(down);
    let p = pow2(k) as int;
    assert(r * p == p * r) by (nonlinear_arith);
    lemma_div_multiples_vanish_quotient(p, r as int, pow2(down) as int);
}

/// The bits of 2 to the power of 22, from where on 0.1 is too little to matter.
const FAR: u32 = 0x4a80_0000;

/// The bits of 2 to the power of -28, below which a number is too small to
/// matter beside 0.1.
const NEAR: u32 = 0x3180_0000;

/// Numbers in between are computed with times 2 to the power of 74, so that 75
/// doublings are left out.
const SCALE: u32 = 75;

/// 0.1 in single precision, times 2 to the power of 74.
const TENTH_SCALED: u128 = 1_888_946_621_295_355_756_544;

pub proof fn tenth_is()
    ensures
        tenth() == TENTH as nat * pow2(122),
        tenth() == 1_888_946_621_295_355_756_544 * pow2(75),
        tenth() < pow2(146),
        tenth() >= pow2(145),
{
    assert(significand(SLOWEST as nat) == TENTH);
    assert(doublings(SLOWEST as nat) == 122);
    lemma_pow2_adds(47, 75);
    lemma2_to64();
    lemma2_to64_rest();
    let p = pow2(75) as int;
    let q = pow2(47) as int;
    assert(TENTH * (q * p) == (TENTH * q) * p) by (nonlinear_arith);
    assert(TENTH * q == TENTH_SCALED);
    lemma_pow2_adds(24, 122);
    lemma_pow2_adds(23, 122);
    let r = pow2(122) as int;
    lemma_pow2_pos(122);
    assert(0x800000 * r <= TENTH * r < 0x1000000 * r) by (nonlinear_arith)
        requires
            r > 0,
    ;
}

pub proof fn encoded_of_zero()
    ensures
        encoded(0) == 0,
{
    lemma2_to64();
    assert(nearest(0, 1) == 0);
}

/// The bits of a finite number, from its significand and doublings.
pub proof fn magnitude_is(magnitude: nat)
    requires
        magnitude < INFINITY,
    ensures
        magnitude == doublings(magnitude) * BINADE as nat + significand(magnitude),
        significand(magnitude) < SECOND_BINADE,
        doublings(magnitude) > 0 ==> significand(magnitude) >= BINADE,
        doublings(magnitude) <= 253,
{
}

/// A number whose digits are known is encoded by them.
proof fn encoded_is(n: nat, m: nat, k: nat, x: int)
    requires
        n == m * pow2(k) + x,
        -(pow2(k) as int) < 2 * x < pow2(k),
        n < pow2(24 + k),
        k > 0 ==> pow2((23 + k) as nat) <= n,
    ensures
        encoded(n) == k * BINADE as nat + m,
{
    excess_between(n, 24, k);
    lemma_pow2_pos(k);
    nearest_to_multiple(m, pow2(k), x);
}

/// Encoding a finite number gives its bits.
pub proof fn encoding_reads_back(magnitude: nat)
    requires
        magnitude < INFINITY,
    ensures
        encoded(parts(magnitude)) == magnitude,
{
    let m = significand(magnitude);
    let k = doublings(magnitude);
    magnitude_is(magnitude);
    lemma2_to64();
    lemma_pow2_pos(k);
    lemma_pow2_adds(24, k);
    lemma_pow2_adds(23, k);
    let p = pow2(k) as int;
    assert(m * p < 0x1000000 * p) by (nonlinear_arith)
        requires
            m < 0x1000000,
            p > 0,
    ;
    if k > 0 {
        assert(0x800000 * p <= m * p) by (nonlinear_arith)
            requires
                0x800000 <= m,
                p > 0,
        ;
    }
    encoded_is(parts(magnitude), m, k, 0);
}

/// Far from zero, 0.1 more or less is lost in rounding.
proof fn far_from_zero(magnitude: nat)
    requires
        FAR <= magnitude < INFINITY,
    ensures
        parts(magnitude) >= tenth(),
        encoded(parts(magnitude) + tenth()) == magnitude,
        encoded((parts(magnitude) - tenth()) as nat) == magnitude,
        parts(magnitude) > tenth(),
{
    let m = significand(magnitude);
    let k = doublings(magnitude);
    magnitude_is(magnitude);
    tenth_is();
    lemma2_to64();
    assert(k >= 148);
    if k > 148 {
        lemma_pow2_strictly_increases(148, k);
    }
    lemma_pow2_unfold(148);
    lemma_pow2_unfold(147);
    lemma_pow2_adds(24, k);
    lemma_pow2_adds(23, k);
    let p = pow2(k) as int;
    let t = tenth() as int;
    lemma_pow2_pos(145);
    assert(0 < 4 * t < p);
    assert((m + 1) * p == m * p + p) by (nonlinear_arith);
    assert(0x800000 * p <= m * p) by (nonlinear_arith)
        requires
            0x800000 <= m,
            p > 0,
    ;
    assert((m + 1) * p <= 0x1000000 * p) by (nonlinear_arith)
        requires
            m + 1 <= 0x1000000,
            p > 0,
    ;
    encoded_is((m * p + t) as nat, m, k, t);
    if m > BINADE {
        assert(0x800000 * p + p <= m * p) by (nonlinear_arith)
            requires
                0x800000 + 1 <= m,
                p > 0,
        ;
        encoded_is((m * p - t) as nat, m, k, -t);
    } else {
        let j = (k - 1) as nat;
        lemma_pow2_unfold(k);
        lemma_pow2_adds(24, j);
        lemma_pow2_adds(23, j);
        let h = pow2(j) as int;
        assert(m * p == 0x1000000 * h) by (nonlinear_arith)
            requires
                m == 0x800000,
                p == 2 * h,
        ;
        encoded_is((m * p - t) as nat, 0x1000000, j, -t);
    }
}

/// Near zero, a number is lost beside 0.1 in rounding.
proof fn near_zero(magnitude: nat)
    requires
        magnitude < NEAR,
    ensures
        parts(magnitude) < tenth(),
        encoded(tenth() + parts(magnitude)) == SLOWEST,
        encoded((tenth() - parts(magnitude)) as nat) == SLOWEST,
{
    let m = significand(magnitude);
    let k = doublings(magnitude);
    magnitude_is(magnitude);
    tenth_is();
    lemma2_to64();
    assert(k <= 97);
    lemma_pow2_pos(k);
    lemma_pow2_adds(24, 97);
    if k < 97 {
        lemma_pow2_strictly_increases(k, 97);
    }
    let p = pow2(k) as int;
    let top = pow2(97) as int;
    let x = m * p;
    assert(x < 0x1000000 * top) by (nonlinear_arith)
        requires
            x == m * p,
            0 <= m < 0x1000000,
            0 < p <= top,
    ;
    lemma_pow2_unfold(122);
    lemma_pow2_adds(23, 122);
    lemma_pow2_adds(24, 122);
    let u = pow2(122) as int;
    assert(2 * x < u);
    encoded_is((TENTH * u + x) as nat, TENTH as nat, 122, x);
    encoded_is((TENTH * u - x) as nat, TENTH as nat, 122, -x);
    assert(122 * BINADE + TENTH == SLOWEST);
}

/// In between, both numbers are multiples of what is left out.
proof fn scaled_parts(magnitude: nat)
    requires
        NEAR <= magnitude < FAR,
    ensures
        ({
            let m = BINADE + magnitude as int % BINADE as int;
            let k = magnitude as int / BINADE as int - 1;
            let x = m * pow2((k - SCALE) as nat);
            &&& 98 <= k <= 147
            &&& parts(magnitude) == x * pow2(75)
            &&& x < pow2(96)
            &&& x % 0x800000 == 0
        }),
        pow2(96) == 0x1_0000_0000_0000_0000_0000_0000,
{
    let m = significand(magnitude);
    let k = doublings(magnitude);
    let j = (k - 75) as nat;
    magnitude_is(magnitude);
    lemma2_to64();
    lemma_pow2_adds(j, 75);
    lemma_pow2_adds(32, 64);
    assert(0x1_0000_0000nat * 0x1_0000_0000_0000_0000nat
        == 0x1_0000_0000_0000_0000_0000_0000nat);
    let p = pow2(j) as int;
    let q = pow2(75) as int;
    assert(m * (p * q) == (m * p) * q) by (nonlinear_arith);
    lemma_pow2_adds(24, 72);
    if j < 72 {
        lemma_pow2_strictly_increases(j, 72);
    }
    lemma_pow2_pos(j);
    let top = pow2(72) as int;
    assert(m * p < 0x1000000 * top) by (nonlinear_arith)
        requires
            0 <= m < 0x1000000,
            0 < p <= top,
    ;
    let i = (j - 23) as nat;
    lemma_pow2_adds(23, i);
    let o = pow2(i) as int;
    assert(m * p == (m * o) * 0x800000) by (nonlinear_arith)
        requires
            p == 0x800000 * o,
    ;
}

/// Doubling a number of full length adds one to its exponent.
pub proof fn encoded_of_shifted(n: nat, k: nat)
    requires
        n >= BINADE,
    ensures
        encoded(n * pow2(k)) == encoded(n) + k * BINADE as nat,
        n * pow2(k) >= BINADE,
    decreases k,
{
    lemma2_to64();
    if k == 0 {
        assert(n * 1 == n);
    } else {
        let j = (k - 1) as nat;
        encoded_of_shifted(n, j);
        let a = n * pow2(j);
        lemma_pow2_unfold(k);
        let p = pow2(j) as int;
        assert(n * (2 * p) == 2 * (n * p)) by (nonlinear_arith);
        assert(n * pow2(k) == 2 * a);
        let e = excess(a, 24);
        assert((2 * a) / 2 == a);
        assert(excess(2 * a, 24) == e + 1);
        lemma_pow2_unfold(e + 1);
        lemma_pow2_pos(e);
        nearest_of_extended(a, pow2(e), 2);
    }
}

/// Encoding what was scaled down.
proof fn scaled_sum(n: nat)
    ensures
        n >= BINADE ==> encoded(n * pow2(75)) == encoded(n) + 75 * BINADE as nat,
{
    if n >= BINADE {
        encoded_of_shifted(n, 75);
    }
}

fn encode_scaled(n: u128) -> (bits: u32)
    requires
        BINADE <= n < 0x2_0000_0000_0000_0000_0000_0000,
    ensures
        bits == encoded(n as nat) + 75 * BINADE as nat,
        bits < SIGN,
{
    let e: u32 = count_excess(n, SHORT);
    proof {
        lemma_pow2_pos(e as nat);
        significand_bounds(n as nat, 24);
        lemma2_to64();
        lemma_pow2_adds(33, 64);
        lemma2_to64_rest();
        assert(0x2_0000_0000nat * 0x1_0000_0000_0000_0000nat
            == 0x2_0000_0000_0000_0000_0000_0000nat);
        if e >= 97 {
            if e > 97 {
                lemma_pow2_strictly_increases(97, e as nat);
            }
            assert(pow2(e as nat) <= n);
        }
    }
    let m: u128 = divide_nearest(n, power_of_two(e));
    (e + SCALE) * BINADE + m as u32
}

/// Encoding does not fall when the number rises.
pub proof fn encoding_is_ordered(a: nat, b: nat)
    requires
        a <= b,
    ensures
        encoded(a) <= encoded(b),
{
    let e = excess(a, 24);
    let f = excess(b, 24);
    excess_is_ordered(a, b, 24);
    lemma_pow2_pos(e);
    lemma2_to64();
    if e == f {
        nearest_is_ordered(a, b, pow2(e));
    } else {
        significand_bounds(a, 24);
        significand_bounds(b, 24);
    }
}

/// A speed within bounds stays within bounds, and a step up does not go down,
/// nor a step down up.
pub proof fn steps_stay_in_bounds(speed: Speed)
    requires
        speed.in_bounds(),
    ensures
        speed.raised().in_bounds(),
        speed.lowered().in_bounds(),
        speed.at_most(speed.raised()),
        speed.lowered().at_most(speed),
{
    let mag = speed.magnitude();
    let n = parts(mag);
    encoding_reads_back(mag);
    encoding_reads_back(FASTEST as nat);
    encoding_reads_back(SLOWEST as nat);
    parts_are_ordered(SLOWEST as nat, mag);
    parts_are_ordered(mag, FASTEST as nat);
    encoding_is_ordered(n, n + tenth());
    encoding_is_ordered((n - tenth()) as nat, n);
    parts_are_ordered(SLOWEST as nat, FASTEST as nat);
    encoding_is_ordered(n + tenth(), parts(FASTEST as nat) + tenth());
    top_step();
}

proof fn top_step()
    ensures
        encoded(parts(FASTEST as nat) + tenth()) < INFINITY,
{
    let n = parts(FASTEST as nat) + tenth();
    tenth_is();
    lemma2_to64();
    assert(significand(FASTEST as nat) == 0xa00000);
    assert(doublings(FASTEST as nat) == 129);
    lemma_pow2_adds(24, 129);
    lemma_pow2_adds(23, 129);
    lemma_pow2_adds(17, 129);
    lemma_pow2_pos(129);
    significand_bounds(n, 24);
    excess_between(n, 24, 129);
}

/// Numbers are ordered as their bits are.
pub proof fn parts_are_ordered(a: nat, b: nat)
    requires
        a <= b < INFINITY,
    ensures
        parts(a) <= parts(b),
{
    if parts(b) < parts(a) {
        encoding_is_ordered(parts(b), parts(a));
        encoding_reads_back(a);
        encoding_reads_back(b);
    }
}

/// No step up ends above the fastest speed, and no step down ends below the
/// slowest, whatever the speed was.
pub proof fn no_step_leaves_its_bound(speed: Speed)
    ensures
        speed.raised().at_most(Speed { bits: FASTEST }),
        (Speed { bits: SLOWEST }).at_most(speed.lowered()),
{
}

/// A product does not fall when the speed rises.
pub proof fn product_is_ordered(slow: Speed, fast: Speed, n: nat)
    requires
        (Speed { bits: 0 }).at_most(slow),
        slow.at_most(fast),
    ensures
        slow.times(n) <= fast.times(n),
{
    let a = slow.magnitude();
    let b = fast.magnitude();
    let d = rounded(n, LONG as nat);
    lemma_pow2_pos(149);
    if slow.is_finite() && fast.is_finite() {
        parts_are_ordered(a, b);
        let x = parts(a) as int;
        let y = parts(b) as int;
        assert(d * x <= d * y) by (nonlinear_arith)
            requires
                x <= y,
                d >= 0,
        ;
        rounded_is_ordered(d * parts(a), d * parts(b), LONG as nat);
        lemma_div_is_ordered(
            rounded(d * parts(a), LONG as nat) as int,
            rounded(d * parts(b), LONG as nat) as int,
            pow2(149) as int,
        );
    }
    if slow.is_finite() && (n == 0 || fast.bits >= SIGN) {
        lemma_pow2_pos(LONG as nat);
        rounded_of_short(0, LONG as nat);
        assert(0 * parts(a) == 0);
        assert(d * 0 == 0);
        lemma_basic_div(0, pow2(149) as int);
        lemma_pow2_pos(0);
        assert(parts(0) == 0);
    }
}

/// At normal speed nothing changes, as long as double precision is precise
/// enough.
pub proof fn normal_speed_changes_nothing(n: nat)
    requires
        n < pow2(53),
    ensures
        (Speed { bits: NORMAL }).times(n) == n,
{
    let m = significand(NORMAL as nat);
    let k = doublings(NORMAL as nat);
    assert(m == 0x800000 && k == 126);
    lemma2_to64();
    lemma2_to64_rest();
    lemma_pow2_adds(23, 126);
    rounded_of_short(n, 53);
    rounded_of_shifted(n, 149, 53);
    lemma_pow2_pos(149);
    let z = pow2(149) as int;
    assert(n * z == z * n) by (nonlinear_arith);
    lemma_div_multiples_vanish(n as int, z);
}

/// The number that a significand of full length and its exponent stand for.
pub proof fn parts_of(e: nat, m: nat)
    requires
        BINADE <= m <= SECOND_BINADE,
    ensures
        parts(e * BINADE as nat + m) == m * pow2(e),
{
    let mag = e * BINADE as nat + m;
    let u = pow2(e) as int;
    if m == SECOND_BINADE {
        assert(significand(mag) == 0x800000 && doublings(mag) == e + 1);
        lemma_pow2_unfold(e + 1);
        assert(0x800000 * (2 * u) == 0x1000000 * u) by (nonlinear_arith);
    } else {
        assert(significand(mag) == m && doublings(mag) == e);
    }
}

/// How bits are read: below the first number of full length they are the number,
/// in the smallest parts there are; from there on, as many bits further as there
/// are to a significand lies the double.
pub proof fn numbers_are_read_from_their_bits(magnitude: nat)
    ensures
        magnitude < BINADE ==> parts(magnitude) == magnitude,
        parts(BINADE as nat) == BINADE,
        magnitude >= BINADE ==> parts(magnitude + BINADE as nat) == 2 * parts(magnitude),
        BINADE <= magnitude < SECOND_BINADE ==> parts(magnitude) == magnitude,
{
    lemma2_to64();
    assert(magnitude * 1 == magnitude && BINADE * 1 == BINADE);
    if magnitude >= BINADE {
        let m = significand(magnitude);
        let k = doublings(magnitude);
        assert(significand(magnitude + BINADE as nat) == m);
        assert(doublings(magnitude + BINADE as nat) == k + 1);
        lemma_pow2_unfold(k + 1);
        let p = pow2(k) as int;
        assert(m * (2 * p) == 2 * (m * p)) by (nonlinear_arith);
    }
}

/// The bits of the bounds and of normal speed are those of the numbers: 1.0, 10.0
/// and, as near as can be, 0.1.
pub proof fn bounds_are_what_they_say(other: nat)
    requires
        other < INFINITY,
    ensures
        parts(NORMAL as nat) == pow2(149),
        parts(FASTEST as nat) == 10 * pow2(149),
        distance(10 * parts(SLOWEST as nat) as int, pow2(149) as int) <= distance(
            10 * parts(other) as int,
            pow2(149) as int,
        ),
{
    lemma2_to64();
    assert(significand(NORMAL as nat) == 0x800000 && doublings(NORMAL as nat) == 126);
    lemma_pow2_adds(23, 126);
    assert(significand(FASTEST as nat) == 0xa00000 && doublings(FASTEST as nat) == 129);
    lemma_pow2_adds(3, 126);
    let q = pow2(126) as int;
    assert(0xa00000 * (8 * q) == 10 * (0x800000 * q)) by (nonlinear_arith);
    tenth_is();
    let r = pow2(122) as int;
    lemma_pow2_adds(27, 122);
    lemma_pow2_pos(122);
    assert(10 * (TENTH * r) - 0x800_0000 * r == 2 * r) by (nonlinear_arith);
    if other < SLOWEST {
        let c = (SLOWEST - 1) as nat;
        parts_are_ordered(other, c);
        assert(significand(c) == TENTH - 1 && doublings(c) == 122);
        assert(0x800_0000 * r - 10 * ((TENTH - 1) * r) == 8 * r) by (nonlinear_arith);
    } else {
        parts_are_ordered(SLOWEST as nat, other);
    }
}

proof fn parts_are_strictly_ordered(a: nat, b: nat)
    requires
        a < b < INFINITY,
    ensures
        parts(a) < parts(b),
{
    parts_are_ordered(a, b);
    encoding_reads_back(a);
    encoding_reads_back(b);
}

/// Speeds are compared as the numbers are.
pub proof fn order_is_that_of_the_numbers(a: Speed, b: Speed)
    requires
        a.is_finite(),
        b.is_finite(),
    ensures
        a.at_most(b) <==> a.value() <= b.value(),
{
    let x = a.magnitude();
    let y = b.magnitude();
    numbers_are_read_from_their_bits(0);
    if x < y {
        parts_are_strictly_ordered(x, y);
    } else if y < x {
        parts_are_strictly_ordered(y, x);
    }
    if x > 0 {
        parts_are_strictly_ordered(0, x);
    }
    if y > 0 {
        parts_are_strictly_ordered(0, y);
    }
}

/// No number is nearer than the one that is encoded.
pub proof fn encoding_is_nearest(n: nat, other: nat)
    requires
        other < INFINITY,
    ensures
        distance(parts(encoded(n)) as int, n as int) <= distance(parts(other) as int, n as int),
{
    let e = excess(n, 24);
    let u = pow2(e);
    let m = nearest(n, u);
    lemma_pow2_pos(e);
    lemma2_to64();
    significand_bounds(n, 24);
    excess_brackets(n, 24);
    magnitude_is(other);
    if e == 0 {
        assert(nearest(n, 1) == n);
        assert(encoded(n) == n);
        assert(n * 1 == n);
    } else {
        parts_of(e, m);
        let k = doublings(other);
        let o = significand(other);
        if k >= e {
            lemma_pow2_adds((k - e) as nat, e);
            let q = pow2((k - e) as nat) as int;
            let uu = u as int;
            assert(o * (q * uu) == (o * q) * uu) by (nonlinear_arith);
            nearest_is_best(n, u, o * pow2((k - e) as nat));
        } else {
            let low = 0x800000nat;
            nearest_is_best(n, u, low);
            lemma_pow2_adds(23, e);
            let j = (e - 1) as nat;
            if k < j {
                lemma_pow2_strictly_increases(k, j);
            }
            lemma_pow2_unfold(e);
            let p = pow2(k) as int;
            let h = pow2(j) as int;
            lemma_pow2_pos(k);
            assert(o * p <= 0x1000000 * h) by (nonlinear_arith)
                requires
                    0 <= o <= 0x1000000,
                    0 < p <= h,
            ;
        }
    }
}

proof fn sum_is_finite(magnitude: nat, n: nat)
    requires
        magnitude < INFINITY,
        n <= parts(magnitude) + tenth(),
    ensures
        encoded(n) < INFINITY,
{
    encoding_is_ordered(n, parts(magnitude) + tenth());
    if magnitude >= FAR {
        far_from_zero(magnitude);
    } else {
        parts_are_ordered(magnitude, FAR as nat);
        encoding_is_ordered(parts(magnitude) + tenth(), parts(FAR as nat) + tenth());
        far_from_zero(FAR as nat);
    }
}

proof fn sum_is_nearest(speed: Speed, step: int, other: Speed)
    requires
        speed.is_finite(),
        other.is_finite(),
        step == tenth() || step == -(tenth() as int),
    ensures
        speed.value() + step >= 0 ==> encoded((speed.value() + step) as nat) < INFINITY,
        speed.value() + step < 0 ==> encoded((-(speed.value() + step)) as nat) < INFINITY,
        speed.plus(step).is_finite(),
        distance(speed.plus(step).value(), speed.value() + step) <= distance(
            other.value(),
            speed.value() + step,
        ),
{
    let sum = speed.value() + step;
    let n: nat = if sum >= 0 {
        sum as nat
    } else {
        (-sum) as nat
    };
    sum_is_finite(speed.magnitude(), n);
    encoding_is_nearest(n, other.magnitude());
    encoding_is_nearest(n, 0);
    numbers_are_read_from_their_bits(0);
}

/// One step faster is a tenth more, as near as can be: no other speed is nearer to
/// the sum. From where the sum would be more than 10.0, it is 10.0.
pub proof fn faster_is_a_tenth_more(speed: Speed, other: Speed)
    requires
        speed.is_finite(),
        other.is_finite(),
    ensures
        ({
            let sum = speed.value() + parts(SLOWEST as nat);
            let top = parts(FASTEST as nat);
            &&& sum >= top ==> speed.raised() == (Speed { bits: FASTEST })
            &&& sum <= top ==> speed.raised().is_finite() && distance(speed.raised().value(), sum)
                <= distance(other.value(), sum)
        }),
{
    let step = tenth() as int;
    let sum = speed.value() + step;
    let top = parts(FASTEST as nat);
    sum_is_nearest(speed, step, other);
    encoding_reads_back(FASTEST as nat);
    if sum >= top {
        encoding_is_ordered(top, sum as nat);
    }
    if 0 <= sum <= top {
        encoding_is_ordered(sum as nat, top);
    }
}

/// One step slower is a tenth less, as near as can be: no other speed is nearer to
/// the difference. From where the difference would be less than 0.1, it is 0.1.
pub proof fn slower_is_a_tenth_less(speed: Speed, other: Speed)
    requires
        speed.is_finite(),
        other.is_finite(),
    ensures
        ({
            let least = parts(SLOWEST as nat) as int;
            let rest = speed.value() - least;
            &&& rest <= least ==> speed.lowered() == (Speed { bits: SLOWEST })
            &&& rest >= least ==> speed.lowered().is_finite() && distance(
                speed.lowered().value(),
                rest,
            ) <= distance(other.value(), rest)
        }),
{
    let step = -(tenth() as int);
    let least = tenth();
    let rest = speed.value() + step;
    sum_is_nearest(speed, step, other);
    encoding_reads_back(SLOWEST as nat);
    if 0 <= rest <= least {
        encoding_is_ordered(rest as nat, least);
    }
    if rest >= least {
        encoding_is_ordered(least, rest as nat);
    }
}

/// What is no number, or infinite, is taken within the bound of the step; an
/// infinite speed does not come back from the other side.
pub proof fn steps_of_what_is_not_finite(speed: Speed)
    requires
        !speed.is_finite(),
    ensures
        speed.is_nan() ==> speed.raised() == (Speed { bits: FASTEST }) && speed.lowered() == (
        Speed { bits: SLOWEST }),
        speed.bits == INFINITY ==> speed.raised() == (Speed { bits: FASTEST }) && speed.lowered()
            == speed,
        speed.bits == SIGN + INFINITY ==> speed.lowered() == (Speed { bits: SLOWEST })
            && speed.raised() == speed,
{
}

/// What a product is, but for its share of the last digit of double precision and
/// what is cut from it.
pub proof fn product_is_close(speed: Speed, n: nat)
    requires
        speed.bits < INFINITY,
    ensures
        ({
            let exact = n * parts(speed.magnitude());
            let unit = pow2(149);
            let product = speed.times(n);
            &&& product <= u64::MAX
            &&& (product * unit) * pow2(51) <= exact * (pow2(51) + 1)
            &&& product < u64::MAX ==> ((product + 1) * unit) * pow2(51) >= exact * (pow2(51) - 1)
        }),
{
    let p = parts(speed.magnitude()) as int;
    let nn = n as int;
    let d = rounded(n, 53) as int;
    let dp = (d * p) as nat;
    assert(d * p >= 0) by (nonlinear_arith)
        requires
            d >= 0,
            p >= 0,
    ;
    let r = rounded(dp, 53) as int;
    rounded_is_near(n, 53);
    rounded_is_near(dp, 53);
    lemma2_to64();
    lemma2_to64_rest();
    let z = pow2(149) as int;
    lemma_pow2_pos(149);
    let q = r / z;
    lemma_fundamental_div_mod(r, z);
    let h = 0x20_0000_0000_0000int;
    let x = distance(d, nn);
    let y = distance(r, dp as int);
    let exact = nn * p;
    assert(exact >= 0) by (nonlinear_arith)
        requires
            exact == nn * p,
            nn >= 0,
            p >= 0,
    ;
    assert(h * (d * p) <= (h + 1) * exact && h * (d * p) >= (h - 1) * exact) by (nonlinear_arith)
        requires
            exact == nn * p,
            p >= 0,
            h * d <= (h + 1) * nn,
            h * d >= (h - 1) * nn,
    {
        assert(h * (d * p) == (h * d) * p);
        assert((h * d) * p <= ((h + 1) * nn) * p);
        assert((h * d) * p >= ((h - 1) * nn) * p);
        assert(((h + 1) * nn) * p == (h + 1) * (nn * p));
        assert(((h - 1) * nn) * p == (h - 1) * (nn * p));
    }
    let f = 0x8_0000_0000_0000int;
    assert(h * r <= (h + 1) * dp && h * r >= (h - 1) * dp);
    assert(f * r <= (f + 1) * exact);
    assert(f * r >= (f - 1) * exact);
    assert(q * z <= r < (q + 1) * z) by (nonlinear_arith)
        requires
            r == z * q + r % z,
            0 <= r % z < z,
    ;
    let product = speed.times(n) as int;
    assert(product * z <= q * z) by (nonlinear_arith)
        requires
            product <= q,
            z > 0,
    ;
    assert(exact * (pow2(51) + 1) == (f + 1) * exact) by (nonlinear_arith)
        requires
            pow2(51) == f,
    ;
    assert(exact * (pow2(51) - 1) == (f - 1) * exact) by (nonlinear_arith)
        requires
            pow2(51) == f,
    ;
}

/// What is negative or no number makes nothing of any time, what is infinite makes
/// the longest of any time there is, and what would be longer than that is that.
pub proof fn products_keep_to_their_range(speed: Speed, n: nat)
    ensures
        speed.is_nan() || speed.bits >= SIGN ==> speed.times(n) == 0,
        speed.bits == INFINITY && n > 0 ==> speed.times(n) == u64::MAX,
        speed.bits <= INFINITY && n == 0 ==> speed.times(n) == 0,
        speed.times(n) <= u64::MAX,
{
    if speed.bits < INFINITY && n == 0 {
        product_is_close(speed, 0);
        lemma_pow2_pos(149);
        lemma_pow2_pos(51);
        let product = speed.times(0) as int;
        let z = pow2(149) as int;
        let f = pow2(51) as int;
        assert(0 * parts(speed.magnitude()) == 0);
        assert(0 * (f + 1) == 0);
        assert(product == 0) by (nonlinear_arith)
            requires
                (product * z) * f <= 0,
                product >= 0,
                z > 0,
                f > 0,
        ;
    }
}

/// A speed is written as the number of tenths that is less than half a tenth from
/// it, with one of them behind the point, and with its sign.
pub proof fn speed_is_shown_in_tenths(speed: Speed, tenths: nat)
    requires
        speed.is_finite(),
        2 * distance(tenths * pow2(149) as int, 10 * parts(speed.magnitude()) as int) < pow2(149),
    ensures
        speed.shown() == if speed.bits < SIGN {
            ""@
        } else {
            "-"@
        } + decimal(tenths / 10) + "."@ + decimal(tenths % 10),
{
    lemma_pow2_pos(149);
    let x = 10 * parts(speed.magnitude()) - tenths * pow2(149);
    nearest_to_multiple(tenths, pow2(149), x);
}

/// A speed that is halfway between two tenths is written as the even one.
pub proof fn half_a_tenth_is_shown_as_the_even_one(speed: Speed, tenths: nat)
    requires
        speed.is_finite(),
        20 * parts(speed.magnitude()) == (2 * tenths + 1) * pow2(149),
    ensures
        ({
            let even = if tenths % 2 == 0 {
                tenths
            } else {
                tenths + 1
            };
            speed.shown() == if speed.bits < SIGN {
                ""@
            } else {
                "-"@
            } + decimal(even / 10) + "."@ + decimal(even % 10)
        }),
{
    lemma_pow2_unfold(149);
    lemma_pow2_pos(148);
    let h = pow2(148) as int;
    let t = tenths as int;
    assert((2 * t + 1) * (2 * h) == 2 * (t * (2 * h) + h)) by (nonlinear_arith);
    nearest_of_half_is_even(tenths, pow2(148));
}

/// What is no number or infinite is written as that.
pub proof fn what_is_not_finite_is_shown_as_that(speed: Speed)
    requires
        !speed.is_finite(),
    ensures
        speed.is_nan() ==> speed.shown() == "NaN"@,
        speed.bits == INFINITY ==> speed.shown() == ""@ + "inf"@,
        speed.bits == SIGN + INFINITY ==> speed.shown() == "-"@ + "inf"@,
{
}

/// Halfway between two numbers that are next to each other, the one with the even
/// bits is taken.
pub proof fn encoding_of_half_is_even(n: nat, magnitude: nat)
    requires
        magnitude + 1 < INFINITY,
        2 * n == parts(magnitude) + parts(magnitude + 1),
    ensures
        encoded(n) == if magnitude % 2 == 0 {
            magnitude
        } else {
            magnitude + 1
        },
{
    let m = significand(magnitude);
    let k = doublings(magnitude);
    magnitude_is(magnitude);
    magnitude_is(magnitude + 1);
    lemma2_to64();
    lemma_pow2_pos(k);
    let p = pow2(k) as int;
    assert((m + 1) * p == m * p + p) by (nonlinear_arith);
    if m + 1 == SECOND_BINADE && k + 1 < 254 {
        parts_of(k, SECOND_BINADE as nat);
        assert(magnitude + 1 == k * BINADE as nat + SECOND_BINADE as nat);
    } else {
        assert(significand(magnitude + 1) == m + 1 && doublings(magnitude + 1) == k);
    }
    assert(2 * n == 2 * (m * p) + p);
    if k > 0 {
        lemma_pow2_unfold(k);
        let h = pow2((k - 1) as nat);
        assert(m * p == m * (2 * h));
        lemma_pow2_adds(24, k);
        lemma_pow2_adds(23, k);
        assert(0x800000 * p <= m * p) by (nonlinear_arith)
            requires
                m >= 0x800000,
                p > 0,
        ;
        assert((m + 1) * p <= 0x1000000 * p) by (nonlinear_arith)
            requires
                m + 1 <= 0x1000000,
                p > 0,
        ;
        excess_between(n, 24, k);
        lemma_pow2_pos((k - 1) as nat);
        nearest_of_half_is_even(m, h);
    }
}

} // verus!
