//! Single-precision arithmetic.
//!
//! Pixel positions and split ratios are IEEE 754 binary32 numbers. Their
//! arithmetic is carried out here on integers, so that the rounding of every
//! operation is part of what is proved: each result is the exact one, rounded
//! to nearest with ties to even. Every invalid operation gives the same quiet
//! NaN; the payload of a NaN carries no meaning.
use crate::rounding::{
    approximated_by, lemma_magnitude_increases, lemma_nearest_at_least,
    lemma_nearest_at_most, lemma_nearest_is, magnitude, nearest, power_of_two,
    round_scaled, rounds_to, FRACTION, INFINITE,
};
use vstd::arithmetic::div_mod::{
    lemma_basic_div, lemma_div_denominator, lemma_div_multiples_vanish, lemma_fundamental_div_mod,
};
use vstd::arithmetic::power2::{
    lemma2_to64, lemma2_to64_rest, lemma_pow2_adds, lemma_pow2_pos, lemma_pow2_strictly_increases,
    lemma_pow2_unfold, pow2,
};
use vstd::prelude::*;

verus! {

/// The sign bit of an encoding.
pub const SIGN: u32 = 0x8000_0000;

/// The encoding of the quiet NaN that invalid operations give.
pub const QUIET_NAN: u32 = 0x7fc0_0000;

/// An IEEE 754 binary32 number.
#[derive(Copy, Clone, Debug)]
pub struct Binary32 {
    /// The encoding: sign, exponent, fraction.
    pub bits: u32,
}

impl Binary32 {
    /// The encoding without its sign.
    pub open spec fn code(self) -> int {
        self.bits as int % 0x8000_0000
    }

    /// Whether the sign bit is set.
    pub open spec fn negative(self) -> bool {
        self.bits >= SIGN
    }

    pub open spec fn is_nan(self) -> bool {
        self.code() > INFINITE
    }

    pub open spec fn is_infinite(self) -> bool {
        self.code() == INFINITE
    }

    pub open spec fn is_finite(self) -> bool {
        self.code() < INFINITE
    }

    /// The number in units of two to the power -149. An infinity is further
    /// from zero than every finite number.
    pub open spec fn value(self) -> int {
        if self.negative() {
            -magnitude(self.code())
        } else {
            magnitude(self.code())
        }
    }

    /// The distance from zero, in the same units.
    pub open spec fn size(self) -> int {
        magnitude(self.code())
    }
}

/// The number with the given sign and code.
pub open spec fn encoded(negative: bool, code: int) -> Binary32 {
    Binary32 { bits: (code + if negative { SIGN as int } else { 0 }) as u32 }
}

/// The fraction `num / den` with the given sign, rounded.
pub open spec fn rounded(negative: bool, num: int, den: int) -> Binary32 {
    encoded(negative, nearest(num, den))
}

pub open spec fn nan() -> Binary32 {
    Binary32 { bits: QUIET_NAN }
}

/// The sum of two numbers.
pub open spec fn sum(a: Binary32, b: Binary32) -> Binary32 {
    if a.is_nan() || b.is_nan() {
        nan()
    } else if a.is_infinite() && b.is_infinite() && a.negative() != b.negative() {
        nan()
    } else if a.is_infinite() {
        a
    } else if b.is_infinite() {
        b
    } else {
        let exact = a.value() + b.value();
        if exact == 0 {
            encoded(a.negative() && b.negative(), 0)
        } else if exact > 0 {
            rounded(false, exact, 1)
        } else {
            rounded(true, -exact, 1)
        }
    }
}

/// The number with the opposite sign.
pub open spec fn opposite(a: Binary32) -> Binary32 {
    encoded(!a.negative(), a.code())
}

/// The first number less the second.
pub open spec fn difference(a: Binary32, b: Binary32) -> Binary32 {
    sum(a, opposite(b))
}

/// The product of two numbers.
pub open spec fn product(a: Binary32, b: Binary32) -> Binary32 {
    let negative = a.negative() != b.negative();
    if a.is_nan() || b.is_nan() {
        nan()
    } else if a.is_infinite() || b.is_infinite() {
        if a.code() == 0 || b.code() == 0 {
            nan()
        } else {
            encoded(negative, INFINITE as int)
        }
    } else {
        rounded(negative, a.size() * b.size(), pow2(149) as int)
    }
}

/// The first number divided by the second.
pub open spec fn quotient(a: Binary32, b: Binary32) -> Binary32 {
    let negative = a.negative() != b.negative();
    if a.is_nan() || b.is_nan() {
        nan()
    } else if a.is_infinite() {
        if b.is_infinite() {
            nan()
        } else {
            encoded(negative, INFINITE as int)
        }
    } else if b.is_infinite() {
        encoded(negative, 0)
    } else if b.code() == 0 {
        if a.code() == 0 {
            nan()
        } else {
            encoded(negative, INFINITE as int)
        }
    } else {
        rounded(negative, a.size() * pow2(149), b.size())
    }
}

/// Whether the first number is below the second. Nothing compares with NaN.
pub open spec fn less(a: Binary32, b: Binary32) -> bool {
    !a.is_nan() && !b.is_nan() && a.value() < b.value()
}

/// Whether the first number is the second or below it.
pub open spec fn at_most(a: Binary32, b: Binary32) -> bool {
    !a.is_nan() && !b.is_nan() && a.value() <= b.value()
}

/// Whether two numbers are equal. The two zeros are, NaN is equal to nothing.
pub open spec fn equal(a: Binary32, b: Binary32) -> bool {
    !a.is_nan() && !b.is_nan() && a.value() == b.value()
}

/// The number without its sign.
pub open spec fn unsigned(a: Binary32) -> Binary32 {
    encoded(false, a.code())
}

/// The larger of two numbers, and the other one where one is NaN.
pub open spec fn larger(a: Binary32, b: Binary32) -> Binary32 {
    if a.is_nan() || less(a, b) {
        b
    } else {
        a
    }
}

/// The number moved up to `low` or down to `high` where it is outside of them.
pub open spec fn clamped(a: Binary32, low: Binary32, high: Binary32) -> Binary32 {
    if less(a, low) {
        low
    } else if less(high, a) {
        high
    } else {
        a
    }
}

/// The whole part of a number, held between 0 and `limit`; 0 for NaN.
pub open spec fn whole(a: Binary32, limit: int) -> int {
    if a.is_nan() || a.negative() {
        0
    } else if a.size() / pow2(149) as int <= limit {
        a.size() / pow2(149) as int
    } else {
        limit
    }
}

/// The number nearest to a whole one.
pub open spec fn from_whole(n: int) -> Binary32 {
    rounded(false, n * pow2(149), 1)
}

/// A finite number, taken apart.
struct Parts {
    significand: u32,
    exponent: u32,
}

impl Parts {
    spec fn wf(self) -> bool {
        &&& self.significand < 0x100_0000
        &&& self.exponent <= 253
        &&& self.exponent == 0 || self.significand >= 0x80_0000
    }

    spec fn size(self) -> int {
        self.significand * pow2(self.exponent as nat)
    }
}

fn parts(code: u32) -> (p: Parts)
    requires
        code < INFINITE,
    ensures
        p.wf(),
        p.size() == magnitude(code as int),
        p.exponent == if code < FRACTION { 0 } else { code / FRACTION - 1 },
        p.significand == 0 <==> code == 0,
{
    proof {
        lemma2_to64();
    }
    let e: u32 = code / FRACTION;
    let f: u32 = code % FRACTION;
    if e == 0 {
        assert(f * 1 == f);
        Parts { significand: f, exponent: 0 }
    } else {
        Parts { significand: f + FRACTION, exponent: e - 1 }
    }
}

/// The code of the sum, or of the difference, of two sizes.
fn code_of_sum(a: &Parts, b: &Parts, subtract: bool) -> (code: u32)
    requires
        a.wf(),
        b.wf(),
        a.exponent >= b.exponent,
        subtract ==> a.size() >= b.size(),
    ensures
        code == nearest(
            if subtract {
                a.size() - b.size()
            } else {
                a.size() + b.size()
            },
            1,
        ),
        code <= INFINITE,
{
    let ghost exact: int = if subtract {
        a.size() - b.size()
    } else {
        a.size() + b.size()
    };
    let d: u32 = a.exponent - b.exponent;
    if d <= 100 {
        let scale: u128 = power_of_two(d);
        let ghost unit = pow2(b.exponent as nat) as int;
        let ghost sa = a.significand as int;
        let ghost sb = b.significand as int;
        proof {
            lemma_power_100();
            lemma_pow2_pos(d as nat);
            if d < 100 {
                lemma_pow2_strictly_increases(d as nat, 100);
            }
            assert(sa * scale < 0x100_0000 * 0x10_0000_0000_0000_0000_0000_0000) by (nonlinear_arith)
                requires
                    0 <= sa < 0x100_0000,
                    0 < scale <= 0x10_0000_0000_0000_0000_0000_0000,
            ;
            lemma_pow2_adds(d as nat, b.exponent as nat);
            lemma_pow2_pos(b.exponent as nat);
            assert(a.size() == (sa * scale) * unit) by (nonlinear_arith)
                requires
                    a.size() == sa * (scale * unit),
            ;
            if subtract {
                assert(sa * scale >= sb) by (nonlinear_arith)
                    requires
                        (sa * scale) * unit >= sb * unit,
                        unit > 0,
                ;
            }
        }
        let shifted: u128 = a.significand as u128 * scale;
        let p: u128 = if subtract {
            shifted - b.significand as u128
        } else {
            shifted + b.significand as u128
        };
        proof {
            assert(exact == p * unit) by (nonlinear_arith)
                requires
                    exact == (if subtract { shifted * unit - sb * unit } else { shifted * unit + sb * unit }),
                    p == (if subtract { shifted - sb } else { shifted + sb }),
            ;
            let big = pow2(400) as int;
            lemma_pow2_adds(b.exponent as nat, 400);
            assert((b.exponent + 400) as nat == b.exponent as nat + 400);
            assert((p * unit) * big == p * (1 * (unit * big))) by (nonlinear_arith);
            assert(approximated_by(exact, 1, p as int, b.exponent as int, false));
        }
        round_scaled(p, b.exponent as i32, false, Ghost(exact), Ghost(1))
    } else {
        let lead: u128 = a.significand as u128 * 0x100_0000_0000;
        let p: u128 = if subtract && b.significand > 0 {
            lead - 1
        } else {
            lead
        };
        let t: i32 = a.exponent as i32 - 40;
        proof {
            lemma_far_apart(a.significand as int, a.exponent as int, b.significand as int, b.exponent as int);
            let tiny = b.size() * pow2(400);
            let unit = pow2((t + 400) as nat) as int;
            let big = pow2(400) as int;
            let sa = a.size();
            let sb = b.size();
            assert((sa + sb) * big == sa * big + sb * big) by (nonlinear_arith);
            assert((sa - sb) * big == sa * big - sb * big) by (nonlinear_arith);
            assert((lead + 1) * unit == lead * unit + unit) by (nonlinear_arith);
            assert((lead - 1) * unit == lead * unit - unit) by (nonlinear_arith);
            assert(lead * (1 * unit) == lead * unit);
            assert(1 * unit == unit);
            assert(b.significand > 0 ==> tiny > 0) by {
                if b.significand > 0 {
                    lemma_pow2_pos(400);
                    lemma_pow2_pos(b.exponent as nat);
                    let e = pow2(b.exponent as nat) as int;
                    let m = b.significand as int;
                    assert((m * e) * big > 0) by (nonlinear_arith)
                        requires
                            m > 0,
                            e > 0,
                            big > 0,
                    ;
                }
            }
            assert(b.significand == 0 ==> tiny == 0) by {
                if b.significand == 0 {
                    assert(sb == 0) by (nonlinear_arith)
                        requires
                            sb == b.significand * pow2(b.exponent as nat),
                            b.significand == 0,
                    ;
                    assert(sb * big == 0) by (nonlinear_arith)
                        requires
                            sb == 0,
                    ;
                }
            }
            assert(approximated_by(exact, 1, p as int, t as int, b.significand > 0));
        }
        round_scaled(p, t, b.significand > 0, Ghost(exact), Ghost(1))
    }
}

proof fn lemma_power_100()
    ensures
        pow2(100) == 0x10_0000_0000_0000_0000_0000_0000,
{
    lemma2_to64();
    lemma2_to64_rest();
    lemma_pow2_adds(50, 50);
}

/// A size that is a hundred binary orders smaller is far below the precision
/// of the larger one.
proof fn lemma_far_apart(ma: int, ka: int, mb: int, kb: int)
    requires
        0 <= ma < 0x100_0000,
        0 <= mb < 0x100_0000,
        0 <= kb,
        kb + 100 < ka,
    ensures
        (ma * pow2(ka as nat)) * pow2(400) == (ma * 0x100_0000_0000) * pow2((ka + 360) as nat),
        0 <= (mb * pow2(kb as nat)) * pow2(400) < pow2((ka + 360) as nat),
{
    lemma2_to64();
    lemma2_to64_rest();
    let big = pow2(400) as int;
    lemma_pow2_adds(ka as nat, 400);
    lemma_pow2_adds(40, (ka + 360) as nat);
    assert(ka as nat + 400 == 40 + (ka + 360) as nat);
    let a = pow2(ka as nat) as int;
    let u = pow2((ka + 360) as nat) as int;
    assert((ma * a) * big == ma * (a * big)) by (nonlinear_arith);
    assert(ma * (0x100_0000_0000 * u) == (ma * 0x100_0000_0000) * u) by (nonlinear_arith);
    lemma_pow2_adds(kb as nat, 400);
    lemma_pow2_adds(24, kb as nat + 400);
    let b = pow2(kb as nat) as int;
    let w = pow2(kb as nat + 400) as int;
    lemma_pow2_pos(kb as nat + 400);
    assert((mb * b) * big == mb * (b * big)) by (nonlinear_arith);
    assert(0 <= mb * w < 0x100_0000 * w) by (nonlinear_arith)
        requires
            0 <= mb < 0x100_0000,
            w > 0,
    ;
    lemma_pow2_strictly_increases(24 + (kb as nat + 400), (ka + 360) as nat);
}

impl Binary32 {
    /// The number with the given encoding.
    pub fn from_bits(bits: u32) -> (r: Self)
        ensures
            r.bits == bits,
    {
        Binary32 { bits }
    }

    /// The encoding.
    pub fn to_bits(self) -> (r: u32)
        ensures
            r == self.bits,
    {
        self.bits
    }

    fn encode(negative: bool, code: u32) -> (r: Self)
        requires
            code < SIGN,
        ensures
            r == encoded(negative, code as int),
            r.code() == code,
            r.negative() == negative,
    {
        Binary32 {
            bits: if negative {
                code + SIGN
            } else {
                code
            },
        }
    }

    /// The sum of two numbers.
    pub fn plus(self, other: Self) -> (r: Self)
        ensures
            r == sum(self, other),
    {
        let a: u32 = self.bits % SIGN;
        let b: u32 = other.bits % SIGN;
        let a_negative = self.bits >= SIGN;
        let b_negative = other.bits >= SIGN;
        if a > INFINITE || b > INFINITE {
            return Binary32 { bits: QUIET_NAN };
        }
        if a == INFINITE && b == INFINITE && a_negative != b_negative {
            return Binary32 { bits: QUIET_NAN };
        }
        if a == INFINITE {
            return self;
        }
        if b == INFINITE {
            return other;
        }
        let subtract = a_negative != b_negative;
        proof {
            if a <= b {
                lemma_magnitude_increases(a as int, b as int);
            } else {
                lemma_magnitude_increases(b as int, a as int);
            }
        }
        if subtract && a == b {
            return Binary32::encode(false, 0);
        }
        let (negative, code) = if a >= b {
            (a_negative, code_of_sum(&parts(a), &parts(b), subtract))
        } else {
            (b_negative, code_of_sum(&parts(b), &parts(a), subtract))
        };
        proof {
            if a == 0 && b == 0 {
                lemma_nearest_zero();
            } else {
                lemma_magnitude_increases(0, a as int);
                lemma_magnitude_increases(0, b as int);
            }
        }
        Binary32::encode(negative, code)
    }

    /// The first number less the second.
    pub fn minus(self, other: Self) -> (r: Self)
        ensures
            r == difference(self, other),
    {
        self.plus(Binary32::encode(other.bits < SIGN, other.bits % SIGN))
    }

    /// The product of two numbers.
    pub fn times(self, other: Self) -> (r: Self)
        ensures
            r == product(self, other),
    {
        let a: u32 = self.bits % SIGN;
        let b: u32 = other.bits % SIGN;
        let negative = (self.bits >= SIGN) != (other.bits >= SIGN);
        if a > INFINITE || b > INFINITE {
            return Binary32 { bits: QUIET_NAN };
        }
        if a == INFINITE || b == INFINITE {
            return if a == 0 || b == 0 {
                Binary32 { bits: QUIET_NAN }
            } else {
                Binary32::encode(negative, INFINITE)
            };
        }
        let x = parts(a);
        let y = parts(b);
        let ghost num = x.size() * y.size();
        let ghost den = pow2(149) as int;
        let ma: u64 = x.significand as u64;
        let mb: u64 = y.significand as u64;
        assert(0 <= ma * mb < 0x1_0000_0000_0000) by (nonlinear_arith)
            requires
                ma < 0x100_0000,
                mb < 0x100_0000,
        ;
        let p: u64 = ma * mb;
        let t: i32 = x.exponent as i32 + y.exponent as i32 - 149;
        proof {
            lemma_pow2_pos(149);
            let ea = pow2(x.exponent as nat) as int;
            let eb = pow2(y.exponent as nat) as int;
            let big = pow2(400) as int;
            let u = pow2((t + 400) as nat) as int;
            lemma_pow2_adds(x.exponent as nat, y.exponent as nat);
            lemma_pow2_adds(x.exponent as nat + y.exponent as nat, 400);
            lemma_pow2_adds(149, (t + 400) as nat);
            assert(x.exponent as nat + y.exponent as nat + 400 == 149 + (t + 400) as nat);
            assert((ma * ea) * (mb * eb) * big == (ma * mb) * (ea * eb * big)) by (nonlinear_arith);
            assert(den * u == ea * eb * big);
            assert(approximated_by(num, den, p as int, t as int, false));
        }
        let code: u32 = round_scaled(p as u128, t, false, Ghost(num), Ghost(den));
        Binary32::encode(negative, code)
    }

    /// The first number divided by the second.
    pub fn over(self, other: Self) -> (r: Self)
        ensures
            r == quotient(self, other),
    {
        let a: u32 = self.bits % SIGN;
        let b: u32 = other.bits % SIGN;
        let negative = (self.bits >= SIGN) != (other.bits >= SIGN);
        if a > INFINITE || b > INFINITE {
            return Binary32 { bits: QUIET_NAN };
        }
        if a == INFINITE {
            return if b == INFINITE {
                Binary32 { bits: QUIET_NAN }
            } else {
                Binary32::encode(negative, INFINITE)
            };
        }
        if b == INFINITE {
            return Binary32::encode(negative, 0);
        }
        if b == 0 {
            return if a == 0 {
                Binary32 { bits: QUIET_NAN }
            } else {
                Binary32::encode(negative, INFINITE)
            };
        }
        let x = parts(a);
        let y = parts(b);
        let ghost num = x.size() * pow2(149);
        let ghost den = y.size();
        let ma: u128 = x.significand as u128;
        let mb: u128 = y.significand as u128;
        let dividend: u128 = ma * 0x8_0000_0000_0000;
        let p: u128 = dividend / mb;
        let rest: u128 = dividend % mb;
        let t: i32 = x.exponent as i32 - y.exponent as i32 + 98;
        proof {
            assert(dividend == mb * p + rest && 0 <= rest < mb) by {
                lemma_fundamental_div_mod(dividend as int, mb as int);
            }
            assert(rest > 0 ==> p >= 0x200_0000) by {
                if rest > 0 {
                    assert(ma > 0);
                    assert(mb * p <= 0x100_0000 * p) by (nonlinear_arith)
                        requires
                            mb < 0x100_0000,
                            p >= 0,
                    ;
                }
            }
            lemma_divided(
                ma as int,
                x.exponent as int,
                mb as int,
                y.exponent as int,
                p as int,
                rest as int,
            );
            assert(p <= dividend) by (nonlinear_arith)
                requires
                    dividend == mb * p + rest,
                    mb > 0,
                    rest >= 0,
                    p >= 0,
            ;
        }
        let code: u32 = round_scaled(p, t, rest > 0, Ghost(num), Ghost(den));
        Binary32::encode(negative, code)
    }

    /// Whether this number is below another one.
    pub fn lt(self, other: Self) -> (r: bool)
        ensures
            r == less(self, other),
    {
        let a: u32 = self.bits % SIGN;
        let b: u32 = other.bits % SIGN;
        if a > INFINITE || b > INFINITE {
            return false;
        }
        proof {
            lemma_magnitude_increases(0, a as int);
            lemma_magnitude_increases(0, b as int);
            if a <= b {
                lemma_magnitude_increases(a as int, b as int);
            } else {
                lemma_magnitude_increases(b as int, a as int);
            }
        }
        let a_negative = self.bits >= SIGN;
        let b_negative = other.bits >= SIGN;
        if a_negative && b_negative {
            b < a
        } else if a_negative {
            a > 0 || b > 0
        } else if b_negative {
            false
        } else {
            a < b
        }
    }

    /// Whether this number is another one or below it.
    pub fn le(self, other: Self) -> (r: bool)
        ensures
            r == at_most(self, other),
    {
        let a: u32 = self.bits % SIGN;
        let b: u32 = other.bits % SIGN;
        if a > INFINITE || b > INFINITE {
            false
        } else {
            !other.lt(self)
        }
    }

    /// Whether two numbers are equal.
    pub fn eq(self, other: Self) -> (r: bool)
        ensures
            r == equal(self, other),
    {
        self.le(other) && other.le(self)
    }

    /// The number without its sign.
    pub fn abs(self) -> (r: Self)
        ensures
            r == unsigned(self),
    {
        Binary32::encode(false, self.bits % SIGN)
    }

    /// The larger of two numbers, and the other one where one is NaN.
    pub fn max(self, other: Self) -> (r: Self)
        ensures
            r == larger(self, other),
    {
        if self.bits % SIGN > INFINITE || self.lt(other) {
            other
        } else {
            self
        }
    }

    /// The number moved into the range from `low` to `high`.
    pub fn clamp(self, low: Self, high: Self) -> (r: Self)
        requires
            at_most(low, high),
        ensures
            r == clamped(self, low, high),
    {
        if self.lt(low) {
            low
        } else if high.lt(self) {
            high
        } else {
            self
        }
    }

    /// The whole part, held between 0 and the largest `limit`.
    fn to_whole(self, limit: u128) -> (r: u128)
        requires
            limit < 0x8000_0000_0000_0000_0000_0000_0000_0000,
        ensures
            r == whole(self, limit as int),
    {
        let code: u32 = self.bits % SIGN;
        if code > INFINITE || self.bits >= SIGN {
            return 0;
        }
        if code == INFINITE {
            proof {
                lemma_whole_of_infinity();
            }
            return limit;
        }
        let x = parts(code);
        let m: u128 = x.significand as u128;
        let n: u128 = if x.exponent >= 149 {
            let e: u32 = x.exponent - 149;
            let scale: u128 = power_of_two(e);
            proof {
                lemma2_to64();
                lemma2_to64_rest();
                lemma_pow2_pos(149);
                lemma_pow2_pos(e as nat);
                lemma_pow2_adds(52, 52);
                if e < 104 {
                    lemma_pow2_strictly_increases(e as nat, 104);
                }
                assert(m * scale < 0x100_0000 * 0x100_0000_0000_0000_0000_0000_0000) by (nonlinear_arith)
                    requires
                        0 <= m < 0x100_0000,
                        0 < scale <= 0x100_0000_0000_0000_0000_0000_0000,
                ;
                lemma_pow2_adds(e as nat, 149);
                let unit = pow2(149) as int;
                assert(m * (scale * unit) == (m * scale) * unit) by (nonlinear_arith);
                lemma_div_multiples_vanish(m * scale, unit);
                assert((m * scale) * unit == unit * (m * scale)) by (nonlinear_arith);
            }
            m * scale
        } else if 149 - x.exponent <= 127 {
            let e: u32 = 149 - x.exponent;
            let scale: u128 = power_of_two(e);
            proof {
                lemma_pow2_pos(e as nat);
                lemma_pow2_pos(x.exponent as nat);
                lemma_pow2_adds(e as nat, x.exponent as nat);
                let unit = pow2(x.exponent as nat) as int;
                lemma_div_denominator(m * unit, unit, scale as int);
                lemma_div_multiples_vanish(m as int, unit);
                assert(unit * m == m * unit) by (nonlinear_arith);
                assert(unit * scale == scale * unit) by (nonlinear_arith);
            }
            m / scale
        } else {
            proof {
                lemma2_to64();
                let unit = pow2(x.exponent as nat) as int;
                lemma_pow2_pos(x.exponent as nat);
                lemma_pow2_adds(24, x.exponent as nat);
                lemma_pow2_strictly_increases(24 + x.exponent as nat, 149);
                assert(0 <= m * unit < 0x100_0000 * unit) by (nonlinear_arith)
                    requires
                        0 <= m < 0x100_0000,
                        unit > 0,
                ;
                lemma_basic_div(m * unit, pow2(149) as int);
            }
            0
        };
        if n <= limit {
            n
        } else {
            limit
        }
    }

    /// The whole part as a count.
    pub fn to_usize(self) -> (r: usize)
        ensures
            r == whole(self, usize::MAX as int),
    {
        self.to_whole(usize::MAX as u128) as usize
    }

    /// The whole part as a 16 bit count.
    pub fn to_u16(self) -> (r: u16)
        ensures
            r == whole(self, u16::MAX as int),
    {
        self.to_whole(u16::MAX as u128) as u16
    }

    /// The number nearest to a count.
    pub fn from_usize(n: usize) -> (r: Self)
        ensures
            r == from_whole(n as int),
    {
        let ghost num = n * pow2(149);
        proof {
            let big = pow2(400) as int;
            let a = pow2(149) as int;
            lemma_pow2_adds(149, 400);
            assert((149 + 400) as nat == 549);
            assert((n * a) * big == n * (1 * (a * big))) by (nonlinear_arith);
            assert(approximated_by(num, 1, n as int, 149, false));
        }
        let code: u32 = round_scaled(n as u128, 149, false, Ghost(num), Ghost(1));
        Binary32::encode(false, code)
    }
}

/// A result that can be represented is not rounded.
pub proof fn representable_is_exact(code: int)
    requires
        0 <= code <= INFINITE,
    ensures
        nearest(magnitude(code), 1) == code,
{
    lemma_magnitude_increases(0, code);
    lemma_nearest_at_least(magnitude(code), 1, code);
    lemma_nearest_at_most(magnitude(code), 1, code);
}

/// What is left of one above a number up to a half is not below that number.
pub proof fn lemma_rest_of_one(a: Binary32)
    requires
        !a.is_nan(),
        !a.negative(),
        at_most(a, Binary32 { bits: 0x3f00_0000 }),
    ensures
        at_most(a, difference(Binary32 { bits: 0x3f80_0000 }, a)),
{
    let one = Binary32 { bits: 0x3f80_0000 };
    let half = Binary32 { bits: 0x3f00_0000 };
    assert(0x3f80_0000int / 0x80_0000 == 127 && 0x3f80_0000int % 0x80_0000 == 0);
    assert(0x3f00_0000int / 0x80_0000 == 126 && 0x3f00_0000int % 0x80_0000 == 0);
    lemma_pow2_unfold(126);
    lemma_pow2_pos(125);
    assert(one.code() == 0x3f80_0000 && half.code() == 0x3f00_0000);
    assert(one.value() == 2 * half.value());
    if a.code() > half.code() {
        lemma_magnitude_increases(half.code(), a.code());
    }
    lemma_magnitude_increases(0, a.code());
    let exact = one.value() - a.value();
    assert(exact >= half.value() > 0);
    lemma_nearest_at_least(exact, 1, half.code());
    lemma_nearest_at_most(exact, 1, one.code());
    let rest = opposite(a);
    assert(rest.negative() && rest.code() == a.code());
    let code = nearest(exact, 1);
    let r = difference(one, a);
    assert(r == encoded(false, code));
    assert(r.code() == code && !r.negative());
    lemma_magnitude_increases(half.code(), code);
}

proof fn lemma_nearest_zero()
    ensures
        nearest(0, 1) == 0,
        magnitude(0) == 0,
{
    lemma_magnitude_increases(0, 1);
    assert(rounds_to(0, 1, 0));
    lemma_nearest_is(0, 1, 0);
}

/// The quotient of two significands, with its remainder, brackets the quotient
/// of the numbers.
proof fn lemma_divided(ma: int, ka: int, mb: int, kb: int, p: int, rest: int)
    requires
        0 <= ma,
        0 < mb,
        0 <= ka <= 253,
        0 <= kb <= 253,
        0 <= rest < mb,
        ma * 0x8_0000_0000_0000 == mb * p + rest,
    ensures
        mb * pow2(kb as nat) > 0,
        approximated_by(
            (ma * pow2(ka as nat)) * pow2(149),
            mb * pow2(kb as nat),
            p,
            ka - kb + 98,
            rest > 0,
        ),
{
    let t = ka - kb + 98;
    let ea = pow2(ka as nat) as int;
    let eb = pow2(kb as nat) as int;
    let big = pow2(400) as int;
    let s = pow2(149) as int;
    let u = pow2((t + 400) as nat) as int;
    let v = pow2((ka + 498) as nat) as int;
    lemma2_to64();
    lemma2_to64_rest();
    lemma_pow2_pos(kb as nat);
    lemma_pow2_pos((ka + 498) as nat);
    assert(mb * eb > 0) by (nonlinear_arith)
        requires
            mb > 0,
            eb > 0,
    ;
    // Both sides are multiples of the same power.
    lemma_pow2_adds(kb as nat, (t + 400) as nat);
    assert(kb as nat + (t + 400) as nat == (ka + 498) as nat);
    assert((mb * eb) * u == mb * (eb * u)) by (nonlinear_arith);
    lemma_pow2_adds(ka as nat, 149);
    lemma_pow2_adds(ka as nat + 149, 400);
    lemma_pow2_adds(51, (ka + 498) as nat);
    assert(ka as nat + 149 + 400 == 51 + (ka + 498) as nat);
    assert(((ma * ea) * s) * big == ma * (ea * s * big)) by (nonlinear_arith);
    assert(ma * (0x8_0000_0000_0000 * v) == (ma * 0x8_0000_0000_0000) * v) by (nonlinear_arith);
    let unit = (mb * eb) * u;
    let scaled = ((ma * ea) * s) * big;
    assert(unit == mb * v);
    assert(scaled == (mb * p + rest) * v);
    assert((mb * p + rest) * v == p * (mb * v) + rest * v) by (nonlinear_arith);
    assert((p + 1) * (mb * v) == p * (mb * v) + mb * v) by (nonlinear_arith);
    assert(rest * v < mb * v) by (nonlinear_arith)
        requires
            rest < mb,
            v > 0,
    ;
    if rest > 0 {
        assert(rest * v > 0) by (nonlinear_arith)
            requires
                rest > 0,
                v > 0,
        ;
    } else {
        assert(rest * v == 0) by (nonlinear_arith)
            requires
                rest == 0,
        ;
    }
}

/// An infinity is past every limit.
proof fn lemma_whole_of_infinity()
    ensures
        magnitude(INFINITE as int) / pow2(149) as int > 0x8000_0000_0000_0000_0000_0000_0000_0000,
{
    lemma2_to64();
    lemma2_to64_rest();
    assert(INFINITE as int / 0x80_0000 == 255 && INFINITE as int % 0x80_0000 == 0);
    lemma_pow2_adds(23, 254);
    lemma_pow2_adds(128, 149);
    lemma_pow2_adds(64, 64);
    lemma_pow2_pos(149);
    lemma_div_multiples_vanish(pow2(128) as int, pow2(149) as int);
    let (a, b) = (pow2(128) as int, pow2(149) as int);
    assert(a * b == b * a) by (nonlinear_arith);
}

} // verus!
