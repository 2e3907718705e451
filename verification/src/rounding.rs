//! Rounding to the nearest single-precision magnitude.
//!
//! A non-negative single-precision number is named by the low 31 bits of its
//! encoding, here called its code. Codes are ordered as the numbers that they
//! name, and every finite one names a whole multiple of two to the power -149.
//! The code of infinity is taken to name the first power of two that is out of
//! range: this is where rounding to nearest begins to overflow.
use vstd::arithmetic::div_mod::lemma_fundamental_div_mod;
use vstd::arithmetic::power2::{
    lemma2_to64, lemma2_to64_rest, lemma_pow2_adds, lemma_pow2_pos, lemma_pow2_strictly_increases, lemma_pow2_unfold,
    pow2,
};
use vstd::prelude::*;

verus! {

/// Two to the power 23: the codes that share one exponent.
pub const FRACTION: u32 = 0x80_0000;

/// The code of infinity.
pub const INFINITE: u32 = 0x7f80_0000;

/// The number named by `code`, in units of two to the power -149.
pub open spec fn magnitude(code: int) -> int {
    let exponent = code / 0x80_0000;
    let fraction = code % 0x80_0000;
    if exponent == 0 {
        fraction
    } else {
        (0x80_0000 + fraction) * pow2((exponent - 1) as nat)
    }
}

/// Whether `num / den` is closer to the number of `code` than to its
/// neighbours, or half way between two of them and `code` is the even one.
pub open spec fn rounds_to(num: int, den: int, code: int) -> bool {
    &&& 0 <= code <= INFINITE
    &&& code > 0 ==> {
        let border = den * (magnitude(code - 1) + magnitude(code));
        2 * num > border || (2 * num == border && code % 2 == 0)
    }
    &&& code < INFINITE ==> {
        let border = den * (magnitude(code) + magnitude(code + 1));
        2 * num < border || (2 * num == border && code % 2 == 0)
    }
}

/// The code to which `num / den` rounds: to nearest, ties to even.
pub open spec fn nearest(num: int, den: int) -> int {
    choose|code: int| rounds_to(num, den, code)
}

/// A significand of at most 24 bits, and one of exactly 24 unless the exponent
/// is the smallest, is encoded by adding the exponent above it. The carry out
/// of a significand lands in the exponent.
proof fn lemma_magnitude_of_parts(significand: int, exponent: int)
    requires
        0 <= exponent,
        0 <= significand <= 0x100_0000,
        exponent == 0 || significand >= 0x80_0000,
    ensures
        magnitude(exponent * 0x80_0000 + significand) == significand * pow2(exponent as nat),
{
    let code = exponent * 0x80_0000 + significand;
    lemma2_to64();
    if significand < 0x80_0000 {
        assert(code / 0x80_0000 == 0 && code % 0x80_0000 == significand);
        assert(significand * 1 == significand);
        assert(exponent as nat == 0);
    } else if significand < 0x100_0000 {
        assert(code / 0x80_0000 == exponent + 1 && code % 0x80_0000 == significand - 0x80_0000);
    } else {
        assert(code / 0x80_0000 == exponent + 2 && code % 0x80_0000 == 0);
        lemma_pow2_unfold((exponent + 1) as nat);
        let unit = pow2(exponent as nat) as int;
        assert(0x80_0000 * (2 * unit) == significand * unit) by (nonlinear_arith)
            requires
                significand == 0x100_0000,
        ;
    }
}

/// Every code splits into such a significand and exponent.
proof fn lemma_parts_of_code(code: int) -> (parts: (int, int))
    requires
        0 <= code,
    ensures
        0 <= parts.1,
        0 <= parts.0 < 0x100_0000,
        parts.1 == 0 || parts.0 >= 0x80_0000,
        code == parts.1 * 0x80_0000 + parts.0,
        magnitude(code) == parts.0 * pow2(parts.1 as nat),
{
    let exponent = code / 0x80_0000;
    let fraction = code % 0x80_0000;
    lemma2_to64();
    if exponent == 0 {
        assert(fraction * 1 == fraction);
        (fraction, 0)
    } else {
        (0x80_0000 + fraction, exponent - 1)
    }
}

/// The next code names the next number.
proof fn lemma_magnitude_next(code: int)
    requires
        0 <= code,
    ensures
        0 <= magnitude(code) < magnitude(code + 1),
{
    let (significand, exponent) = lemma_parts_of_code(code);
    lemma_magnitude_of_parts(significand + 1, exponent);
    lemma_pow2_pos(exponent as nat);
    let unit = pow2(exponent as nat) as int;
    assert(0 <= significand * unit < (significand + 1) * unit) by (nonlinear_arith)
        requires
            significand >= 0,
            unit > 0,
    ;
    assert(exponent * 0x80_0000 + (significand + 1) == code + 1);
}

/// Codes are ordered as the numbers that they name.
pub proof fn lemma_magnitude_increases(a: int, b: int)
    requires
        0 <= a <= b,
    ensures
        0 <= magnitude(a) <= magnitude(b),
        a < b ==> magnitude(a) < magnitude(b),
    decreases b - a,
{
    lemma_magnitude_next(a);
    if a < b {
        lemma_magnitude_increases(a + 1, b);
    }
}

/// Of two adjacent codes around `num / den`, the half way point decides.
proof fn lemma_rounds_between(num: int, den: int, code: int)
    requires
        den > 0,
        0 <= code < INFINITE,
        den * magnitude(code) <= num <= den * magnitude(code + 1),
    ensures
        ({
            let border = den * (magnitude(code) + magnitude(code + 1));
            &&& 2 * num < border || (2 * num == border && code % 2 == 0) ==> rounds_to(
                num,
                den,
                code,
            )
            &&& 2 * num > border || (2 * num == border && code % 2 != 0) ==> rounds_to(
                num,
                den,
                code + 1,
            )
        }),
{
    let low = magnitude(code);
    let high = magnitude(code + 1);
    assert(code % 2 != 0 ==> (code + 1) % 2 == 0);
    if code > 0 {
        lemma_magnitude_next(code - 1);
        let lower = magnitude(code - 1);
        assert(den * (lower + low) < 2 * (den * low)) by (nonlinear_arith)
            requires
                den > 0,
                lower < low,
        ;
    }
    if code + 1 < INFINITE {
        lemma_magnitude_next(code + 1);
        let higher = magnitude(code + 2);
        assert(den * (high + higher) > 2 * (den * high)) by (nonlinear_arith)
            requires
                den > 0,
                high < higher,
        ;
    }
}

/// At most one code is the nearest.
proof fn lemma_rounds_to_unique(num: int, den: int, a: int, b: int)
    requires
        den > 0,
        rounds_to(num, den, a),
        rounds_to(num, den, b),
    ensures
        a == b,
{
    if a != b {
        let low = if a < b { a } else { b };
        let high = if a < b { b } else { a };
        lemma_magnitude_increases(low, high - 1);
        lemma_magnitude_increases(low + 1, high);
        let border_low = den * (magnitude(low) + magnitude(low + 1));
        let border_high = den * (magnitude(high - 1) + magnitude(high));
        if low + 1 < high {
            lemma_magnitude_increases(low + 1, high - 1);
            let (p, q) = (magnitude(low) + magnitude(low + 1), magnitude(high - 1) + magnitude(high));
            lemma_magnitude_increases(low, high - 1);
            assert(p < q);
            assert(den * p < den * q) by (nonlinear_arith)
                requires
                    den > 0,
                    p < q,
            ;
        }
        assert(false);
    }
}

/// What rounds to a code is rounded to that code.
pub proof fn lemma_nearest_is(num: int, den: int, code: int)
    requires
        den > 0,
        rounds_to(num, den, code),
    ensures
        nearest(num, den) == code,
{
    lemma_rounds_to_unique(num, den, code, nearest(num, den));
}

proof fn lemma_rounds_somewhere(num: int, den: int, top: int)
    requires
        num >= 0,
        den > 0,
        0 <= top <= INFINITE,
        top < INFINITE ==> num <= den * magnitude(top + 1),
    ensures
        exists|code: int| rounds_to(num, den, code),
    decreases top,
{
    lemma_magnitude_increases(0, top);
    if den * magnitude(top) <= num {
        if top == INFINITE {
            lemma_magnitude_next(top - 1);
            let low = magnitude(top - 1);
            let high = magnitude(top);
            assert(den * (low + high) < 2 * (den * high)) by (nonlinear_arith)
                requires
                    den > 0,
                    low < high,
            ;
            assert(rounds_to(num, den, top));
        } else {
            lemma_rounds_between(num, den, top);
            let border = den * (magnitude(top) + magnitude(top + 1));
            assert(rounds_to(num, den, top) || rounds_to(num, den, top + 1));
        }
    } else {
        if top == 0 {
            assert(magnitude(0) == 0);
            assert(den * magnitude(0) == 0) by (nonlinear_arith)
                requires
                    magnitude(0) == 0,
            ;
        } else {
            lemma_rounds_somewhere(num, den, top - 1);
        }
    }
}

/// Every fraction that is not negative has a nearest code.
pub proof fn lemma_nearest_rounds(num: int, den: int)
    requires
        num >= 0,
        den > 0,
    ensures
        rounds_to(num, den, nearest(num, den)),
{
    lemma_rounds_somewhere(num, den, INFINITE as int);
}

/// Rounding keeps the order of two fractions.
pub proof fn lemma_nearest_increases(a: int, b: int, den: int)
    requires
        0 <= a <= b,
        den > 0,
    ensures
        nearest(a, den) <= nearest(b, den),
{
    lemma_nearest_rounds(a, den);
    lemma_nearest_rounds(b, den);
    let c = nearest(a, den);
    let d = nearest(b, den);
    if c > d {
        lemma_magnitude_increases(d, c - 1);
        lemma_magnitude_increases(d + 1, c);
        let low = magnitude(d) + magnitude(d + 1);
        let high = magnitude(c - 1) + magnitude(c);
        assert(den * low <= den * high) by (nonlinear_arith)
            requires
                low <= high,
                den > 0,
        ;
        if low < high {
            assert(den * low < den * high) by (nonlinear_arith)
                requires
                    low < high,
                    den > 0,
            ;
        } else {
            assert(c == d + 1);
        }
    }
}

/// Rounding never goes below a representable number that is not above the
/// fraction.
pub proof fn lemma_nearest_at_least(num: int, den: int, code: int)
    requires
        num >= 0,
        den > 0,
        0 <= code <= INFINITE,
        den * magnitude(code) <= num,
    ensures
        nearest(num, den) >= code,
{
    lemma_nearest_rounds(num, den);
    let c = nearest(num, den);
    if c < code {
        lemma_magnitude_increases(c, code);
        lemma_magnitude_increases(c + 1, code);
        let (low, high, own) = (magnitude(c), magnitude(c + 1), magnitude(code));
        assert(den * (low + high) < 2 * (den * own)) by (nonlinear_arith)
            requires
                den > 0,
                low < own,
                high <= own,
        ;
    }
}

/// Rounding never goes above a representable number that is not below the
/// fraction.
pub proof fn lemma_nearest_at_most(num: int, den: int, code: int)
    requires
        num >= 0,
        den > 0,
        0 <= code <= INFINITE,
        num <= den * magnitude(code),
    ensures
        nearest(num, den) <= code,
{
    lemma_nearest_rounds(num, den);
    let c = nearest(num, den);
    if c > code {
        lemma_magnitude_increases(code, c);
        lemma_magnitude_increases(code, c - 1);
        let (low, high, own) = (magnitude(c - 1), magnitude(c), magnitude(code));
        assert(den * (low + high) > 2 * (den * own)) by (nonlinear_arith)
            requires
                den > 0,
                low >= own,
                high > own,
        ;
    }
}

/// Whether `num / den` is `p` times two to the power `t`, or, where `inexact`,
/// strictly between that and the next multiple.
pub open spec fn approximated_by(num: int, den: int, p: int, t: int, inexact: bool) -> bool {
    let unit = den * pow2((t + 400) as nat);
    let scaled = num * pow2(400);
    if inexact {
        p * unit < scaled < (p + 1) * unit
    } else {
        scaled == p * unit
    }
}

/// Comparing at the common scale compares the fractions themselves.
proof fn lemma_at_scale(num: int, den: int, m: int, k: int)
    requires
        den > 0,
        k >= 0,
    ensures
        m * (den * pow2((k + 400) as nat)) <= num * pow2(400) ==> den * (m * pow2(k as nat)) <= num,
        m * (den * pow2((k + 400) as nat)) >= num * pow2(400) ==> den * (m * pow2(k as nat)) >= num,
        m * (den * pow2((k + 400) as nat)) < num * pow2(400) ==> den * (m * pow2(k as nat)) < num,
        m * (den * pow2((k + 400) as nat)) > num * pow2(400) ==> den * (m * pow2(k as nat)) > num,
{
    let a = pow2(k as nat) as int;
    let b = pow2(400) as int;
    lemma_pow2_adds(k as nat, 400);
    lemma_pow2_pos(400);
    assert((k + 400) as nat == k as nat + 400);
    assert(m * (den * (a * b)) == (den * (m * a)) * b) by (nonlinear_arith);
    let x = den * (m * a);
    assert(x * b <= num * b ==> x <= num) by (nonlinear_arith)
        requires
            b > 0,
    ;
    assert(x * b >= num * b ==> x >= num) by (nonlinear_arith)
        requires
            b > 0,
    ;
    assert(x * b < num * b ==> x < num) by (nonlinear_arith)
        requires
            b > 0,
    ;
    assert(x * b > num * b ==> x > num) by (nonlinear_arith)
        requires
            b > 0,
    ;
}

/// The value is an exact significand at the chosen exponent.
proof fn lemma_round_exact(num: int, den: int, p: int, t: int, k: int, m: int)
    requires
        den > 0,
        -400 <= t,
        0 <= k <= 253,
        k <= t,
        0 <= m < 0x100_0000,
        k == 0 || m >= 0x80_0000,
        m == p * pow2((t - k) as nat),
        approximated_by(num, den, p, t, false),
    ensures
        rounds_to(num, den, k * 0x80_0000 + m),
{
    let code = k * 0x80_0000 + m;
    let d = pow2((t - k) as nat) as int;
    let w = den * pow2((k + 400) as nat);
    lemma_pow2_adds((t - k) as nat, (k + 400) as nat);
    assert((t + 400) as nat == (t - k) as nat + (k + 400) as nat);
    let base = pow2((k + 400) as nat) as int;
    assert(p * (den * (d * base)) == (p * d) * (den * base)) by (nonlinear_arith);
    lemma_at_scale(num, den, m, k);
    lemma_magnitude_of_parts(m, k);
    lemma_magnitude_next(code);
    let low = magnitude(code);
    let high = magnitude(code + 1);
    assert(den * low < den * high) by (nonlinear_arith)
        requires
            den > 0,
            low < high,
    ;
    assert(den * (low + high) == den * low + den * high) by (nonlinear_arith);
    lemma_rounds_between(num, den, code);
}

/// The value is cut to `m` at the chosen exponent, and the part that was cut
/// decides between `m` and the next significand.
proof fn lemma_round_cut(
    num: int,
    den: int,
    p: int,
    t: int,
    inexact: bool,
    k: int,
    m: int,
    d: int,
)
    requires
        den > 0,
        p >= 0,
        -400 <= t < k,
        0 <= k <= 253,
        0 <= m < 0x100_0000,
        k == 0 || m >= 0x80_0000,
        d == pow2((k - t) as nat),
        m * d <= p < (m + 1) * d,
        approximated_by(num, den, p, t, inexact),
    ensures
        2 * p < (2 * m + 1) * d ==> rounds_to(num, den, k * 0x80_0000 + m),
        2 * p > (2 * m + 1) * d ==> rounds_to(num, den, k * 0x80_0000 + m + 1),
        2 * p == (2 * m + 1) * d && inexact ==> rounds_to(num, den, k * 0x80_0000 + m + 1),
        2 * p == (2 * m + 1) * d && !inexact && m % 2 == 0 ==> rounds_to(
            num,
            den,
            k * 0x80_0000 + m,
        ),
        2 * p == (2 * m + 1) * d && !inexact && m % 2 != 0 ==> rounds_to(
            num,
            den,
            k * 0x80_0000 + m + 1,
        ),
{
    let code = k * 0x80_0000 + m;
    let u = den * pow2((t + 400) as nat);
    let w = den * pow2((k + 400) as nat);
    let scaled = num * pow2(400);
    lemma_pow2_pos((t + 400) as nat);
    lemma_pow2_adds((k - t) as nat, (t + 400) as nat);
    assert((k + 400) as nat == (k - t) as nat + (t + 400) as nat);
    let base = pow2((t + 400) as nat) as int;
    assert(den * (d * base) == d * (den * base)) by (nonlinear_arith);
    assert(w == d * u);
    assert(u > 0) by (nonlinear_arith)
        requires
            den > 0,
            base > 0,
            u == den * base,
    ;
    // The value lies between the two significands.
    assert(m * w <= p * u) by (nonlinear_arith)
        requires
            u > 0,
            w == d * u,
            m * d <= p,
    ;
    assert((p + 1) * u <= (m + 1) * w) by (nonlinear_arith)
        requires
            u > 0,
            w == d * u,
            p + 1 <= (m + 1) * d,
    ;
    assert((p + 1) * u == p * u + u) by (nonlinear_arith);
    lemma_at_scale(num, den, m, k);
    lemma_at_scale(num, den, m + 1, k);
    lemma_magnitude_of_parts(m, k);
    lemma_magnitude_of_parts(m + 1, k);
    assert(k * 0x80_0000 + (m + 1) == code + 1);
    lemma_rounds_between(num, den, code);
    // The half way point.
    let unit = pow2(k as nat) as int;
    assert(den * (m * unit + (m + 1) * unit) == den * ((2 * m + 1) * unit)) by (nonlinear_arith);
    let border = den * (magnitude(code) + magnitude(code + 1));
    assert(border == den * ((2 * m + 1) * unit));
    lemma_at_scale(2 * num, den, 2 * m + 1, k);
    assert((2 * num) * pow2(400) == 2 * scaled) by (nonlinear_arith)
        requires
            scaled == num * pow2(400),
    ;
    let half = (2 * m + 1) * w;
    assert(half == ((2 * m + 1) * d) * u) by (nonlinear_arith)
        requires
            half == (2 * m + 1) * w,
            w == d * u,
    ;
    let cut = (2 * m + 1) * d;
    assert(cut % 2 == 0) by {
        lemma_pow2_unfold((k - t) as nat);
        let e = pow2((k - t - 1) as nat) as int;
        assert((k - t) as nat - 1 == (k - t - 1) as nat);
        assert((2 * m + 1) * (2 * e) == 2 * ((2 * m + 1) * e)) by (nonlinear_arith);
    }
    if 2 * p < cut {
        assert(2 * (p * u) + 2 * u <= cut * u) by (nonlinear_arith)
            requires
                u > 0,
                2 * p + 2 <= cut,
        ;
    } else if 2 * p > cut {
        assert(2 * (p * u) > cut * u) by (nonlinear_arith)
            requires
                u > 0,
                2 * p > cut,
        ;
    } else {
        assert(2 * (p * u) == cut * u) by (nonlinear_arith)
            requires
                2 * p == cut,
        ;
    }
    assert(code % 2 == m % 2);
}

/// The value is past the largest finite number.
proof fn lemma_round_overflow(num: int, den: int, p: int, t: int, inexact: bool, n: int)
    requires
        den > 0,
        -400 <= t,
        n >= 1,
        n + t - 24 > 253,
        pow2((n - 1) as nat) <= p,
        approximated_by(num, den, p, t, inexact),
    ensures
        rounds_to(num, den, INFINITE as int),
{
    let u = den * pow2((t + 400) as nat);
    lemma_pow2_pos((t + 400) as nat);
    let base = pow2((t + 400) as nat) as int;
    assert(u > 0) by (nonlinear_arith)
        requires
            den > 0,
            base > 0,
            u == den * base,
    ;
    assert((p + 1) * u == p * u + u) by (nonlinear_arith);
    let lead = pow2((n - 1) as nat) as int;
    assert(lead * u <= p * u) by (nonlinear_arith)
        requires
            u > 0,
            lead <= p,
    ;
    lemma_pow2_adds((n - 1) as nat, (t + 400) as nat);
    let e = (n - 1 + t + 400) as nat;
    assert(e == (n - 1) as nat + (t + 400) as nat);
    assert(lead * (den * base) == den * (lead * base)) by (nonlinear_arith);
    assert(lead * u == den * pow2(e));
    let top = pow2((277 + 400) as nat) as int;
    if e > 677 {
        lemma_pow2_strictly_increases(677, e);
    }
    assert(den * top <= den * pow2(e)) by (nonlinear_arith)
        requires
            den > 0,
            top <= pow2(e),
    ;
    assert(1 * (den * pow2((277 + 400) as nat)) <= num * pow2(400));
    lemma_at_scale(num, den, 1, 277);
    lemma_magnitude_of_parts(0x100_0000, 253);
    lemma_pow2_adds(24, 253);
    lemma2_to64();
    assert(magnitude(INFINITE as int) == pow2(277));
    lemma_magnitude_next(INFINITE - 1);
    let low = magnitude(INFINITE - 1);
    let high = magnitude(INFINITE as int);
    assert(den * (low + high) < 2 * (den * high)) by (nonlinear_arith)
        requires
            den > 0,
            low < high,
    ;
    assert(1 * pow2(277) == pow2(277));
}

/// A short significand is shifted left into place.
proof fn lemma_exact_significand(p: int, n: int, t: int, k: int)
    requires
        n >= 1,
        pow2((n - 1) as nat) <= p < pow2(n as nat),
        0 <= k <= t,
        k >= n + t - 24,
        k == 0 || k == n + t - 24,
    ensures
        0 <= p * pow2((t - k) as nat) < 0x100_0000,
        k == 0 || p * pow2((t - k) as nat) >= 0x80_0000,
{
    let d = pow2((t - k) as nat) as int;
    let lead = pow2((n - 1) as nat) as int;
    let next = pow2(n as nat) as int;
    lemma2_to64();
    lemma_pow2_pos((t - k) as nat);
    lemma_pow2_adds(n as nat, (t - k) as nat);
    lemma_pow2_adds((n - 1) as nat, (t - k) as nat);
    assert(0 <= lead * d <= p * d < next * d) by (nonlinear_arith)
        requires
            0 <= lead <= p < next,
            d > 0,
    ;
    let e = n as nat + (t - k) as nat;
    if e < 24 {
        lemma_pow2_strictly_increases(e, 24);
    }
}

/// A long significand is cut to 24 bits, or to fewer at the smallest exponent.
proof fn lemma_cut_significand(p: int, n: int, t: int, k: int, m: int, d: int)
    requires
        n >= 1,
        pow2((n - 1) as nat) <= p < pow2(n as nat),
        0 <= k,
        t < k,
        k >= n + t - 24,
        k == 0 || k == n + t - 24,
        d == pow2((k - t) as nat),
        0 <= m,
        m * d <= p < (m + 1) * d,
    ensures
        0 <= m < 0x100_0000,
        k == 0 || m >= 0x80_0000,
{
    let r = k - t;
    lemma2_to64();
    lemma_pow2_pos(r as nat);
    if m >= 0x100_0000 {
        lemma_pow2_adds(24, r as nat);
        assert(0x100_0000 * d <= m * d) by (nonlinear_arith)
            requires
                m >= 0x100_0000,
                d > 0,
        ;
        let e = 24 + r as nat;
        if e > n as nat {
            lemma_pow2_strictly_increases(n as nat, e);
        }
    }
    if k > 0 && m < 0x80_0000 {
        lemma_pow2_adds(23, r as nat);
        assert((m + 1) * d <= 0x80_0000 * d) by (nonlinear_arith)
            requires
                m + 1 <= 0x80_0000,
                d > 0,
        ;
        assert((n - 1) as nat == 23 + r as nat);
    }
}

/// Two to the power `e`.
pub fn power_of_two(e: u32) -> (r: u128)
    requires
        e <= 127,
    ensures
        r == pow2(e as nat),
{
    proof {
        lemma2_to64();
        lemma_pow2_top();
    }
    let mut r: u128 = 1;
    let mut i: u32 = 0;
    while i < e
        invariant
            i <= e <= 127,
            r == pow2(i as nat),
            pow2(127) == 0x8000_0000_0000_0000_0000_0000_0000_0000,
        decreases e - i,
    {
        proof {
            lemma_pow2_unfold((i + 1) as nat);
            if i + 1 < 127 {
                lemma_pow2_strictly_increases((i + 1) as nat, 127);
            }
        }
        r = r * 2;
        i = i + 1;
    }
    r
}

proof fn lemma_pow2_top()
    ensures
        pow2(127) == 0x8000_0000_0000_0000_0000_0000_0000_0000,
{
    lemma2_to64_rest();
    lemma_pow2_adds(63, 64);
}

/// The number of binary digits of `p`.
fn bit_length(p: u128) -> (n: u32)
    ensures
        p == 0 ==> n == 0,
        p > 0 ==> n > 0 && pow2((n - 1) as nat) <= p,
        p < pow2(n as nat),
        n <= 128,
{
    proof {
        lemma2_to64();
        lemma_pow2_top();
        lemma_pow2_unfold(128);
    }
    let mut x: u128 = p;
    let mut n: u32 = 0;
    while x > 0
        invariant
            n <= 128,
            x * pow2(n as nat) <= p < (x + 1) * pow2(n as nat),
            n > 0 ==> pow2((n - 1) as nat) <= p,
            x > 0 ==> p > 0,
            p > 0 && n == 0 ==> x > 0,
            p == 0 ==> n == 0,
            pow2(128) == 0x1_0000_0000_0000_0000_0000_0000_0000_0000,
        decreases x,
    {
        proof {
            let unit = pow2(n as nat) as int;
            lemma_pow2_pos(n as nat);
            assert(unit <= p) by (nonlinear_arith)
                requires
                    x > 0,
                    x * unit <= p,
                    unit > 0,
            ;
            if n >= 128 {
                if n > 128 {
                    lemma_pow2_strictly_increases(128, n as nat);
                }
            }
            lemma_pow2_unfold((n + 1) as nat);
            let half = (x / 2) as int;
            assert(half * (2 * unit) <= x * unit) by (nonlinear_arith)
                requires
                    2 * half <= x,
                    unit > 0,
            ;
            assert((x + 1) * unit <= (half + 1) * (2 * unit)) by (nonlinear_arith)
                requires
                    x + 1 <= 2 * (half + 1),
                    unit > 0,
            ;
        }
        x = x / 2;
        n = n + 1;
    }
    assert((x + 1) * pow2(n as nat) == pow2(n as nat)) by (nonlinear_arith)
        requires
            x == 0,
    ;
    n
}

/// The code nearest to `p` times two to the power `t`, or, where `inexact`, to
/// a number between that and the next multiple. The fraction so described is
/// `num / den`.
pub fn round_scaled(p: u128, t: i32, inexact: bool, Ghost(num): Ghost<int>, Ghost(den): Ghost<int>) -> (code:
    u32)
    requires
        den > 0,
        p < 0x8000_0000_0000_0000_0000_0000_0000_0000,
        inexact ==> p >= 0x200_0000,
        -400 <= t <= 400,
        approximated_by(num, den, p as int, t as int, inexact),
    ensures
        rounds_to(num, den, code as int),
        code == nearest(num, den),
        code <= INFINITE,
{
    let n: u32 = bit_length(p);
    proof {
        lemma2_to64();
        lemma_pow2_top();
        lemma_pow2_pos(n as nat);
        if n < 25 && p >= 0x200_0000 {
            if n < 25 {
                lemma_pow2_strictly_increases(n as nat, 25);
            }
        }
        if n > 127 {
            if n > 128 {
                lemma_pow2_strictly_increases(127, (n - 1) as nat);
            }
        }
    }
    if p == 0 {
        proof {
            let unit = den * pow2((t + 400) as nat);
            let zero = p as int;
            assert(zero * unit == 0) by (nonlinear_arith)
                requires
                    zero == 0,
            ;
            assert(0 * (den * pow2(400)) == 0);
            assert(approximated_by(num, den, 0, 0, false));
            lemma_round_exact(num, den, 0, 0, 0, 0);
            lemma_nearest_is(num, den, 0);
        }
        return 0;
    }
    let top: i32 = n as i32 + t - 24;
    let k: i32 = if top > 0 {
        top
    } else {
        0
    };
    if k > 253 {
        proof {
            lemma_round_overflow(num, den, p as int, t as int, inexact, n as int);
            lemma_nearest_is(num, den, INFINITE as int);
        }
        return INFINITE;
    }
    if k <= t {
        let d: u128 = power_of_two((t - k) as u32);
        proof {
            lemma_exact_significand(p as int, n as int, t as int, k as int);
        }
        let m: u128 = p * d;
        let code: u32 = k as u32 * FRACTION + m as u32;
        proof {
            lemma_round_exact(num, den, p as int, t as int, k as int, m as int);
            lemma_nearest_is(num, den, code as int);
        }
        return code;
    }
    let r: u32 = (k - t) as u32;
    if r > 127 {
        proof {
            let d = pow2(r as nat) as int;
            if r > 128 {
                lemma_pow2_strictly_increases(128, r as nat);
            }
            lemma_pow2_unfold(128);
            assert((k - t) as nat == r as nat);
            assert(0 * d == 0 && 1 * d == d);
            assert(k == 0);
            lemma_round_cut(num, den, p as int, t as int, inexact, 0, 0, d);
            lemma_nearest_is(num, den, 0);
        }
        return 0;
    }
    let d: u128 = power_of_two(r);
    proof {
        lemma_pow2_pos(r as nat);
    }
    let m: u128 = p / d;
    let rest: u128 = p % d;
    let half: u128 = d / 2;
    proof {
        assert(d == 2 * half) by {
            lemma_pow2_unfold(r as nat);
        }
        assert(p == m * d + rest && 0 <= rest < d) by {
            lemma_fundamental_div_mod(p as int, d as int);
            assert(d * m == m * d) by (nonlinear_arith);
        }
        assert((m + 1) * d == m * d + d) by (nonlinear_arith);
        assert((2 * m + 1) * d == 2 * (m * d) + d) by (nonlinear_arith);
        lemma_cut_significand(p as int, n as int, t as int, k as int, m as int, d as int);
        assert((k - t) as nat == r as nat);
        lemma_round_cut(num, den, p as int, t as int, inexact, k as int, m as int, d as int);
    }
    let base: u32 = k as u32 * FRACTION + m as u32;
    let code: u32 = if rest > half || (rest == half && (inexact || m % 2 != 0)) {
        base + 1
    } else {
        base
    };
    proof {
        lemma_nearest_is(num, den, code as int);
    }
    code
}

} // verus!
