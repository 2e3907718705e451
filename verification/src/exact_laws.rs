//! What the arithmetic is, in terms of exact numbers.
use crate::binary32::{
    at_most, difference, encoded, from_whole, less, opposite, product, quotient, sum, whole,
    Binary32,
};
use crate::bounds::zero;
use crate::placement_laws::{exact, share};
use crate::rounding::{lemma_magnitude_increases, lemma_nearest_rounds, magnitude, nearest};
use vstd::arithmetic::power2::{lemma_pow2_pos, pow2};
use vstd::prelude::*;

verus! {

/// One, in the units of exact values.
pub open spec fn unit() -> real {
    pow2(149) as int as real
}

/// How far apart two exact numbers are.
pub open spec fn apart(x: real, y: real) -> real {
    if x <= y {
        y - x
    } else {
        x - y
    }
}

/// Whether no number is closer to the exact one.
pub open spec fn rounds(r: Binary32, x: real) -> bool {
    &&& !r.is_nan()
    &&& forall|c: Binary32| !c.is_nan() ==> apart(exact(r), x) <= #[trigger] apart(exact(c), x)
}

/// Whether a finite number has the exact value.
pub open spec fn representable(x: real) -> bool {
    exists|c: Binary32| c.is_finite() && #[trigger] exact(c) == x
}

/// What is rounded to an exact value that a number has is that number.
pub proof fn representable_is_kept(r: Binary32, x: real)
    requires
        rounds(r, x),
        representable(x),
    ensures
        exact(r) == x,
        r.is_finite(),
{
    let c = choose|c: Binary32| c.is_finite() && #[trigger] exact(c) == x;
    assert(apart(exact(r), x) <= apart(exact(c), x));
    lemma_magnitude_increases(0, c.code());
    lemma_magnitude_increases(0, r.code());
    if r.code() > c.code() {
        lemma_magnitude_increases(c.code(), r.code());
    }
    assert(r.value() == c.value());
}

/// Rounding keeps the order of exact numbers.
pub proof fn rounding_keeps_order(a: Binary32, x: real, b: Binary32, y: real)
    requires
        rounds(a, x),
        rounds(b, y),
        x < y,
    ensures
        at_most(a, b),
{
    assert(apart(exact(a), x) <= apart(exact(b), x));
    assert(apart(exact(b), y) <= apart(exact(a), y));
}

/// The nearest code is no further from a fraction than the value of any number.
proof fn lemma_nearest_is_closest(num: int, den: int, c: Binary32)
    requires
        num >= 0,
        den > 0,
        !c.is_nan(),
    ensures
        ({
            let m = magnitude(nearest(num, den)) * den - num;
            let v = c.value() * den - num;
            (if m < 0 { -m } else { m }) <= (if v < 0 { -v } else { v })
        }),
{
    lemma_nearest_rounds(num, den);
    let n = nearest(num, den);
    lemma_magnitude_increases(0, n);
    lemma_magnitude_increases(0, c.code());
    let m = magnitude(n);
    let v = c.value();
    if v > m {
        // The next code, at least.
        assert(!c.negative() && c.code() > n) by {
            if c.code() <= n {
                lemma_magnitude_increases(c.code(), n);
            }
        }
        lemma_magnitude_increases(n + 1, c.code());
        let next = magnitude(n + 1);
        assert(2 * num <= den * (m + next));
        assert(v * den - num >= num - m * den) by (nonlinear_arith)
            requires
                2 * num <= den * (m + next),
                next <= v,
                den > 0,
        ;
        assert(v * den >= m * den) by (nonlinear_arith)
            requires
                v >= m,
                den > 0,
        ;
    } else if v < m {
        if n > 0 {
            let before = magnitude(n - 1);
            lemma_magnitude_increases(0, n - 1);
            assert(v <= before) by {
                if !c.negative() {
                    if c.code() >= n {
                        lemma_magnitude_increases(n, c.code());
                    }
                    lemma_magnitude_increases(c.code(), n - 1);
                }
            }
            assert(2 * num >= den * (before + m));
            assert(num - v * den >= m * den - num) by (nonlinear_arith)
                requires
                    2 * num >= den * (before + m),
                    v <= before,
                    den > 0,
            ;
        }
        assert(v * den <= m * den) by (nonlinear_arith)
            requires
                v <= m,
                den > 0,
        ;
        if n == 0 {
            assert(magnitude(0) == 0);
            assert(m * den == 0) by (nonlinear_arith)
                requires
                    m == 0,
            ;
        }
    }
}

/// A fraction with a sign, rounded.
proof fn lemma_rounded_is_closest(negative: bool, num: int, den: int, x: real)
    requires
        num >= 0,
        den > 0,
        x == (if negative { -(num as real / den as real) } else { num as real / den as real }),
    ensures
        rounds(encoded(negative, nearest(num, den)), x),
{
    lemma_nearest_rounds(num, den);
    let n = nearest(num, den);
    let r = encoded(negative, n);
    assert(r.code() == n && r.negative() == negative);
    let m = magnitude(n);
    let (big, low) = (num as real, den as real);
    assert forall|c: Binary32| !c.is_nan() implies apart(exact(r), x) <= #[trigger] apart(
        exact(c),
        x,
    ) by {
        let d = if negative { encoded(!c.negative(), c.code()) } else { c };
        assert(d.code() == c.code());
        assert(d.value() == if negative { -c.value() } else { c.value() });
        lemma_nearest_is_closest(num, den, d);
        let (p, q) = (m * den - num, d.value() * den - num);
        let (rm, rv) = (m as real, d.value() as real);
        assert(p as real == rm * low - big && q as real == rv * low - big) by (nonlinear_arith)
            requires
                p == m * den - num,
                q == d.value() * den - num,
                rm == m as real,
                rv == d.value() as real,
                low == den as real,
                big == num as real,
        ;
        lemma_scaled_distance(rm, rv, big, low);
    }
}

/// Distances keep their order when both are scaled.
proof fn lemma_scaled_distance(m: real, v: real, num: real, den: real)
    requires
        den > 0 as real,
        apart(m * den, num) <= apart(v * den, num),
    ensures
        apart(m, num / den) <= apart(v, num / den),
{
    let x = num / den;
    assert(x * den == num) by (nonlinear_arith)
        requires
            x == num / den,
            den > 0 as real,
    ;
    lemma_distance_scales(m, x, den);
    lemma_distance_scales(v, x, den);
    let (a, b) = (apart(m, x), apart(v, x));
    assert(a <= b) by (nonlinear_arith)
        requires
            a * den <= b * den,
            den > 0 as real,
    ;
}

proof fn lemma_distance_scales(m: real, x: real, den: real)
    requires
        den > 0 as real,
    ensures
        apart(m * den, x * den) == apart(m, x) * den,
{
    if m <= x {
        assert(m * den <= x * den && x * den - m * den == (x - m) * den) by (nonlinear_arith)
            requires
                m <= x,
                den > 0 as real,
        ;
    } else {
        assert(m * den > x * den && m * den - x * den == (m - x) * den) by (nonlinear_arith)
            requires
                m > x,
                den > 0 as real,
        ;
    }
}

/// A sum is the exact one, rounded.
pub proof fn sum_is_rounded(a: Binary32, b: Binary32)
    requires
        a.is_finite(),
        b.is_finite(),
    ensures
        rounds(sum(a, b), exact(a) + exact(b)),
{
    let e = a.value() + b.value();
    let x = exact(a) + exact(b);
    assert(x == e as real);
    if e > 0 {
        assert(e as real / 1int as real == e as real);
        lemma_rounded_is_closest(false, e, 1, x);
    } else if e < 0 {
        assert((-e) as real / 1int as real == (-e) as real);
        lemma_rounded_is_closest(true, -e, 1, x);
    } else {
        let r = sum(a, b);
        assert(r.code() == 0 && magnitude(0) == 0);
    }
}

/// A difference is the exact one, rounded.
pub proof fn difference_is_rounded(a: Binary32, b: Binary32)
    requires
        a.is_finite(),
        b.is_finite(),
    ensures
        rounds(difference(a, b), exact(a) - exact(b)),
{
    let c = opposite(b);
    assert(c.code() == b.code() && c.value() == -b.value());
    sum_is_rounded(a, c);
}

/// A product is the exact one, rounded.
pub proof fn product_is_rounded(a: Binary32, b: Binary32)
    requires
        a.is_finite(),
        b.is_finite(),
    ensures
        rounds(product(a, b), exact(a) * share(b)),
{
    lemma_pow2_pos(149);
    lemma_magnitude_increases(0, a.code());
    lemma_magnitude_increases(0, b.code());
    let negative = a.negative() != b.negative();
    let (m, n) = (a.size(), b.size());
    let den = pow2(149) as int;
    let num = m * n;
    assert(num >= 0) by (nonlinear_arith)
        requires
            num == m * n,
            m >= 0,
            n >= 0,
    ;
    let (rm, rn, u) = (m as real, n as real, unit());
    assert(num as real == rm * rn) by (nonlinear_arith)
        requires
            num == m * n,
            rm == m as real,
            rn == n as real,
    ;
    let x = exact(a) * share(b);
    let (va, vb) = (exact(a), exact(b));
    assert(x == va * (vb / u));
    assert(va == if a.negative() { -rm } else { rm });
    assert(vb == if b.negative() { -rn } else { rn });
    assert(x == if negative { -((rm * rn) / u) } else { (rm * rn) / u }) by (nonlinear_arith)
        requires
            x == va * (vb / u),
            va == (if a.negative() { -rm } else { rm }),
            vb == (if b.negative() { -rn } else { rn }),
            negative == (a.negative() != b.negative()),
            u > 0 as real,
    ;
    lemma_rounded_is_closest(negative, num, den, x);
}

/// A quotient is the exact one, rounded.
pub proof fn quotient_is_rounded(a: Binary32, b: Binary32)
    requires
        a.is_finite(),
        b.is_finite(),
        exact(b) != 0 as real,
    ensures
        rounds(quotient(a, b), exact(a) / exact(b) * unit()),
{
    lemma_pow2_pos(149);
    lemma_magnitude_increases(0, a.code());
    lemma_magnitude_increases(0, b.code());
    assert(magnitude(0) == 0);
    let negative = a.negative() != b.negative();
    let (m, n) = (a.size(), b.size());
    assert(n > 0);
    let s = pow2(149) as int;
    let num = m * s;
    assert(num >= 0) by (nonlinear_arith)
        requires
            num == m * s,
            m >= 0,
            s >= 0,
    ;
    let (rm, rn, u) = (m as real, n as real, unit());
    assert(num as real == rm * u) by (nonlinear_arith)
        requires
            num == m * s,
            rm == m as real,
            u == s as real,
    ;
    let x = exact(a) / exact(b) * unit();
    let (va, vb) = (exact(a), exact(b));
    assert(va == if a.negative() { -rm } else { rm });
    assert(vb == if b.negative() { -rn } else { rn });
    assert(x == if negative { -((rm * u) / rn) } else { (rm * u) / rn }) by (nonlinear_arith)
        requires
            x == va / vb * u,
            va == (if a.negative() { -rm } else { rm }),
            vb == (if b.negative() { -rn } else { rn }),
            negative == (a.negative() != b.negative()),
            rn > 0 as real,
    ;
    lemma_rounded_is_closest(negative, num, n, x);
}

/// What is rounded has the sign of the exact number, where numbers are as fine
/// as the exact one: it is zero only where that is.
pub proof fn difference_has_sign(a: Binary32, b: Binary32)
    requires
        a.is_finite(),
        b.is_finite(),
    ensures
        !difference(a, b).is_nan(),
        at_most(difference(a, b), zero()) <==> exact(a) <= exact(b),
        less(zero(), difference(a, b)) <==> exact(b) < exact(a),
        less(difference(a, b), zero()) <==> exact(a) < exact(b),
{
    difference_is_rounded(a, b);
    let r = difference(a, b);
    let e = a.value() - b.value();
    let x = exact(a) - exact(b);
    assert(x == e as real);
    assert(zero().value() == 0) by {
        assert(magnitude(0) == 0);
    }
    // The smallest positive number is one unit.
    let tiny = encoded(e < 0, 1);
    assert(tiny.code() == 1);
    assert(magnitude(1) == 1);
    assert(apart(exact(r), x) <= apart(exact(tiny), x));
    assert(apart(exact(r), x) <= apart(exact(zero()), x));
}

/// A whole number is rounded to the nearest one.
pub proof fn whole_is_rounded(n: int)
    requires
        n >= 0,
    ensures
        rounds(from_whole(n), n as real * unit()),
{
    lemma_pow2_pos(149);
    let s = pow2(149) as int;
    let num = n * s;
    assert(num >= 0) by (nonlinear_arith)
        requires
            num == n * s,
            n >= 0,
            s >= 0,
    ;
    let (x, u) = (n as real, unit());
    assert(num as real == x * u) by (nonlinear_arith)
        requires
            num == n * s,
            x == n as real,
            u == s as real,
    ;
    assert(num as real / 1int as real == num as real);
    lemma_rounded_is_closest(false, num, 1, x * u);
}

/// Whether a count is the whole part of a number, or a limit below that.
#[verifier::opaque]
pub open spec fn is_whole_part(count: int, number: Binary32, limit: int) -> bool {
    &&& 0 <= count <= limit
    &&& count as real * unit() <= exact(number)
    &&& count < limit ==> exact(number) < (count + 1) as real * unit()
}

/// A number is cut off to its whole part; one that is not positive, to zero.
pub proof fn whole_cuts_off(a: Binary32, limit: int)
    requires
        limit >= 0,
        !a.is_nan(),
    ensures
        exact(a) >= 0 as real ==> is_whole_part(whole(a, limit), a, limit),
        exact(a) < 0 as real ==> whole(a, limit) == 0,
{
    reveal(is_whole_part);
    lemma_pow2_pos(149);
    lemma_magnitude_increases(0, a.code());
    assert(magnitude(0) == 0);
    let s = pow2(149) as int;
    let m = a.size();
    let q = m / s;
    vstd::arithmetic::div_mod::lemma_fundamental_div_mod(m, s);
    let count = whole(a, limit);
    if a.negative() {
        assert(0 as real * unit() == 0 as real);
        assert(1 as real * unit() == unit());
    } else {
        assert(0 <= q) by (nonlinear_arith)
            requires
                q == m / s,
                m >= 0,
                s > 0,
        ;
        let (c, n, u, v) = (count as real, (count + 1) as real, unit(), exact(a));
        assert(count * s <= m && (count < limit ==> m < (count + 1) * s)) by (nonlinear_arith)
            requires
                m == s * q + m % s,
                0 <= m % s < s,
                count == (if q <= limit { q } else { limit }),
                s > 0,
        ;
        let (low, high) = (count * s, (count + 1) * s);
        assert(low as real == c * u && high as real == n * u) by (nonlinear_arith)
            requires
                low == count * s,
                high == (count + 1) * s,
                c == count as real,
                n == (count + 1) as real,
                u == s as real,
        ;
    }
}

} // verus!
