//! Exact rationals and their rounding to binary floating point.
//!
//! A non-negative rational is a pair of naturals, numerator and denominator. Everything here is
//! mathematics: the executable arithmetic that follows it is in [`crate::binary64`].
use vstd::arithmetic::div_mod::*;
use vstd::arithmetic::mul::*;
use vstd::arithmetic::power2::*;
use vstd::prelude::*;

verus! {

/// The quotient `a / b` as the nearest integer; a tie goes to the even one.
pub open spec fn half_even(a: nat, b: nat) -> nat {
    let q = a / b;
    let r = a % b;
    if 2 * r < b || (2 * r == b && q % 2 == 0) {
        q
    } else {
        q + 1
    }
}

/// The numerator of `2^e`.
pub open spec fn up(e: int) -> nat {
    if e >= 0 {
        pow2(e as nat)
    } else {
        1
    }
}

/// The denominator of `2^e`.
pub open spec fn down(e: int) -> nat {
    if e >= 0 {
        1
    } else {
        pow2((-e) as nat)
    }
}

/// The integer part of the base-two logarithm of `n`.
pub open spec fn log2(n: nat) -> nat
    decreases n,
{
    if n < 2 {
        0
    } else {
        1 + log2(n / 2)
    }
}

/// The integer part (rounded down) of the base-two logarithm of `n / d`.
pub open spec fn magnitude(n: nat, d: nat) -> int {
    if n >= d {
        log2(n / d) as int
    } else {
        -1 - log2(((d - 1) as nat) / n)
    }
}

/// The weight of the last place when `n / d` is written with `precision` significant bits, none
/// of them below `2^least`.
pub open spec fn last_place(precision: nat, least: int, n: nat, d: nat) -> int {
    if n > 0 && magnitude(n, d) - (precision - 1) > least {
        magnitude(n, d) - (precision - 1)
    } else {
        least
    }
}

/// The number `m * 2^e` nearest to `n / d` among those with `precision` significant bits and
/// `e >= least`, ties going to the even significand, as the pair `(m, e)`.
pub open spec fn nearest(precision: nat, least: int, n: nat, d: nat) -> (nat, int) {
    let e = last_place(precision, least, n, d);
    let m = half_even(n * down(e), d * up(e));
    if m == pow2(precision) {
        (pow2((precision - 1) as nat), e + 1)
    } else {
        (m, e)
    }
}

pub proof fn lemma_scale_positive(e: int)
    ensures
        up(e) > 0,
        down(e) > 0,
{
    lemma_pow2_pos(e as nat);
    lemma_pow2_pos((-e) as nat);
}

/// `2^(e + s) = 2^e * 2^s`, without fractions.
pub proof fn lemma_scale_shift(e: int, s: nat)
    ensures
        up(e + s) * down(e) == up(e) * down(e + s) * pow2(s),
{
    lemma_pow2_pos(s);
    if e >= 0 {
        lemma_pow2_adds(e as nat, s);
    } else if e + s >= 0 {
        lemma_pow2_adds((e + s) as nat, (-e) as nat);
        assert(pow2(s) == pow2((e + s) as nat) * pow2((-e) as nat));
    } else {
        lemma_pow2_adds((-e - s) as nat, s);
        assert(pow2((-e) as nat) == pow2((-e - s) as nat) * pow2(s));
    }
    assert(up(e + s) * down(e) == up(e) * down(e + s) * pow2(s)) by (nonlinear_arith)
        requires
            (e >= 0 && up(e + s) == up(e) * pow2(s) && down(e) == 1 && down(e + s) == 1) || (e < 0
                && e + s >= 0 && up(e) == 1 && down(e + s) == 1 && pow2(s) == up(e + s) * down(e))
                || (e + s < 0 && up(e) == 1 && up(e + s) == 1 && down(e) == down(e + s) * pow2(s)),
    ;
}

/// `2^(a + b) = 2^a * 2^b`, without fractions.
pub proof fn lemma_scale_adds(a: int, b: int)
    ensures
        up(a + b) * (down(a) * down(b)) == up(a) * up(b) * down(a + b),
{
    if b >= 0 {
        lemma_scale_shift(a, b as nat);
        assert(up(a + b) * (down(a) * down(b)) == up(a) * up(b) * down(a + b)) by (nonlinear_arith)
            requires
                up(a + b) * down(a) == up(a) * down(a + b) * up(b),
                down(b) == 1,
        ;
    } else {
        lemma_scale_shift(a + b, (-b) as nat);
        assert(a + b + (-b) == a);
        assert(up(a + b) * (down(a) * down(b)) == up(a) * up(b) * down(a + b)) by (nonlinear_arith)
            requires
                up(a) * down(a + b) == up(a + b) * down(a) * down(b),
                up(b) == 1,
        ;
    }
}

/// Rounding to an integer depends on the ratio alone.
pub proof fn lemma_half_even_ratio(a: nat, b: nat, c: nat, d: nat)
    requires
        b > 0,
        d > 0,
        a * d == c * b,
    ensures
        half_even(a, b) == half_even(c, d),
{
    let q = a / b;
    let r = a % b;
    lemma_fundamental_div_mod(a as int, b as int);
    lemma_mod_bound(a as int, b as int);
    let s = c - d * q;
    assert(b * s == r * d) by (nonlinear_arith)
        requires
            a == b * q + r,
            a * d == c * b,
            s == c - d * q,
    ;
    assert(0 <= s < d) by (nonlinear_arith)
        requires
            b * s == r * d,
            0 <= r < b,
            0 < d,
    ;
    assert(c == q * d + s) by (nonlinear_arith)
        requires
            s == c - d * q,
    ;
    lemma_fundamental_div_mod_converse(c as int, d as int, q as int, s);
    assert((2 * r < b) == (2 * s < d)) by (nonlinear_arith)
        requires
            b * s == r * d,
            b > 0,
            d > 0,
    ;
    assert((2 * r == b) == (2 * s == d)) by (nonlinear_arith)
        requires
            b * s == r * d,
            b > 0,
            d > 0,
    ;
}

pub proof fn lemma_log2_bounds(n: nat)
    requires
        n > 0,
    ensures
        pow2(log2(n)) <= n < pow2(log2(n) + 1),
    decreases n,
{
    lemma2_to64();
    if n >= 2 {
        lemma_log2_bounds(n / 2);
        lemma_pow2_unfold(log2(n));
        lemma_pow2_unfold(log2(n) + 1);
    }
}

/// `2^t <= n / d < 2^(t + 1)`.
pub open spec fn has_magnitude(n: nat, d: nat, t: int) -> bool {
    &&& d * up(t) <= n * down(t)
    &&& n * down(t + 1) < d * up(t + 1)
}

pub proof fn lemma_magnitude(n: nat, d: nat)
    requires
        n > 0,
        d > 0,
    ensures
        has_magnitude(n, d, magnitude(n, d)),
{
    lemma2_to64();
    if n >= d {
        let k = n / d;
        lemma_fundamental_div_mod(n as int, d as int);
        lemma_mod_bound(n as int, d as int);
        lemma_div_non_zero(n as int, d as int);
        lemma_log2_bounds(k);
        let t = log2(k);
        assert(d * pow2(t) <= n) by (nonlinear_arith)
            requires
                n == d * k + n % d,
                n % d >= 0,
                pow2(t) <= k,
        ;
        assert(d * (k + 1) <= d * pow2(t + 1)) by (nonlinear_arith)
            requires
                k + 1 <= pow2(t + 1),
        ;
        assert(d * (k + 1) == d * k + d) by (nonlinear_arith);
    } else {
        let k = ((d - 1) as nat) / n;
        lemma_fundamental_div_mod(d - 1, n as int);
        lemma_mod_bound(d - 1, n as int);
        lemma_div_non_zero(d - 1, n as int);
        lemma_log2_bounds(k);
        let t = log2(k);
        assert(d <= n * pow2(t + 1)) by (nonlinear_arith)
            requires
                d - 1 == n * k + (d - 1) % (n as int),
                (d - 1) % (n as int) < n,
                k + 1 <= pow2(t + 1),
        ;
        assert(n * pow2(t) < d) by (nonlinear_arith)
            requires
                d - 1 == n * k + (d - 1) % (n as int),
                (d - 1) % (n as int) >= 0,
                pow2(t) <= k,
        ;
        let m = magnitude(n, d);
        assert(m == -1 - t);
        if t == 0 {
            assert(up(m + 1) == 1 && down(m + 1) == 1);
        }
    }
}

/// Comparing a rational with two powers of two.
pub proof fn lemma_scale_order(n: nat, d: nat, s: int, t: int)
    requires
        d > 0,
        d * up(s) <= n * down(s),
        n * down(t) < d * up(t),
    ensures
        s < t,
{
    if s >= t {
        lemma_scale_positive(s);
        lemma_scale_positive(t);
        let k = (s - t) as nat;
        lemma_scale_shift(t, k);
        lemma_pow2_pos(k);
        assert(up(s) * down(t) >= up(t) * down(s)) by (nonlinear_arith)
            requires
                up(s) * down(t) == up(t) * down(s) * pow2(k),
                pow2(k) >= 1,
        ;
        assert(d * up(s) * down(t) <= n * down(s) * down(t)) by (nonlinear_arith)
            requires
                d * up(s) <= n * down(s),
        ;
        assert(n * down(t) * down(s) < d * up(t) * down(s)) by (nonlinear_arith)
            requires
                n * down(t) < d * up(t),
                down(s) > 0,
        ;
        assert(d * up(s) * down(t) >= d * up(t) * down(s)) by (nonlinear_arith)
            requires
                up(s) * down(t) >= up(t) * down(s),
        ;
        assert(n * down(s) * down(t) == n * down(t) * down(s)) by (nonlinear_arith);
    }
}

pub proof fn lemma_magnitude_unique(n: nat, d: nat, t: int)
    requires
        n > 0,
        d > 0,
        has_magnitude(n, d, t),
    ensures
        magnitude(n, d) == t,
{
    let m = magnitude(n, d);
    lemma_magnitude(n, d);
    lemma_scale_order(n, d, t, m + 1);
    lemma_scale_order(n, d, m, t + 1);
}

/// Moving the unit from `2^e` to `2^(e + s)` divides the scaled ratio by `2^s`.
pub proof fn lemma_rescale(n: nat, d: nat, e: int, s: nat)
    ensures
        (n * down(e + s)) * (d * up(e) * pow2(s)) == (n * down(e)) * (d * up(e + s)),
{
    lemma_scale_shift(e, s);
    assert((n * down(e + s)) * (d * up(e) * pow2(s)) == (n * down(e)) * (d * up(e + s)))
        by (nonlinear_arith)
        requires
            up(e + s) * down(e) == up(e) * down(e + s) * pow2(s),
    ;
}

/// Two ratios `a / b` and `c / d` that are equal compare alike with 1.
proof fn lemma_ratio_with_one(a: nat, b: nat, c: nat, d: nat)
    requires
        b > 0,
        d > 0,
        a * d == c * b,
    ensures
        a < b <==> c < d,
        a == b <==> c == d,
{
    assert((a < b) == (c < d) && (a == b) == (c == d)) by (nonlinear_arith)
        requires
            b > 0,
            d > 0,
            a * d == c * b,
    ;
}

/// The magnitude of `n / d`, when its integer part in units of `2^e` is `q`.
pub proof fn lemma_magnitude_of_quotient(n: nat, d: nat, q: nat, e: int)
    requires
        d > 0,
        q > 0,
        q * (d * up(e)) <= n * down(e) < (q + 1) * (d * up(e)),
    ensures
        n > 0,
        magnitude(n, d) == log2(q) + e,
{
    let t = log2(q);
    let a = n * down(e);
    let b = d * up(e);
    lemma_log2_bounds(q);
    lemma_scale_positive(e);
    lemma_scale_positive(e + t);
    lemma_scale_positive(e + t + 1);
    lemma_pow2_pos(t);
    lemma_pow2_pos(t + 1);
    assert(b > 0) by (nonlinear_arith)
        requires
            b == d * up(e),
            d > 0,
            up(e) > 0,
    ;
    assert(n > 0) by (nonlinear_arith)
        requires
            q * b <= n * down(e),
            q > 0,
            b > 0,
    ;
    assert(b * pow2(t) <= a && a < b * pow2(t + 1) && b * pow2(t) > 0 && b * pow2(t + 1) > 0)
        by (nonlinear_arith)
        requires
            q * b <= a < (q + 1) * b,
            pow2(t) <= q,
            q + 1 <= pow2(t + 1),
            pow2(t) > 0,
            b > 0,
    ;
    lemma_rescale(n, d, e, t);
    lemma_rescale(n, d, e, t + 1);
    assert(d * up(e + t) > 0 && d * up(e + t + 1) > 0) by (nonlinear_arith)
        requires
            d > 0,
            up(e + t) > 0,
            up(e + t + 1) > 0,
    ;
    lemma_ratio_with_one(n * down(e + t), d * up(e + t), a, b * pow2(t));
    assert(e + t + 1 == e + (t + 1));
    lemma_ratio_with_one(n * down(e + t + 1), d * up(e + t + 1), a, b * pow2(t + 1));
    lemma_magnitude_unique(n, d, e + t);
}

/// What [`nearest`] finds for `n / d` whose integer part in units of `2^e` is `q`, when the last
/// place is `s` bits above that unit.
pub proof fn lemma_nearest_of_quotient(
    precision: nat,
    least: int,
    n: nat,
    d: nat,
    q: nat,
    e: int,
    s: nat,
)
    requires
        d > 0,
        q > 0,
        q * (d * up(e)) <= n * down(e) < (q + 1) * (d * up(e)),
        s >= 1,
        s >= log2(q) + 1 - precision,
        e + s >= least,
        s == log2(q) + 1 - precision || e + s == least,
    ensures
        n > 0,
        last_place(precision, least, n, d) == e + s,
        half_even(n * down(e + s), d * up(e + s)) == {
            let exact = q * (d * up(e)) == n * down(e);
            let kept = q / pow2(s);
            let cut = q % pow2(s);
            let half = pow2((s - 1) as nat);
            if cut < half || (cut == half && exact && kept % 2 == 0) {
                kept
            } else {
                kept + 1
            }
        },
{
    lemma_magnitude_of_quotient(n, d, q, e);
    let a = n * down(e);
    let b = d * up(e);
    let w = pow2(s);
    let half = pow2((s - 1) as nat);
    lemma_pow2_unfold(s);
    lemma_pow2_pos((s - 1) as nat);
    lemma_scale_positive(e);
    lemma_scale_positive(e + s);
    let kept = q / w;
    let cut = q % w;
    lemma_fundamental_div_mod(q as int, w as int);
    lemma_mod_bound(q as int, w as int);
    assert(b > 0) by (nonlinear_arith)
        requires
            b == d * up(e),
            d > 0,
            up(e) > 0,
    ;
    assert(b * w > 0 && d * up(e + s) > 0) by (nonlinear_arith)
        requires
            b > 0,
            w > 0,
            d > 0,
            up(e + s) > 0,
    ;
    lemma_rescale(n, d, e, s);
    lemma_half_even_ratio(n * down(e + s), d * up(e + s), a, b * w);
    let r = a - q * b;
    let rest = cut * b + r;
    assert(0 <= r < b) by (nonlinear_arith)
        requires
            r == a - q * b,
            q * b <= a < (q + 1) * b,
    ;
    assert(a == kept * (b * w) + rest) by (nonlinear_arith)
        requires
            r == a - q * b,
            rest == cut * b + r,
            q == w * kept + cut,
    ;
    assert(0 <= rest < b * w) by (nonlinear_arith)
        requires
            rest == cut * b + r,
            0 <= r < b,
            0 <= cut < w,
    ;
    lemma_fundamental_div_mod_converse(a as int, (b * w) as int, kept as int, rest);
    if cut < half {
        assert(2 * rest < b * w) by (nonlinear_arith)
            requires
                rest == cut * b + r,
                r < b,
                cut + 1 <= half,
                w == 2 * half,
        ;
    } else if cut > half {
        assert(2 * rest > b * w) by (nonlinear_arith)
            requires
                rest == cut * b + r,
                r >= 0,
                b > 0,
                cut >= half + 1,
                w == 2 * half,
        ;
    } else {
        assert(2 * rest == b * w + 2 * r) by (nonlinear_arith)
            requires
                rest == cut * b + r,
                cut == half,
                w == 2 * half,
        ;
    }
}

/// Rounding depends on the ratio alone.
pub proof fn lemma_nearest_ratio(precision: nat, least: int, n: nat, d: nat, n2: nat, d2: nat)
    requires
        d > 0,
        d2 > 0,
        n * d2 == n2 * d,
    ensures
        nearest(precision, least, n, d) == nearest(precision, least, n2, d2),
{
    assert(n > 0 <==> n2 > 0) by (nonlinear_arith)
        requires
            d > 0,
            d2 > 0,
            n * d2 == n2 * d,
    ;
    if n > 0 {
        let t = magnitude(n, d);
        lemma_magnitude(n, d);
        lemma_scale_ratio(n, d, n2, d2, t);
        lemma_scale_ratio(n, d, n2, d2, t + 1);
        lemma_ratio_with_one(n * down(t), d * up(t), n2 * down(t), d2 * up(t));
        lemma_ratio_with_one(n * down(t + 1), d * up(t + 1), n2 * down(t + 1), d2 * up(t + 1));
        lemma_magnitude_unique(n2, d2, t);
    }
    let e = last_place(precision, least, n, d);
    lemma_scale_ratio(n, d, n2, d2, e);
    lemma_half_even_ratio(n * down(e), d * up(e), n2 * down(e), d2 * up(e));
}

proof fn lemma_scale_ratio(n: nat, d: nat, n2: nat, d2: nat, e: int)
    requires
        d > 0,
        d2 > 0,
        n * d2 == n2 * d,
    ensures
        (n * down(e)) * (d2 * up(e)) == (n2 * down(e)) * (d * up(e)),
        d * up(e) > 0,
        d2 * up(e) > 0,
{
    lemma_scale_positive(e);
    assert((n * down(e)) * (d2 * up(e)) == (n2 * down(e)) * (d * up(e))) by (nonlinear_arith)
        requires
            n * d2 == n2 * d,
    ;
    assert(d * up(e) > 0 && d2 * up(e) > 0) by (nonlinear_arith)
        requires
            d > 0,
            d2 > 0,
            up(e) > 0,
    ;
}

/// How far rounding to an integer can move a ratio: half a unit, and by exactly that only to an
/// even integer.
pub proof fn lemma_half_even_error(a: nat, b: nat)
    requires
        b > 0,
    ensures
        (2 * half_even(a, b) - 1) * b <= 2 * a <= (2 * half_even(a, b) + 1) * b,
        (2 * half_even(a, b) - 1) * b == 2 * a ==> half_even(a, b) % 2 == 0,
        (2 * half_even(a, b) + 1) * b == 2 * a ==> half_even(a, b) % 2 == 0,
{
    let q = a / b;
    let r = a % b;
    let h = half_even(a, b);
    lemma_fundamental_div_mod(a as int, b as int);
    lemma_mod_bound(a as int, b as int);
    assert(h == q || h == q + 1);
    assert((2 * q + 1) * b == 2 * (b * q) + b && (2 * (q + 1) - 1) * b == 2 * (b * q) + b && (2 * (q
        + 1) + 1) * b == 2 * (b * q) + 3 * b && (2 * q - 1) * b == 2 * (b * q) - b)
        by (nonlinear_arith);
}

/// Rounding to an integer keeps order.
pub proof fn lemma_half_even_monotone(a: nat, b: nat, c: nat, d: nat)
    requires
        b > 0,
        d > 0,
        a * d <= c * b,
    ensures
        half_even(a, b) <= half_even(c, d),
{
    let x = half_even(a, b) as int;
    let y = half_even(c, d) as int;
    lemma_half_even_error(a, b);
    lemma_half_even_error(c, d);
    if x > y {
        assert((2 * x - 1) * b * d <= 2 * a * d) by (nonlinear_arith)
            requires
                (2 * x - 1) * b <= 2 * a,
                d > 0,
        ;
        assert(2 * c * b <= (2 * y + 1) * d * b) by (nonlinear_arith)
            requires
                2 * c <= (2 * y + 1) * d,
                b > 0,
        ;
        assert(2 * a * d <= 2 * c * b) by (nonlinear_arith)
            requires
                a * d <= c * b,
        ;
        assert((2 * x - 1) <= 2 * y + 1) by (nonlinear_arith)
            requires
                (2 * x - 1) * b * d <= (2 * y + 1) * d * b,
                b > 0,
                d > 0,
        ;
        assert(x == y + 1);
        assert(2 * x - 1 == 2 * y + 1);
        assert((2 * x - 1) * b == 2 * a && (2 * y + 1) * d == 2 * c) by (nonlinear_arith)
            requires
                (2 * x - 1) * b <= 2 * a,
                2 * c <= (2 * y + 1) * d,
                2 * a * d <= 2 * c * b,
                2 * x - 1 == 2 * y + 1,
                b > 0,
                d > 0,
        ;
    }
}

/// Rounding to an integer does not cross an integer.
pub proof fn lemma_half_even_bounds(a: nat, b: nat, k: nat)
    requires
        b > 0,
    ensures
        a <= k * b ==> half_even(a, b) <= k,
        a >= k * b ==> half_even(a, b) >= k,
{
    assert(half_even(k, 1) == k);
    if a <= k * b {
        assert(a * 1 <= k * b);
        lemma_half_even_monotone(a, b, k, 1);
    }
    if a >= k * b {
        assert(k * b <= a * 1);
        lemma_half_even_monotone(k, 1, a, b);
    }
}

/// The significand before a carry is taken out of it.
pub open spec fn significand(precision: nat, least: int, n: nat, d: nat) -> nat {
    let e = last_place(precision, least, n, d);
    half_even(n * down(e), d * up(e))
}

/// The significand fits the precision, up to a carry, and fills it above the least exponent.
pub proof fn lemma_significand(precision: nat, least: int, n: nat, d: nat)
    requires
        d > 0,
        precision > 0,
    ensures
        significand(precision, least, n, d) <= pow2(precision),
        last_place(precision, least, n, d) > least ==> significand(precision, least, n, d) >= pow2(
            (precision - 1) as nat,
        ),
        n == 0 ==> significand(precision, least, n, d) == 0,
{
    let e = last_place(precision, least, n, d);
    let a = n * down(e);
    let b = d * up(e);
    lemma_scale_positive(e);
    lemma_pow2_pos(precision);
    assert(b > 0) by (nonlinear_arith)
        requires
            b == d * up(e),
            d > 0,
            up(e) > 0,
    ;
    if n == 0 {
        assert(a == 0);
        lemma_half_even_bounds(a, b, 0);
    } else {
        let t = magnitude(n, d);
        lemma_magnitude(n, d);
        lemma_scale_positive(t);
        lemma_scale_positive(t + 1);
        // n / d < 2^(t + 1) <= 2^(e + precision)
        let k = (e + precision - (t + 1)) as nat;
        lemma_scale_positive(e + precision);
        lemma_pow2_pos(k);
        lemma_rescale(n, d, t + 1, k);
        assert(t + 1 + k == e + precision);
        assert(n * down(t + 1) < d * up(t + 1) * pow2(k)) by (nonlinear_arith)
            requires
                n * down(t + 1) < d * up(t + 1),
                pow2(k) >= 1,
        ;
        assert(d * up(t + 1) * pow2(k) > 0 && d * up(e + precision) > 0) by (nonlinear_arith)
            requires
                d > 0,
                up(t + 1) > 0,
                pow2(k) > 0,
                up(e + precision) > 0,
        ;
        lemma_ratio_with_one(
            n * down(e + precision),
            d * up(e + precision),
            n * down(t + 1),
            d * up(t + 1) * pow2(k),
        );
        lemma_rescale(n, d, e, precision);
        assert(b * pow2(precision) > 0) by (nonlinear_arith)
            requires
                b > 0,
                pow2(precision) > 0,
        ;
        lemma_ratio_with_one(
            n * down(e + precision),
            d * up(e + precision),
            a,
            b * pow2(precision),
        );
        lemma_mul_is_commutative(b as int, pow2(precision) as int);
        lemma_half_even_bounds(a, b, pow2(precision));
        if e > least {
            let p = (precision - 1) as nat;
            lemma_pow2_pos(p);
            assert(e + p == t);
            lemma_rescale(n, d, e, p);
            assert(b * pow2(p) > 0 && d * up(t) > 0) by (nonlinear_arith)
                requires
                    b > 0,
                    pow2(p) > 0,
                    d > 0,
                    up(t) > 0,
            ;
            lemma_ratio_with_one(n * down(t), d * up(t), a, b * pow2(p));
            lemma_mul_is_commutative(b as int, pow2(p) as int);
            lemma_half_even_bounds(a, b, pow2(p));
        }
    }
}

/// The form of a rounded number: its significand fits the precision, and fills it unless the
/// exponent is the least one.
pub proof fn lemma_nearest_form(precision: nat, least: int, n: nat, d: nat)
    requires
        d > 0,
        precision > 0,
    ensures
        nearest(precision, least, n, d).0 < pow2(precision),
        nearest(precision, least, n, d).1 >= least,
        nearest(precision, least, n, d).1 > least ==> nearest(precision, least, n, d).0 >= pow2(
            (precision - 1) as nat,
        ),
        n == 0 ==> nearest(precision, least, n, d) == (0nat, least),
{
    lemma_significand(precision, least, n, d);
    lemma_pow2_unfold(precision);
    lemma_pow2_pos((precision - 1) as nat);
}

/// `a.0 * 2^a.1 <= b.0 * 2^b.1`.
pub open spec fn dyadic_le(a: (nat, int), b: (nat, int)) -> bool {
    a.0 * up(a.1) * down(b.1) <= b.0 * up(b.1) * down(a.1)
}

/// The carry changes how a rounded number is written, not its value.
pub proof fn lemma_carry(precision: nat, e: int)
    requires
        precision > 0,
    ensures
        pow2((precision - 1) as nat) * up(e + 1) * down(e) == pow2(precision) * up(e) * down(e + 1),
{
    let h = pow2((precision - 1) as nat);
    lemma_pow2_unfold(precision);
    lemma2_to64();
    lemma_scale_shift(e, 1);
    assert(h * up(e + 1) * down(e) == 2 * h * up(e) * down(e + 1)) by (nonlinear_arith)
        requires
            up(e + 1) * down(e) == up(e) * down(e + 1) * 2,
    ;
}

/// Order does not change when one side is written otherwise.
proof fn lemma_dyadic_le_rewrite(a: (nat, int), a2: (nat, int), b: (nat, int), b2: (nat, int))
    requires
        a.0 * up(a.1) * down(a2.1) == a2.0 * up(a2.1) * down(a.1),
        b.0 * up(b.1) * down(b2.1) == b2.0 * up(b2.1) * down(b.1),
        dyadic_le(a, b),
    ensures
        dyadic_le(a2, b2),
{
    let (x, y, x2, y2) = (a.0 * up(a.1), b.0 * up(b.1), a2.0 * up(a2.1), b2.0 * up(b2.1));
    let (p, q, p2, q2) = (down(a.1), down(b.1), down(a2.1), down(b2.1));
    lemma_scale_positive(a.1);
    lemma_scale_positive(b.1);
    lemma_scale_positive(a2.1);
    lemma_scale_positive(b2.1);
    assert(x2 * q2 * (p * q) == x * q * (p2 * q2)) by (nonlinear_arith)
        requires
            x * p2 == x2 * p,
    ;
    assert(y2 * p2 * (p * q) == y * p * (p2 * q2)) by (nonlinear_arith)
        requires
            y * q2 == y2 * q,
    ;
    assert(x * q * (p2 * q2) <= y * p * (p2 * q2)) by (nonlinear_arith)
        requires
            x * q <= y * p,
    ;
    assert(x2 * q2 <= y2 * p2) by (nonlinear_arith)
        requires
            x2 * q2 * (p * q) <= y2 * p2 * (p * q),
            p > 0,
            q > 0,
    ;
}

/// Rounding keeps order.
pub proof fn lemma_nearest_monotone(
    precision: nat,
    least: int,
    n: nat,
    d: nat,
    n2: nat,
    d2: nat,
)
    requires
        d > 0,
        d2 > 0,
        precision > 0,
        n * d2 <= n2 * d,
    ensures
        dyadic_le(nearest(precision, least, n, d), nearest(precision, least, n2, d2)),
{
    let e = last_place(precision, least, n, d);
    let e2 = last_place(precision, least, n2, d2);
    let m = significand(precision, least, n, d);
    let m2 = significand(precision, least, n2, d2);
    lemma_significand(precision, least, n, d);
    lemma_significand(precision, least, n2, d2);
    lemma_scale_positive(e);
    lemma_scale_positive(e2);
    lemma_last_place_monotone(precision, least, n, d, n2, d2);
    if e == e2 {
        assert((n * down(e)) * (d2 * up(e)) <= (n2 * down(e)) * (d * up(e))) by (nonlinear_arith)
            requires
                n * d2 <= n2 * d,
        ;
        assert(d * up(e) > 0 && d2 * up(e) > 0) by (nonlinear_arith)
            requires
                d > 0,
                d2 > 0,
                up(e) > 0,
        ;
        lemma_half_even_monotone(n * down(e), d * up(e), n2 * down(e), d2 * up(e));
        assert(m * up(e) * down(e2) <= m2 * up(e2) * down(e)) by (nonlinear_arith)
            requires
                m <= m2,
                e == e2,
        ;
    } else {
        let k = (e2 - e) as nat;
        let h = pow2((precision - 1) as nat);
        lemma_scale_shift(e, k);
        lemma_pow2_unfold(precision);
        lemma_pow2_unfold(k);
        lemma_pow2_pos((k - 1) as nat);
        assert(m * up(e) * down(e2) <= m2 * up(e2) * down(e)) by (nonlinear_arith)
            requires
                m <= 2 * h,
                m2 >= h,
                up(e2) * down(e) == up(e) * down(e2) * pow2(k),
                pow2(k) >= 2,
        ;
    }
    assert(dyadic_le((m, e), (m2, e2)));
    lemma_carry(precision, e);
    lemma_carry(precision, e2);
    lemma_dyadic_le_rewrite(
        (m, e),
        nearest(precision, least, n, d),
        (m2, e2),
        nearest(precision, least, n2, d2),
    );
}

proof fn lemma_last_place_monotone(
    precision: nat,
    least: int,
    n: nat,
    d: nat,
    n2: nat,
    d2: nat,
)
    requires
        d > 0,
        d2 > 0,
        n * d2 <= n2 * d,
    ensures
        last_place(precision, least, n, d) <= last_place(precision, least, n2, d2),
{
    if n > 0 {
        assert(n2 > 0) by (nonlinear_arith)
            requires
                n > 0,
                d2 > 0,
                n * d2 <= n2 * d,
        ;
        let t = magnitude(n, d);
        lemma_magnitude(n, d);
        lemma_magnitude(n2, d2);
        lemma_scale_positive(t);
        assert(d2 * up(t) <= n2 * down(t)) by (nonlinear_arith)
            requires
                d * up(t) <= n * down(t),
                n * d2 <= n2 * d,
                d > 0,
                down(t) > 0,
        ;
        lemma_scale_order(n2, d2, t, magnitude(n2, d2) + 1);
    }
}

/// A ratio of at most `2^k` rounds to an exponent that `k` bounds.
pub proof fn lemma_nearest_exponent(precision: nat, least: int, n: nat, d: nat, k: nat)
    requires
        d > 0,
        n <= d * pow2(k),
    ensures
        nearest(precision, least, n, d).1 <= least + 1 || nearest(precision, least, n, d).1 <= k
            - precision + 2,
{
    if n > 0 {
        let t = magnitude(n, d);
        lemma_magnitude(n, d);
        lemma_pow2_unfold(k + 1);
        lemma_pow2_pos(k);
        assert(n * down(k as int + 1) < d * up(k as int + 1)) by (nonlinear_arith)
            requires
                n <= d * pow2(k),
                up(k as int + 1) == 2 * pow2(k),
                down(k as int + 1) == 1,
                pow2(k) > 0,
                d > 0,
        ;
        lemma_scale_order(n, d, t, k as int + 1);
    }
}

/// A number of the format is its own rounding.
pub proof fn lemma_nearest_exact(precision: nat, least: int, m: nat, e: int)
    requires
        precision > 0,
        m < pow2(precision),
        e >= least,
        e > least ==> m >= pow2((precision - 1) as nat),
    ensures
        nearest(precision, least, m * up(e), down(e)) == (m, e),
{
    let n = m * up(e);
    let d = down(e);
    lemma_scale_positive(e);
    lemma_pow2_pos(precision);
    lemma_pow2_pos((precision - 1) as nat);
    if m == 0 {
        lemma_nearest_form(precision, least, n, d);
    } else {
        let t = log2(m);
        lemma_log2_bounds(m);
        assert(m * (d * up(e)) <= n * down(e) < (m + 1) * (d * up(e))) by (nonlinear_arith)
            requires
                n == m * up(e),
                d == down(e),
                up(e) > 0,
                down(e) > 0,
        ;
        lemma_magnitude_of_quotient(n, d, m, e);
        assert(t < precision) by {
            if t >= precision {
                if t > precision {
                    lemma_pow2_strictly_increases(precision, t);
                }
            }
        }
        if e > least {
            assert(t >= precision - 1) by {
                if t + 1 < precision - 1 {
                    lemma_pow2_strictly_increases(t + 1, (precision - 1) as nat);
                }
            }
        }
        assert(last_place(precision, least, n, d) == e);
        assert(n * down(e) == m * (d * up(e))) by (nonlinear_arith)
            requires
                n == m * up(e),
                d == down(e),
        ;
        assert(d * up(e) > 0) by (nonlinear_arith)
            requires
                d > 0,
                up(e) > 0,
        ;
        lemma_half_even_bounds(n * down(e), d * up(e), m);
    }
}

pub proof fn lemma_log2_unique(n: nat, t: nat)
    requires
        pow2(t) <= n < pow2(t + 1),
    ensures
        log2(n) == t,
{
    lemma_pow2_pos(t);
    lemma_log2_bounds(n);
    let l = log2(n);
    if l < t {
        if l + 1 < t {
            lemma_pow2_strictly_increases(l + 1, t);
        }
    } else if l > t {
        if l > t + 1 {
            lemma_pow2_strictly_increases(t + 1, l);
        }
    }
}

/// A power of two is a number of the format, where it lies above the least exponent.
pub proof fn lemma_power_of_format(precision: nat, least: int, k: int)
    requires
        precision > 0,
        k - (precision - 1) >= least,
    ensures
        nearest(precision, least, up(k), down(k)) == (
            pow2((precision - 1) as nat),
            k - (precision - 1),
        ),
        pow2((precision - 1) as nat) * up(k - (precision - 1)) * down(k) == up(k) * down(
            k - (precision - 1),
        ),
{
    let m = pow2((precision - 1) as nat);
    let e = k - (precision - 1);
    lemma_pow2_unfold(precision);
    lemma_pow2_pos((precision - 1) as nat);
    lemma_nearest_exact(precision, least, m, e);
    lemma_scale_shift(e, (precision - 1) as nat);
    lemma_scale_positive(k);
    lemma_scale_positive(e);
    let (p, q) = (up(k), down(k));
    let (r, s) = (up(e), down(e));
    assert(m * r * q == p * s) by (nonlinear_arith)
        requires
            p * s == r * q * m,
    ;
    lemma_nearest_ratio(precision, least, m * r, s, p, q);
}

/// Rounding does not cross a power of two.
pub proof fn lemma_nearest_power_bounds(precision: nat, least: int, n: nat, d: nat, k: int)
    requires
        d > 0,
        precision > 0,
        k - (precision - 1) >= least,
    ensures
        n * down(k) <= d * up(k) ==> {
            let v = nearest(precision, least, n, d);
            v.0 * up(v.1) * down(k) <= down(v.1) * up(k)
        },
        n * down(k) >= d * up(k) ==> {
            let v = nearest(precision, least, n, d);
            v.0 * up(v.1) * down(k) >= down(v.1) * up(k)
        },
{
    let v = nearest(precision, least, n, d);
    let (p, q) = (up(k), down(k));
    let m = pow2((precision - 1) as nat);
    let (r, s) = (up(k - (precision - 1)), down(k - (precision - 1)));
    let (x, y) = (v.0 * up(v.1), down(v.1));
    lemma_scale_positive(k);
    lemma_scale_positive(k - (precision - 1));
    lemma_power_of_format(precision, least, k);
    assert(m * r * q == p * s);
    assert((x * q) * s == (x * s) * q) by (nonlinear_arith);
    assert((m * r * y) * q == (m * r * q) * y) by (nonlinear_arith);
    assert((p * s) * y == (y * p) * s) by (nonlinear_arith);
    lemma_mul_is_commutative(p as int, d as int);
    if n * q <= d * p {
        lemma_nearest_monotone(precision, least, n, d, p, q);
        assert(x * s <= m * r * y);
        lemma_mul_inequality((x * s) as int, (m * r * y) as int, q as int);
        lemma_mul_inequality_converse((x * q) as int, (y * p) as int, s as int);
    }
    if n * q >= d * p {
        lemma_nearest_monotone(precision, least, p, q, n, d);
        assert(m * r * y <= x * s);
        lemma_mul_inequality((m * r * y) as int, (x * s) as int, q as int);
        lemma_mul_inequality_converse((y * p) as int, (x * q) as int, s as int);
    }
}

/// A power of two absorbs what is too small to reach the next number of the format.
pub proof fn lemma_absorb(precision: nat, least: int, n: nat, d: nat, k: nat, j: nat)
    requires
        d > 0,
        precision > 0,
        least <= 0,
        j + precision < k,
        n <= d * (pow2(k) + pow2(j)),
    ensures
        ({
            let v = nearest(precision, least, n, d);
            v.0 * up(v.1) * down(k as int) <= down(v.1) * up(k as int)
        }),
{
    let q = pow2(k) + pow2(j);
    let s = (k - (precision - 1)) as nat;
    let w = pow2(s);
    let m = pow2((precision - 1) as nat);
    lemma2_to64();
    lemma_pow2_pos(k);
    lemma_pow2_strictly_increases(j, k);
    lemma_pow2_unfold(k + 1);
    lemma_log2_unique(q, k);
    lemma_pow2_strictly_increases(j, (s - 1) as nat);
    lemma_pow2_unfold(s);
    lemma_pow2_adds((precision - 1) as nat, s);
    assert(q * (1 * up(0)) <= q * down(0) < (q + 1) * (1 * up(0)));
    lemma_nearest_of_quotient(precision, least, q, 1, q, 0, s);
    assert(q == w * m + pow2(j)) by (nonlinear_arith)
        requires
            q == m * w + pow2(j),
    ;
    lemma_fundamental_div_mod_converse(q as int, w as int, m as int, pow2(j) as int);
    lemma_pow2_unfold(precision);
    lemma_pow2_pos((precision - 1) as nat);
    assert(nearest(precision, least, q, 1) == (m, s as int));
    assert(n * 1 <= q * d) by (nonlinear_arith)
        requires
            n <= d * q,
    ;
    lemma_nearest_monotone(precision, least, n, d, q, 1);
    let v = nearest(precision, least, n, d);
    assert(up(s as int) == w && down(s as int) == 1 && up(k as int) == pow2(k) && down(k as int)
        == 1);
    let (x, y) = (v.0 * up(v.1), down(v.1));
    assert(x * 1 <= m * w * y);
    assert(m * w * y == y * (m * w)) by (nonlinear_arith);
}

/// `n / d`, rounded up, is at most `k` exactly if `n / d` is.
pub proof fn lemma_rounded_up(n: nat, d: nat, k: nat)
    requires
        d > 0,
    ensures
        (n + d - 1) / (d as int) <= k <==> n <= k * d,
{
    let c = (n + d - 1) / (d as int);
    lemma_fundamental_div_mod(n + d - 1, d as int);
    let r = (n + d - 1) % (d as int);
    if c <= k {
        assert(n <= k * d) by (nonlinear_arith)
            requires
                n + d - 1 == d * c + r,
                0 <= r < d,
                0 <= c <= k,
        ;
    }
    if n <= k * d {
        assert(c < k + 1) by (nonlinear_arith)
            requires
                n + d - 1 == d * c + r,
                0 <= r < d,
                n <= k * d,
                d > 0,
        ;
    }
}

} // verus!
