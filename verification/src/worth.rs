//! What numbers are worth, and how far rounding moves them.
//!
//! Here numbers stand beside the real numbers that they are or come from, so that what is reported
//! can be held against what was measured without a word of floating point.
use vstd::arithmetic::power2::*;
use vstd::prelude::*;

use crate::binary64;
use crate::rounding;

verus! {

/// `x` divided by `y`.
#[verifier::opaque]
pub open spec fn over(x: real, y: real) -> real {
    x / y
}

/// The real number `n / d`.
pub open spec fn ratio(n: nat, d: nat) -> real {
    over(n as real, d as real)
}

/// The real number that `v` stands for.
pub open spec fn worth(v: (nat, int)) -> real {
    ratio(v.0 * rounding::up(v.1), rounding::down(v.1))
}

/// `x` and `y` differ by no more than the share `e` of either.
#[verifier::opaque]
pub open spec fn near(x: real, y: real, e: real) -> bool {
    x <= y * (1 as real + e) && y <= x * (1 as real + e)
}

/// What one rounding to double precision may do: `2^-50`, which is more than it does.
pub open spec fn ulp() -> real {
    1 as real / 0x4_0000_0000_0000nat as real
}

/// What one rounding to single precision may do: `2^-22`, which is more than it does.
pub open spec fn ulp_single() -> real {
    1 as real / 0x40_0000nat as real
}

pub proof fn lemma_real_mul(a: nat, b: nat)
    ensures
        (a * b) as real == a as real * b as real,
{
    assert((a * b) as real == a as real * b as real) by (nonlinear_arith);
}

/// Ratios are compared by multiplying out.
pub proof fn lemma_real_ratio(a: nat, b: nat, c: nat, d: nat)
    requires
        b > 0,
        d > 0,
    ensures
        a * d <= c * b <==> ratio(a, b) <= ratio(c, d),
{
    reveal(over);
    let (x, y, z, w) = (a as real, b as real, c as real, d as real);
    lemma_real_mul(a, d);
    lemma_real_mul(c, b);
    if a * d <= c * b {
        assert(x / y <= z / w) by (nonlinear_arith)
            requires
                x * w <= z * y,
                y > 0 as real,
                w > 0 as real,
        ;
    } else {
        assert(x / y > z / w) by (nonlinear_arith)
            requires
                x * w > z * y,
                y > 0 as real,
                w > 0 as real,
        ;
    }
}

pub proof fn lemma_ratio_positive(n: nat, d: nat)
    requires
        d > 0,
    ensures
        ratio(n, d) >= 0 as real,
        n == 0 <==> ratio(n, d) == 0 as real,
{
    reveal(over);
    let (x, y) = (n as real, d as real);
    assert(x / y >= 0 as real && (x == 0 as real <==> x / y == 0 as real)) by (nonlinear_arith)
        requires
            x >= 0 as real,
            y > 0 as real,
    ;
}

/// An integer division and its exact value.
pub proof fn lemma_real_div(a: nat, b: nat)
    requires
        b > 0,
    ensures
        (a / b) as real <= ratio(a, b),
        ratio(a, b) < (a / b) as real + 1 as real,
{
    reveal(over);
    let (q, r) = (a / b, a % b);
    vstd::arithmetic::div_mod::lemma_fundamental_div_mod(a as int, b as int);
    lemma_real_mul(b, q);
    let (x, y, z, w) = (a as real, b as real, q as real, r as real);
    assert(x == y * z + w);
    assert(z <= x / y && x / y < z + 1 as real) by (nonlinear_arith)
        requires
            x == y * z + w,
            w >= 0 as real,
            w < y,
            y > 0 as real,
    ;
}

/// The order of numbers is that of what they are worth.
pub proof fn lemma_worth_order(a: (nat, int), b: (nat, int))
    ensures
        binary64::at_most(a, b) <==> worth(a) <= worth(b),
        worth(a) >= 0 as real,
        a.0 == 0 <==> worth(a) == 0 as real,
{
    reveal(over);
    binary64::lemma_den_positive(a, b);
    binary64::lemma_den_positive(b, a);
    lemma_real_ratio(binary64::num(a), binary64::den(a), binary64::num(b), binary64::den(b));
    let (x, y) = (binary64::num(a) as real, binary64::den(a) as real);
    if a.0 == 0 {
        assert(binary64::num(a) == 0) by (nonlinear_arith)
            requires
                binary64::num(a) == 0 * rounding::up(a.1),
        ;
    }
    assert(x / y >= 0 as real && (x == 0 as real <==> x / y == 0 as real)) by (nonlinear_arith)
        requires
            x >= 0 as real,
            y > 0 as real,
    ;
}

pub proof fn lemma_near_refl(x: real, e: real)
    requires
        x >= 0 as real,
        e >= 0 as real,
    ensures
        near(x, x, e),
{
    reveal(near);
    assert(x <= x * (1 as real + e)) by (nonlinear_arith)
        requires
            x >= 0 as real,
            e >= 0 as real,
    ;
}

pub proof fn lemma_near_positive(x: real, y: real, e: real)
    requires
        near(y, x, e),
        x > 0 as real,
        y >= 0 as real,
    ensures
        y > 0 as real,
{
    reveal(near);
    if y == 0 as real {
        assert((0 as real) * (1 as real + e) == 0 as real) by (nonlinear_arith);
    }
}

pub proof fn lemma_near_weaken(x: real, y: real, e: real, f: real)
    requires
        near(x, y, e),
        e <= f,
        x >= 0 as real,
        y >= 0 as real,
    ensures
        near(x, y, f),
{
    reveal(near);
    assert(y * (1 as real + e) <= y * (1 as real + f)) by (nonlinear_arith)
        requires
            e <= f,
            y >= 0 as real,
    ;
    assert(x * (1 as real + e) <= x * (1 as real + f)) by (nonlinear_arith)
        requires
            e <= f,
            x >= 0 as real,
    ;
}

proof fn lemma_chain(x: real, y: real, z: real, e: real, f: real, g: real)
    requires
        0 as real <= x <= y * (1 as real + e),
        0 as real <= y <= z * (1 as real + f),
        z >= 0 as real,
        e >= 0 as real,
        f >= 0 as real,
        e + f + e * f <= g,
    ensures
        x <= z * (1 as real + g),
{
    assert(y * (1 as real + e) <= (z * (1 as real + f)) * (1 as real + e)) by (nonlinear_arith)
        requires
            y <= z * (1 as real + f),
            e >= 0 as real,
    ;
    assert((z * (1 as real + f)) * (1 as real + e) == z * (1 as real + (e + f + e * f)))
        by (nonlinear_arith);
    assert(z * (1 as real + (e + f + e * f)) <= z * (1 as real + g)) by (nonlinear_arith)
        requires
            e + f + e * f <= g,
            z >= 0 as real,
    ;
}

/// One step after another.
pub proof fn lemma_near_trans(x: real, y: real, z: real, e: real, f: real, g: real)
    requires
        near(x, y, e),
        near(y, z, f),
        x >= 0 as real,
        y >= 0 as real,
        z >= 0 as real,
        e >= 0 as real,
        f >= 0 as real,
        e + f + e * f <= g,
    ensures
        near(x, z, g),
{
    reveal(near);
    lemma_chain(x, y, z, e, f, g);
    assert(f + e + f * e == e + f + e * f) by (nonlinear_arith);
    lemma_chain(z, y, x, f, e, g);
}

/// Sums of near numbers.
pub proof fn lemma_near_sum(x: real, y: real, a: real, b: real, e: real)
    requires
        near(x, y, e),
        near(a, b, e),
    ensures
        near(x + a, y + b, e),
{
    reveal(near);
    assert((y + b) * (1 as real + e) == y * (1 as real + e) + b * (1 as real + e))
        by (nonlinear_arith);
    assert((x + a) * (1 as real + e) == x * (1 as real + e) + a * (1 as real + e))
        by (nonlinear_arith);
}

proof fn lemma_scaled(x: real, y: real, a: real, e: real)
    requires
        x <= y * (1 as real + e),
        a >= 0 as real,
    ensures
        x * a <= (y * a) * (1 as real + e),
{
    assert(x * a <= (y * a) * (1 as real + e)) by (nonlinear_arith)
        requires
            x <= y * (1 as real + e),
            a >= 0 as real,
    ;
}

/// Both multiplied by the same number.
pub proof fn lemma_near_scale(x: real, y: real, a: real, e: real)
    requires
        near(x, y, e),
        a >= 0 as real,
    ensures
        near(x * a, y * a, e),
{
    reveal(near);
    lemma_scaled(x, y, a, e);
    lemma_scaled(y, x, a, e);
}

/// Both divided by the same number.
pub proof fn lemma_near_unscale(x: real, y: real, a: real, e: real)
    requires
        near(x, y, e),
        a > 0 as real,
    ensures
        near(over(x, a), over(y, a), e),
{
    reveal(over);
    let b = 1 as real / a;
    assert(b > 0 as real && x / a == x * b && y / a == y * b) by (nonlinear_arith)
        requires
            a > 0 as real,
            b == 1 as real / a,
    ;
    lemma_near_scale(x, y, b, e);
}

/// The inverses of near numbers.
pub proof fn lemma_near_inverse(x: real, y: real, e: real)
    requires
        near(x, y, e),
        x > 0 as real,
        y > 0 as real,
        e >= 0 as real,
    ensures
        near(over(1 as real, x), over(1 as real, y), e),
{
    reveal(near);
    reveal(over);
    let one = 1 as real;
    assert(one / x <= (one / y) * (one + e)) by (nonlinear_arith)
        requires
            y <= x * (one + e),
            x > 0 as real,
            y > 0 as real,
            one == 1 as real,
    ;
    assert(one / y <= (one / x) * (one + e)) by (nonlinear_arith)
        requires
            x <= y * (one + e),
            x > 0 as real,
            y > 0 as real,
            one == 1 as real,
    ;
}

/// Products of near numbers.
pub proof fn lemma_near_product(x: real, y: real, a: real, b: real, e: real, f: real, g: real)
    requires
        near(x, y, e),
        near(a, b, f),
        x >= 0 as real,
        y >= 0 as real,
        a >= 0 as real,
        b >= 0 as real,
        e >= 0 as real,
        f >= 0 as real,
        e + f + e * f <= g,
    ensures
        near(x * a, y * b, g),
{
    lemma_near_scale(x, y, a, e);
    lemma_near_scale(a, b, y, f);
    assert(a * y == y * a && b * y == y * b) by (nonlinear_arith);
    assert(x * a >= 0 as real && y * a >= 0 as real && y * b >= 0 as real) by (nonlinear_arith)
        requires
            x >= 0 as real,
            y >= 0 as real,
            a >= 0 as real,
            b >= 0 as real,
    ;
    lemma_near_trans(x * a, y * a, y * b, e, f, g);
}

/// Quotients of near numbers.
pub proof fn lemma_near_quotient(x: real, y: real, a: real, b: real, e: real, f: real, g: real)
    requires
        near(x, y, e),
        near(a, b, f),
        x >= 0 as real,
        y >= 0 as real,
        a > 0 as real,
        b > 0 as real,
        e >= 0 as real,
        f >= 0 as real,
        e + f + e * f <= g,
    ensures
        near(over(x, a), over(y, b), g),
{
    reveal(over);
    let (p, q) = (over(1 as real, a), over(1 as real, b));
    lemma_near_inverse(a, b, f);
    assert(p > 0 as real && q > 0 as real && x / a == x * p && y / b == y * q) by (nonlinear_arith)
        requires
            a > 0 as real,
            b > 0 as real,
            p == 1 as real / a,
            q == 1 as real / b,
    ;
    lemma_near_product(x, y, p, q, e, f, g);
}

proof fn lemma_inverse_order(a: nat, b: nat)
    requires
        0 < a <= b,
    ensures
        1 as real / b as real <= 1 as real / a as real,
{
    let (x, y) = (a as real, b as real);
    assert(1 as real / y <= 1 as real / x) by (nonlinear_arith)
        requires
            x <= y,
            x > 0 as real,
    ;
}

/// What half a unit in the last place may do to a number with `precision` bits before it.
proof fn lemma_half_unit(x: real, v: real, unit: real, big: real)
    requires
        unit > 0 as real,
        big >= 4 as real,
        x >= unit * big,
        2 as real * v <= 2 as real * x + unit,
        2 as real * x <= 2 as real * v + unit,
    ensures
        near(v, x, 1 as real / big),
{
    reveal(near);
    let e = 1 as real / big;
    assert(e * big == 1 as real && e > 0 as real && e <= 1 as real) by (nonlinear_arith)
        requires
            big >= 4 as real,
            e == 1 as real / big,
    ;
    assert(x >= 0 as real) by (nonlinear_arith)
        requires
            x >= unit * big,
            unit > 0 as real,
            big >= 4 as real,
    ;
    assert(unit <= x * e) by (nonlinear_arith)
        requires
            x >= unit * big,
            e * big == 1 as real,
            e > 0 as real,
    ;
    assert(x * e >= 0 as real) by (nonlinear_arith)
        requires
            x >= unit * big,
            unit > 0 as real,
            big >= 4 as real,
            e > 0 as real,
    ;
    assert(v <= x * (1 as real + e)) by (nonlinear_arith)
        requires
            2 as real * v <= 2 as real * x + unit,
            unit <= x * e,
            x * e >= 0 as real,
    ;
    assert(x <= v * (1 as real + e)) by (nonlinear_arith)
        requires
            2 as real * x <= 2 as real * v + unit,
            unit <= x * e,
            x * e >= 0 as real,
            e > 0 as real,
            e <= 1 as real,
            x >= 0 as real,
    ;
}

/// Rounding moves a number of the format's full precision by half a unit at most.
#[verifier::spinoff_prover]
proof fn lemma_rounding(precision: nat, least: int, n: nat, d: nat, share: real)
    requires
        share == 1 as real / pow2((precision - 1) as nat) as real,
        d > 0,
        n > 0,
        precision >= 3,
        rounding::magnitude(n, d) - (precision - 1) > least,
    ensures
        near(
            worth(rounding::nearest(precision, least, n, d)),
            ratio(n, d),
            share,
        ),
{
    reveal(over);
    let t = rounding::magnitude(n, d);
    let e = t - (precision - 1);
    let s = (precision - 1) as nat;
    let v = rounding::nearest(precision, least, n, d);
    rounding::lemma_magnitude(n, d);
    rounding::lemma_scale_positive(e);
    rounding::lemma_scale_positive(t);
    rounding::lemma_scale_positive(v.1);
    rounding::lemma_scale_shift(e, s);
    lemma_pow2_pos(s);
    let (p, q) = (rounding::up(e), rounding::down(e));
    let (tp, tq) = (rounding::up(t), rounding::down(t));
    let (a, b) = (n * q, d * p);
    let m = rounding::half_even(a, b);
    let w = pow2(s);
    assert(b > 0) by (nonlinear_arith)
        requires
            b == d * p,
            d > 0,
            p > 0,
    ;
    rounding::lemma_half_even_error(a, b);
    let (x, unit, big) = (ratio(n, d), ratio(p, q), w as real);
    let value = m as real * unit;
    // The number is at least `big` units.
    assert(x >= unit * big) by {
        assert(tp * q == p * tq * w);
        assert(d * tp <= n * tq);
        let (nr, dr, pr, qr) = (n as real, d as real, p as real, q as real);
        let (tpr, tqr, wr) = (tp as real, tq as real, w as real);
        lemma_real_mul(tp, q);
        lemma_real_mul(p, tq);
        lemma_real_mul(p * tq, w);
        lemma_real_mul(d, tp);
        lemma_real_mul(n, tq);
        assert(tpr * qr == pr * tqr * wr);
        assert(dr * tpr <= nr * tqr);
        assert(tpr / tqr == (pr / qr) * wr) by (nonlinear_arith)
            requires
                tpr * qr == pr * tqr * wr,
                tqr > 0 as real,
                qr > 0 as real,
        ;
        assert(nr / dr >= tpr / tqr) by (nonlinear_arith)
            requires
                dr * tpr <= nr * tqr,
                dr > 0 as real,
                tqr > 0 as real,
        ;
    }
    // The significand is within a half of the number in units.
    assert(2 as real * value <= 2 as real * x + unit && 2 as real * x <= 2 as real * value + unit)
        by {
        let (nr, dr, pr, qr, mr) = (n as real, d as real, p as real, q as real, m as real);
        lemma_real_mul(n, q);
        lemma_real_mul(d, p);
        lemma_real_mul(m, b);
        let (ar, br) = (nr * qr, dr * pr);
        assert(2 * (m * b) - b <= 2 * a <= 2 * (m * b) + b) by (nonlinear_arith)
            requires
                (2 * m - 1) * b <= 2 * a <= (2 * m + 1) * b,
        ;
        assert(2 as real * (mr * br) - br <= 2 as real * ar);
        assert(2 as real * ar <= 2 as real * (mr * br) + br);
        let k = 1 as real / (dr * qr);
        assert(k > 0 as real && k * ar == nr / dr && k * br == pr / qr) by (nonlinear_arith)
            requires
                k == 1 as real / (dr * qr),
                ar == nr * qr,
                br == dr * pr,
                dr > 0 as real,
                qr > 0 as real,
        ;
        assert(2 as real * (mr * (k * br)) - k * br <= 2 as real * (k * ar)) by (nonlinear_arith)
            requires
                2 as real * (mr * br) - br <= 2 as real * ar,
                k > 0 as real,
        ;
        assert(2 as real * (k * ar) <= 2 as real * (mr * (k * br)) + k * br) by (nonlinear_arith)
            requires
                2 as real * ar <= 2 as real * (mr * br) + br,
                k > 0 as real,
        ;
    }
    // The significand in units is what the result is worth, with a carry or without.
    assert(worth(v) == value) by {
        let (vp, vq) = (rounding::up(v.1), rounding::down(v.1));
        lemma_real_mul(v.0, vp);
        let (v0, vpr, vqr) = (v.0 as real, vp as real, vq as real);
        let (pr, qr, mr) = (p as real, q as real, m as real);
        if m == pow2(precision) {
            rounding::lemma_carry(precision, e);
            lemma_real_mul(v.0 * vp, q);
            lemma_real_mul(m, p);
            lemma_real_mul(m * p, vq);
            assert(v0 * vpr * qr == mr * pr * vqr);
        } else {
            assert(v0 * vpr * qr == mr * pr * vqr);
        }
        assert((v0 * vpr) / vqr == mr * (pr / qr)) by (nonlinear_arith)
            requires
                v0 * vpr * qr == mr * pr * vqr,
                vqr > 0 as real,
                qr > 0 as real,
        ;
    }
    assert(unit > 0 as real) by (nonlinear_arith)
        requires
            unit == p as real / q as real,
            p as real > 0 as real,
            q as real > 0 as real,
    ;
    assert(w >= 4) by {
        lemma2_to64();
        if s > 2 {
            lemma_pow2_strictly_increases(2, s);
        }
    }
    lemma_half_unit(x, value, unit, big);
}

/// A double is near to what it is the nearest to, unless that is next to nothing.
pub proof fn lemma_double_near(n: nat, d: nat)
    requires
        d > 0,
        n == 0 || binary64::ratio_at_least(n, d, -1000),
    ensures
        near(worth(binary64::double(n, d)), ratio(n, d), ulp()),
        worth(binary64::double(n, d)) >= 0 as real,
        n == 0 ==> worth(binary64::double(n, d)) == 0 as real,
        n > 0 ==> worth(binary64::double(n, d)) > 0 as real,
{
    let v = binary64::double(n, d);
    let (x, e) = (ratio(n, d), ulp());
    lemma2_to64();
    lemma2_to64_rest();
    lemma_worth_order(v, v);
    if n == 0 {
        rounding::lemma_nearest_form(53, -1074, 0, d);
        lemma_ratio_positive(0, d);
        lemma_near_refl(0 as real, e);
    } else {
        rounding::lemma_magnitude(n, d);
        rounding::lemma_scale_order(n, d, -1000, rounding::magnitude(n, d) + 1);
        lemma_real_ratio(n, d, 0, 1);
        let f = 1 as real / pow2(52) as real;
        lemma_rounding(53, -1074, n, d, f);
        lemma_inverse_order(0x4_0000_0000_0000, pow2(52));
        lemma_ratio_positive(n, d);
        lemma_near_weaken(worth(v), x, f, e);
        lemma_near_positive(x, worth(v), e);
    }
}

/// A single-precision number is near to what it is the nearest to, unless that is next to nothing.
pub proof fn lemma_single_near(n: nat, d: nat)
    requires
        d > 0,
        n == 0 || binary64::ratio_at_least(n, d, -100),
    ensures
        near(worth(binary64::single(n, d)), ratio(n, d), ulp_single()),
        worth(binary64::single(n, d)) >= 0 as real,
        n == 0 ==> worth(binary64::single(n, d)) == 0 as real,
        n > 0 ==> worth(binary64::single(n, d)) > 0 as real,
{
    let v = binary64::single(n, d);
    let (x, e) = (ratio(n, d), ulp_single());
    lemma2_to64();
    lemma_worth_order(v, v);
    if n == 0 {
        rounding::lemma_nearest_form(24, -149, 0, d);
        lemma_ratio_positive(0, d);
        lemma_near_refl(0 as real, e);
    } else {
        rounding::lemma_magnitude(n, d);
        rounding::lemma_scale_order(n, d, -100, rounding::magnitude(n, d) + 1);
        let f = 1 as real / pow2(23) as real;
        lemma_rounding(24, -149, n, d, f);
        lemma_inverse_order(0x40_0000, pow2(23));
        lemma_ratio_positive(n, d);
        lemma_near_weaken(worth(v), x, f, e);
        lemma_near_positive(x, worth(v), e);
    }
}

/// `x` and `y` differ by no more than `k` roundings to double precision make.
pub open spec fn nearly(x: real, y: real, k: nat) -> bool {
    near(x, y, k as real * ulp())
}

proof fn lemma_steps(k: nat, l: nat)
    requires
        k * l <= 0x4_0000_0000_0000,
    ensures
        ({
            let (e, f) = (k as real * ulp(), l as real * ulp());
            &&& e >= 0 as real && f >= 0 as real
            &&& e + f + e * f <= (k + l + 1) as real * ulp()
        }),
{
    let (a, b, u) = (k as real, l as real, ulp());
    lemma_real_mul(k, l);
    assert(u > 0 as real && u * 0x4_0000_0000_0000nat as real == 1 as real);
    assert(a * u >= 0 as real && b * u >= 0 as real) by (nonlinear_arith)
        requires
            a >= 0 as real,
            b >= 0 as real,
            u > 0 as real,
    ;
    assert((a * b) * u <= 1 as real) by (nonlinear_arith)
        requires
            a * b <= 0x4_0000_0000_0000nat as real,
            u > 0 as real,
            u * 0x4_0000_0000_0000nat as real == 1 as real,
    ;
    assert(a * u + b * u + (a * u) * (b * u) <= (a + b + 1 as real) * u) by (nonlinear_arith)
        requires
            (a * b) * u <= 1 as real,
            u > 0 as real,
    ;
}

pub proof fn lemma_nearly_same(x: real, k: nat)
    requires
        x >= 0 as real,
    ensures
        nearly(x, x, k),
{
    lemma_steps(k, 0);
    lemma_near_refl(x, k as real * ulp());
}

pub proof fn lemma_nearly_weaken(x: real, y: real, k: nat, l: nat)
    requires
        nearly(x, y, k),
        k <= l,
        x >= 0 as real,
        y >= 0 as real,
    ensures
        nearly(x, y, l),
{
    let (a, b, u) = (k as real, l as real, ulp());
    assert(u > 0 as real);
    assert(a * u <= b * u) by (nonlinear_arith)
        requires
            a <= b,
            u > 0 as real,
    ;
    lemma_near_weaken(x, y, a * u, b * u);
}

pub proof fn lemma_nearly_trans(x: real, y: real, z: real, k: nat, l: nat)
    requires
        nearly(x, y, k),
        nearly(y, z, l),
        x >= 0 as real,
        y >= 0 as real,
        z >= 0 as real,
        k * l <= 0x4_0000_0000_0000,
    ensures
        nearly(x, z, k + l + 1),
{
    lemma_steps(k, l);
    lemma_near_trans(
        x,
        y,
        z,
        k as real * ulp(),
        l as real * ulp(),
        (k + l + 1) as real * ulp(),
    );
}

pub proof fn lemma_nearly_product(x: real, y: real, a: real, b: real, k: nat, l: nat)
    requires
        nearly(x, y, k),
        nearly(a, b, l),
        x >= 0 as real,
        y >= 0 as real,
        a >= 0 as real,
        b >= 0 as real,
        k * l <= 0x4_0000_0000_0000,
    ensures
        nearly(x * a, y * b, k + l + 1),
{
    lemma_steps(k, l);
    lemma_near_product(
        x,
        y,
        a,
        b,
        k as real * ulp(),
        l as real * ulp(),
        (k + l + 1) as real * ulp(),
    );
}

pub proof fn lemma_nearly_quotient(x: real, y: real, a: real, b: real, k: nat, l: nat)
    requires
        nearly(x, y, k),
        nearly(a, b, l),
        x >= 0 as real,
        y >= 0 as real,
        a > 0 as real,
        b > 0 as real,
        k * l <= 0x4_0000_0000_0000,
    ensures
        nearly(over(x, a), over(y, b), k + l + 1),
{
    lemma_steps(k, l);
    lemma_near_quotient(
        x,
        y,
        a,
        b,
        k as real * ulp(),
        l as real * ulp(),
        (k + l + 1) as real * ulp(),
    );
}

/// Numbers that are near are within twice of each other.
pub proof fn lemma_nearly_half(x: real, y: real, k: nat)
    requires
        nearly(x, y, k),
        k <= 0x4_0000_0000_0000,
        x >= 0 as real,
        y >= 0 as real,
    ensures
        x <= 2 as real * y,
        y <= 2 as real * x,
{
    reveal(near);
    let (a, u) = (k as real, ulp());
    assert(u > 0 as real && u * 0x4_0000_0000_0000nat as real == 1 as real);
    assert(a * u <= 1 as real) by (nonlinear_arith)
        requires
            a <= 0x4_0000_0000_0000nat as real,
            u > 0 as real,
            u * 0x4_0000_0000_0000nat as real == 1 as real,
    ;
    let e = a * u;
    assert(x <= 2 as real * y) by (nonlinear_arith)
        requires
            x <= y * (1 as real + e),
            e <= 1 as real,
            y >= 0 as real,
    ;
    assert(y <= 2 as real * x) by (nonlinear_arith)
        requires
            y <= x * (1 as real + e),
            e <= 1 as real,
            x >= 0 as real,
    ;
}

/// `2^-100`: what is as large, or nothing at all, keeps the full precision of a double.
pub open spec fn tiny() -> real {
    ratio(1, pow2(100))
}

/// What the double nearest to a ratio is worth.
pub proof fn lemma_not_tiny(n: nat, d: nat)
    requires
        d > 0,
        n == 0 || ratio(n, d) >= tiny(),
    ensures
        nearly(worth(binary64::double(n, d)), ratio(n, d), 1),
        worth(binary64::double(n, d)) >= 0 as real,
        n == 0 ==> worth(binary64::double(n, d)) == 0 as real,
        n > 0 ==> worth(binary64::double(n, d)) > 0 as real,
        ratio(n, d) >= 0 as real,
{
    lemma_ratio_positive(n, d);
    if n > 0 {
        let (w, z) = (pow2(100), pow2(1000));
        lemma_pow2_pos(100);
        lemma_real_ratio(1, w, n, d);
        lemma_pow2_strictly_increases(100, 1000);
        assert(n * z >= d * 1) by (nonlinear_arith)
            requires
                1 * d <= n * w,
                w <= z,
        ;
    }
    lemma_double_near(n, d);
    assert(1nat as real * ulp() == ulp());
}

pub proof fn lemma_ratio_whole(k: nat)
    ensures
        ratio(k, 1) == k as real,
{
    reveal(over);
    let (x, y) = (k as real, 1nat as real);
    assert(x / y == x) by (nonlinear_arith)
        requires
            y == 1 as real,
    ;
}

/// A number that was counted.
pub proof fn lemma_count_worth(k: nat)
    ensures
        nearly(worth(binary64::double(k, 1)), k as real, 1),
        worth(binary64::double(k, 1)) >= 0 as real,
        k == 0 ==> worth(binary64::double(k, 1)) == 0 as real,
        k > 0 ==> worth(binary64::double(k, 1)) > 0 as real,
{
    let w = pow2(100);
    lemma_pow2_pos(100);
    lemma_ratio_whole(k);
    if k > 0 {
        assert(1 * 1 <= k * w) by (nonlinear_arith)
            requires
                k >= 1,
                w >= 1,
        ;
        lemma_real_ratio(1, w, k, 1);
    }
    lemma_not_tiny(k, 1);
}

/// What exact sums, products and quotients are worth.
pub proof fn lemma_exact_parts(a: (nat, int), b: (nat, int))
    ensures
        binary64::den(a) * binary64::den(b) > 0,
        ratio(binary64::exact_sum(a, b).0, binary64::exact_sum(a, b).1) == worth(a) + worth(b),
        ratio(binary64::exact_product(a, b).0, binary64::exact_product(a, b).1) == worth(a)
            * worth(b),
        b.0 > 0 ==> ratio(binary64::exact_quotient(a, b).0, binary64::exact_quotient(a, b).1)
            == over(worth(a), worth(b)),
{
    reveal(over);
    let (x, y) = (binary64::num(a), binary64::den(a));
    let (f, g) = (binary64::num(b), binary64::den(b));
    binary64::lemma_den_positive(a, b);
    binary64::lemma_den_positive(b, a);
    lemma_real_mul(x, g);
    lemma_real_mul(f, y);
    lemma_real_mul(y, g);
    lemma_real_mul(x, f);
    lemma_real_mul(y, f);
    let (xr, yr, fr, gr) = (x as real, y as real, f as real, g as real);
    assert((xr * gr + fr * yr) / (yr * gr) == xr / yr + fr / gr) by (nonlinear_arith)
        requires
            yr > 0 as real,
            gr > 0 as real,
    ;
    assert((xr * fr) / (yr * gr) == (xr / yr) * (fr / gr)) by (nonlinear_arith)
        requires
            yr > 0 as real,
            gr > 0 as real,
    ;
    if b.0 > 0 {
        assert((xr * gr) / (yr * fr) == (xr / yr) / (fr / gr)) by (nonlinear_arith)
            requires
                yr > 0 as real,
                gr > 0 as real,
                fr > 0 as real,
        ;
    }
}

/// What a sum is worth.
pub proof fn lemma_sum_worth(a: (nat, int), b: (nat, int))
    requires
        worth(a) + worth(b) == 0 as real || worth(a) + worth(b) >= tiny(),
    ensures
        nearly(worth(binary64::sum(a, b)), worth(a) + worth(b), 1),
        worth(binary64::sum(a, b)) >= 0 as real,
        worth(a) + worth(b) > 0 as real ==> worth(binary64::sum(a, b)) > 0 as real,
        worth(a) + worth(b) == 0 as real ==> worth(binary64::sum(a, b)) == 0 as real,
{
    lemma_exact_parts(a, b);
    let (n, d) = binary64::exact_sum(a, b);
    lemma_ratio_positive(n, d);
    lemma_not_tiny(n, d);
}

/// What a product is worth.
pub proof fn lemma_product_worth(a: (nat, int), b: (nat, int))
    requires
        worth(a) * worth(b) == 0 as real || worth(a) * worth(b) >= tiny(),
    ensures
        nearly(worth(binary64::product(a, b)), worth(a) * worth(b), 1),
        worth(binary64::product(a, b)) >= 0 as real,
        worth(a) * worth(b) > 0 as real ==> worth(binary64::product(a, b)) > 0 as real,
        worth(a) * worth(b) == 0 as real ==> worth(binary64::product(a, b)) == 0 as real,
{
    lemma_exact_parts(a, b);
    let (n, d) = binary64::exact_product(a, b);
    lemma_ratio_positive(n, d);
    lemma_not_tiny(n, d);
}

/// What a quotient is worth.
pub proof fn lemma_quotient_worth(a: (nat, int), b: (nat, int))
    requires
        worth(b) > 0 as real,
        over(worth(a), worth(b)) == 0 as real || over(worth(a), worth(b)) >= tiny(),
    ensures
        nearly(worth(binary64::quotient(a, b)), over(worth(a), worth(b)), 1),
        worth(binary64::quotient(a, b)) >= 0 as real,
        over(worth(a), worth(b)) > 0 as real ==> worth(binary64::quotient(a, b)) > 0 as real,
        over(worth(a), worth(b)) == 0 as real ==> worth(binary64::quotient(a, b)) == 0 as real,
{
    lemma_worth_order(b, b);
    lemma_exact_parts(a, b);
    binary64::lemma_den_positive(a, b);
    let (n, d) = binary64::exact_quotient(a, b);
    lemma_ratio_positive(n, d);
    lemma_not_tiny(n, d);
}

proof fn lemma_still_not_tiny(x: real, y: real, k: nat)
    requires
        nearly(x, y, k),
        k <= 0x4_0000_0000_0000,
        x >= 0 as real,
        y >= 2 as real * tiny(),
        tiny() > 0 as real,
    ensures
        x >= tiny(),
{
    lemma_nearly_half(x, y, k);
}

/// What the quotient of numbers that are near to others is worth.
pub proof fn lemma_divided(a: (nat, int), b: (nat, int), x: real, y: real, k: nat, l: nat)
    requires
        nearly(worth(a), x, k),
        nearly(worth(b), y, l),
        k <= 1000,
        l <= 1000,
        x >= 0 as real,
        y > 0 as real,
        worth(b) > 0 as real,
        x == 0 as real ==> worth(a) == 0 as real,
        x > 0 as real ==> over(x, y) >= 2 as real * tiny(),
        tiny() > 0 as real,
    ensures
        nearly(worth(binary64::quotient(a, b)), over(x, y), k + l + 3),
        worth(binary64::quotient(a, b)) >= 0 as real,
        over(x, y) >= 0 as real,
        x == 0 as real ==> worth(binary64::quotient(a, b)) == 0 as real && over(x, y) == 0 as real,
        x > 0 as real ==> worth(binary64::quotient(a, b)) > 0 as real && over(x, y) > 0 as real,
{
    let (p, q) = (worth(a), worth(b));
    lemma_worth_order(a, b);
    lemma_over_sign(x, y);
    lemma_over_sign(p, q);
    assert(k * l <= 1_000_000) by (nonlinear_arith)
        requires
            k <= 1000,
            l <= 1000,
    ;
    lemma_nearly_quotient(p, x, q, y, k, l);
    if x > 0 as real {
        lemma_still_not_tiny(over(p, q), over(x, y), k + l + 1);
    }
    lemma_quotient_worth(a, b);
    lemma_nearly_trans(
        worth(binary64::quotient(a, b)),
        over(p, q),
        over(x, y),
        1,
        k + l + 1,
    );
}

/// What the product of numbers that are near to others is worth.
pub proof fn lemma_multiplied(a: (nat, int), b: (nat, int), x: real, y: real, k: nat, l: nat)
    requires
        nearly(worth(a), x, k),
        nearly(worth(b), y, l),
        k <= 1000,
        l <= 1000,
        x >= 0 as real,
        y > 0 as real,
        worth(b) > 0 as real,
        x == 0 as real ==> worth(a) == 0 as real,
        x > 0 as real ==> x * y >= 2 as real * tiny(),
        tiny() > 0 as real,
    ensures
        nearly(worth(binary64::product(a, b)), x * y, k + l + 3),
        worth(binary64::product(a, b)) >= 0 as real,
        x * y >= 0 as real,
        x == 0 as real ==> worth(binary64::product(a, b)) == 0 as real && x * y == 0 as real,
        x > 0 as real ==> worth(binary64::product(a, b)) > 0 as real,
{
    let (p, q) = (worth(a), worth(b));
    lemma_worth_order(a, b);
    assert(x * y >= 0 as real && p * q >= 0 as real) by (nonlinear_arith)
        requires
            x >= 0 as real,
            y > 0 as real,
            p >= 0 as real,
            q > 0 as real,
    ;
    assert(k * l <= 1_000_000) by (nonlinear_arith)
        requires
            k <= 1000,
            l <= 1000,
    ;
    lemma_nearly_product(p, x, q, y, k, l);
    if x > 0 as real {
        lemma_still_not_tiny(p * q, x * y, k + l + 1);
    } else {
        assert(p * q == 0 as real && x * y == 0 as real) by (nonlinear_arith)
            requires
                p == 0 as real,
                x == 0 as real,
        ;
    }
    lemma_product_worth(a, b);
    lemma_nearly_trans(worth(binary64::product(a, b)), p * q, x * y, 1, k + l + 1);
}

pub proof fn lemma_over_sign(x: real, y: real)
    requires
        x >= 0 as real,
        y > 0 as real,
    ensures
        over(x, y) >= 0 as real,
        x == 0 as real ==> over(x, y) == 0 as real,
        x > 0 as real ==> over(x, y) > 0 as real,
        over(x, y) * y == x,
{
    reveal(over);
    assert(x / y >= 0 as real && (x == 0 as real ==> x / y == 0 as real) && (x > 0 as real ==> x / y
        > 0 as real) && (x / y) * y == x) by (nonlinear_arith)
        requires
            x >= 0 as real,
            y > 0 as real,
    ;
}

/// A quotient is at least what times the divisor is at most the dividend.
pub proof fn lemma_over_at_least(x: real, y: real, z: real)
    requires
        y > 0 as real,
        z * y <= x,
    ensures
        over(x, y) >= z,
{
    reveal(over);
    assert(x / y >= z) by (nonlinear_arith)
        requires
            y > 0 as real,
            z * y <= x,
    ;
}

/// What the single-precision number nearest to a ratio is worth, as a double too.
pub proof fn lemma_single_not_tiny(n: nat, d: nat)
    requires
        d > 0,
        n == 0 || ratio(n, d) >= tiny(),
        binary64::finite_single(binary64::single(n, d)),
    ensures
        near(worth(binary64::widened(binary64::single(n, d))), ratio(n, d), ulp_single()),
        worth(binary64::widened(binary64::single(n, d))) >= 0 as real,
        n == 0 ==> worth(binary64::widened(binary64::single(n, d))) == 0 as real,
        n > 0 ==> worth(binary64::widened(binary64::single(n, d))) > 0 as real,
        ratio(n, d) >= 0 as real,
{
    lemma_ratio_positive(n, d);
    if n > 0 {
        let w = pow2(100);
        lemma_pow2_pos(100);
        lemma_real_ratio(1, w, n, d);
        assert(n * w >= d * 1);
    }
    lemma_single_near(n, d);
    binary64::lemma_finite_single(n, d);
    lemma_widened_worth(binary64::single(n, d));
}

pub proof fn lemma_widened_worth(v: (nat, int))
    requires
        binary64::is_single(v),
    ensures
        worth(binary64::widened(v)) == worth(v),
{
    let w = binary64::widened(v);
    binary64::lemma_widened_value(v);
    binary64::lemma_den_positive(v, w);
    binary64::lemma_den_positive(w, v);
    lemma_real_ratio(binary64::num(v), binary64::den(v), binary64::num(w), binary64::den(w));
    lemma_real_ratio(binary64::num(w), binary64::den(w), binary64::num(v), binary64::den(v));
}

} // verus!
