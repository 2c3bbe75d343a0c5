//! How rounding and double-precision arithmetic keep the order of numbers.
use vstd::arithmetic::mul::*;
use vstd::arithmetic::power2::*;
use vstd::prelude::*;

use crate::binary64;
use crate::rounding;

verus! {

/// A number that the format can hold is kept as it is.
pub proof fn lemma_representable(precision: nat, least: int, n: nat, d: nat, m: nat, e: int)
    requires
        d > 0,
        precision > 0,
        m < pow2(precision),
        e >= least,
        n * rounding::down(e) == m * rounding::up(e) * d,
    ensures
        ({
            let v = rounding::nearest(precision, least, n, d);
            v.0 * rounding::up(v.1) * d == n * rounding::down(v.1)
        }),
{
    rounding::lemma_scale_positive(e);
    let v = rounding::nearest(precision, least, n, d);
    if m == 0 {
        assert(n == 0) by {
            let q = rounding::down(e);
            assert(0 * rounding::up(e) * d == 0) by (nonlinear_arith);
            if n > 0 {
                assert(n * q > 0) by (nonlinear_arith)
                    requires
                        n > 0,
                        q > 0,
                ;
            }
        }
        rounding::lemma_nearest_form(precision, least, n, d);
        assert(0 * rounding::up(v.1) * d == 0 * rounding::down(v.1)) by (nonlinear_arith);
    } else {
        let t = rounding::log2(m);
        rounding::lemma_log2_bounds(m);
        assert(t < precision) by {
            if t > precision {
                lemma_pow2_strictly_increases(precision, t);
            }
        }
        let s: nat = if precision - 1 - t <= e - least {
            (precision - 1 - t) as nat
        } else {
            (e - least) as nat
        };
        let m2 = m * pow2(s);
        let e2 = e - s;
        lemma_pow2_pos(s);
        lemma_pow2_adds(t, s);
        lemma_pow2_adds(t + 1, s);
        assert(pow2(t + s) <= m2 < pow2(t + 1 + s)) by (nonlinear_arith)
            requires
                m2 == m * pow2(s),
                pow2(t) <= m < pow2(t + 1),
                pow2(t + s) == pow2(t) * pow2(s),
                pow2(t + 1 + s) == pow2(t + 1) * pow2(s),
                pow2(s) > 0,
        ;
        if t + 1 + s < precision {
            lemma_pow2_strictly_increases(t + 1 + s, precision);
        }
        rounding::lemma_nearest_exact(precision, least, m2, e2);
        rounding::lemma_scale_positive(e2);
        rounding::lemma_scale_shift(e2, s);
        let (p, q) = (rounding::up(e), rounding::down(e));
        let (p2, q2) = (rounding::up(e2), rounding::down(e2));
        let w = pow2(s);
        assert(p * q2 == p2 * q * w);
        assert(n * q2 == m2 * p2 * d) by {
            assert(q * (n * q2) == (n * q) * q2) by (nonlinear_arith);
            assert((m * p * d) * q2 == (m * d) * (p * q2)) by (nonlinear_arith);
            assert((m * d) * (p2 * q * w) == q * (m * w * p2 * d)) by (nonlinear_arith);
            lemma_mul_equality_converse(q as int, (n * q2) as int, (m2 * p2 * d) as int);
        }
        rounding::lemma_nearest_ratio(precision, least, n, d, m2 * p2, q2);
    }
}

/// Rounding does not cross a number that the format can hold.
pub proof fn lemma_nothing_between(precision: nat, least: int, n: nat, d: nat, m: nat, e: int)
    requires
        d > 0,
        precision > 0,
        m < pow2(precision),
        e >= least,
    ensures
        n * rounding::down(e) <= m * rounding::up(e) * d ==> rounding::dyadic_le(
            rounding::nearest(precision, least, n, d),
            (m, e),
        ),
        n * rounding::down(e) >= m * rounding::up(e) * d ==> rounding::dyadic_le(
            (m, e),
            rounding::nearest(precision, least, n, d),
        ),
{
    let v = rounding::nearest(precision, least, n, d);
    let (p, q) = (rounding::up(e), rounding::down(e));
    rounding::lemma_scale_positive(e);
    rounding::lemma_scale_positive(v.1);
    let w = rounding::nearest(precision, least, m * p, q);
    rounding::lemma_scale_positive(w.1);
    assert((m * p) * q == m * p * q);
    lemma_representable(precision, least, m * p, q, m, e);
    let (a, b) = (v.0 * rounding::up(v.1), rounding::down(v.1));
    let (c, f) = (w.0 * rounding::up(w.1), rounding::down(w.1));
    assert(c * q == m * p * f);
    if n * q <= m * p * d {
        rounding::lemma_nearest_monotone(precision, least, n, d, m * p, q);
        assert(a * f <= c * b);
        assert(a * q <= m * p * b) by {
            assert((a * q) * f == (a * f) * q) by (nonlinear_arith);
            assert((a * f) * q <= (c * b) * q) by (nonlinear_arith)
                requires
                    a * f <= c * b,
            ;
            assert((c * b) * q == (c * q) * b) by (nonlinear_arith);
            assert((m * p * f) * b == (m * p * b) * f) by (nonlinear_arith);
            lemma_mul_inequality_converse((a * q) as int, (m * p * b) as int, f as int);
        }
    }
    if n * q >= m * p * d {
        rounding::lemma_nearest_monotone(precision, least, m * p, q, n, d);
        assert(c * b <= a * f);
        assert(m * p * b <= a * q) by {
            assert((a * q) * f == (a * f) * q) by (nonlinear_arith);
            assert((c * b) * q <= (a * f) * q) by (nonlinear_arith)
                requires
                    c * b <= a * f,
            ;
            assert((c * b) * q == (c * q) * b) by (nonlinear_arith);
            assert((m * p * f) * b == (m * p * b) * f) by (nonlinear_arith);
            lemma_mul_inequality_converse((m * p * b) as int, (a * q) as int, f as int);
        }
    }
}

/// The order of numbers is transitive and total.
pub proof fn lemma_at_most(a: (nat, int), b: (nat, int), c: (nat, int))
    ensures
        binary64::at_most(a, b) || binary64::at_most(b, a),
        binary64::at_most(a, b) && binary64::at_most(b, c) ==> binary64::at_most(a, c),
{
    if binary64::at_most(a, b) && binary64::at_most(b, c) {
        let (an, ad) = (binary64::num(a), binary64::den(a));
        let (bn, bd) = (binary64::num(b), binary64::den(b));
        let (cn, cd) = (binary64::num(c), binary64::den(c));
        binary64::lemma_den_positive(a, b);
        binary64::lemma_den_positive(b, a);
        assert(an * cd <= cn * ad) by {
            assert((an * cd) * bd == (an * bd) * cd) by (nonlinear_arith);
            assert((an * bd) * cd <= (bn * ad) * cd) by (nonlinear_arith)
                requires
                    an * bd <= bn * ad,
            ;
            assert((bn * ad) * cd == (bn * cd) * ad) by (nonlinear_arith);
            assert((bn * cd) * ad <= (cn * bd) * ad) by (nonlinear_arith)
                requires
                    bn * cd <= cn * bd,
            ;
            assert((cn * bd) * ad == (cn * ad) * bd) by (nonlinear_arith);
            lemma_mul_inequality_converse((an * cd) as int, (cn * ad) as int, bd as int);
        }
    }
}

/// Of two ratios the larger is not rounded to the smaller double.
pub proof fn lemma_double_monotone(n: nat, d: nat, n2: nat, d2: nat)
    requires
        d > 0,
        d2 > 0,
        n * d2 <= n2 * d,
    ensures
        binary64::at_most(binary64::double(n, d), binary64::double(n2, d2)),
{
    rounding::lemma_nearest_monotone(53, -1074, n, d, n2, d2);
}

/// Of two numbers the larger has no smaller quotient by a third.
pub proof fn lemma_quotient_monotone(a: (nat, int), b: (nat, int), c: (nat, int))
    requires
        c.0 > 0,
        binary64::at_most(a, b),
    ensures
        binary64::at_most(binary64::quotient(a, c), binary64::quotient(b, c)),
{
    let (an, ad) = (binary64::num(a), binary64::den(a));
    let (bn, bd) = (binary64::num(b), binary64::den(b));
    let (cn, cd) = (binary64::num(c), binary64::den(c));
    binary64::lemma_den_positive(a, c);
    binary64::lemma_den_positive(b, c);
    assert((an * cd) * (bd * cn) <= (bn * cd) * (ad * cn)) by {
        assert((an * cd) * (bd * cn) == (an * bd) * (cd * cn)) by (nonlinear_arith);
        assert((bn * cd) * (ad * cn) == (bn * ad) * (cd * cn)) by (nonlinear_arith);
        assert((an * bd) * (cd * cn) <= (bn * ad) * (cd * cn)) by (nonlinear_arith)
            requires
                an * bd <= bn * ad,
        ;
    }
    lemma_double_monotone(an * cd, ad * cn, bn * cd, bd * cn);
}

/// Of two numbers the larger has no smaller product with a third.
pub proof fn lemma_product_monotone(a: (nat, int), b: (nat, int), c: (nat, int))
    requires
        binary64::at_most(a, b),
    ensures
        binary64::at_most(binary64::product(a, c), binary64::product(b, c)),
{
    let (an, ad) = (binary64::num(a), binary64::den(a));
    let (bn, bd) = (binary64::num(b), binary64::den(b));
    let (cn, cd) = (binary64::num(c), binary64::den(c));
    binary64::lemma_den_positive(a, c);
    binary64::lemma_den_positive(b, c);
    assert((an * cn) * (bd * cd) <= (bn * cn) * (ad * cd)) by {
        assert((an * cn) * (bd * cd) == (an * bd) * (cn * cd)) by (nonlinear_arith);
        assert((bn * cn) * (ad * cd) == (bn * ad) * (cn * cd)) by (nonlinear_arith);
        assert((an * bd) * (cn * cd) <= (bn * ad) * (cn * cd)) by (nonlinear_arith)
            requires
                an * bd <= bn * ad,
        ;
    }
    lemma_double_monotone(an * cn, ad * cd, bn * cn, bd * cd);
}

/// An integer of at most 53 significant bits is a double.
pub proof fn lemma_integer_exact(m: nat, e: nat)
    requires
        m < 0x20_0000_0000_0000,
    ensures
        ({
            let v = binary64::double(m * pow2(e), 1);
            binary64::num(v) == m * pow2(e) * binary64::den(v)
        }),
{
    lemma2_to64();
    lemma2_to64_rest();
    let n = m * pow2(e);
    assert(n * 1 == m * pow2(e) * 1);
    lemma_representable(53, -1074, n, 1, m, e as int);
    let v = binary64::double(n, 1);
    assert(v.0 * rounding::up(v.1) * 1 == v.0 * rounding::up(v.1));
}

} // verus!
