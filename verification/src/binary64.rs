//! Non-negative IEEE 754 double-precision numbers, held as integers.
//!
//! A [`Binary64`] is `m * 2^e` with the significand and the exponent of the IEEE format. Each
//! operation returns the double nearest to the exact result, ties to even, as the hardware does.
use vstd::arithmetic::div_mod::*;
use vstd::arithmetic::mul::*;
use vstd::arithmetic::power2::*;
use vstd::prelude::*;

use crate::order;
use crate::rounding;

verus! {

/// A finite, non-negative double-precision number.
#[derive(Debug, Clone, Copy, PartialEq, Eq)]
pub struct Binary64 {
    mantissa: u64,
    exponent: i32,
}

/// The double nearest to `n / d`.
pub open spec fn double(n: nat, d: nat) -> (nat, int) {
    rounding::nearest(53, -1074, n, d)
}

/// The single-precision number nearest to `n / d`.
pub open spec fn single(n: nat, d: nat) -> (nat, int) {
    rounding::nearest(24, -149, n, d)
}

/// The numerator of `v.0 * 2^v.1`.
pub open spec fn num(v: (nat, int)) -> nat {
    v.0 * rounding::up(v.1)
}

/// The denominator of `v.0 * 2^v.1`.
pub open spec fn den(v: (nat, int)) -> nat {
    rounding::down(v.1)
}

/// The sum of two numbers, exactly.
pub open spec fn exact_sum(a: (nat, int), b: (nat, int)) -> (nat, nat) {
    (num(a) * den(b) + num(b) * den(a), den(a) * den(b))
}

/// The product of two numbers, exactly.
pub open spec fn exact_product(a: (nat, int), b: (nat, int)) -> (nat, nat) {
    (num(a) * num(b), den(a) * den(b))
}

/// The quotient of two numbers, exactly.
pub open spec fn exact_quotient(a: (nat, int), b: (nat, int)) -> (nat, nat) {
    (num(a) * den(b), den(a) * num(b))
}

/// The sum in double precision.
pub open spec fn sum(a: (nat, int), b: (nat, int)) -> (nat, int) {
    double(exact_sum(a, b).0, exact_sum(a, b).1)
}

/// The product in double precision.
pub open spec fn product(a: (nat, int), b: (nat, int)) -> (nat, int) {
    double(exact_product(a, b).0, exact_product(a, b).1)
}

/// The quotient in double precision.
pub open spec fn quotient(a: (nat, int), b: (nat, int)) -> (nat, int) {
    double(exact_quotient(a, b).0, exact_quotient(a, b).1)
}

/// The sum in single precision.
pub open spec fn sum_single(a: (nat, int), b: (nat, int)) -> (nat, int) {
    single(exact_sum(a, b).0, exact_sum(a, b).1)
}

/// The quotient in single precision.
pub open spec fn quotient_single(a: (nat, int), b: (nat, int)) -> (nat, int) {
    single(exact_quotient(a, b).0, exact_quotient(a, b).1)
}

/// `v` is a finite double: it fits the format's exponent range.
pub open spec fn finite(v: (nat, int)) -> bool {
    v.1 <= 971
}

/// `v` is a finite single-precision number.
pub open spec fn finite_single(v: (nat, int)) -> bool {
    v.1 <= 104
}

impl View for Binary64 {
    type V = (nat, int);

    /// The significand and the exponent.
    closed spec fn view(&self) -> (nat, int) {
        (self.mantissa as nat, self.exponent as int)
    }
}

impl Binary64 {
    #[verifier::type_invariant]
    spec fn canonical(self) -> bool {
        &&& self.mantissa < 0x20_0000_0000_0000
        &&& -1074 <= self.exponent <= 971
        &&& self.exponent > -1074 ==> self.mantissa >= 0x10_0000_0000_0000
    }
}

proof fn lemma_powers()
    ensures
        pow2(24) == 0x100_0000,
        pow2(23) == 0x80_0000,
        pow2(52) == 0x10_0000_0000_0000,
        pow2(53) == 0x20_0000_0000_0000,
        pow2(56) == 0x100_0000_0000_0000,
        pow2(64) == 0x1_0000_0000_0000_0000,
        pow2(66) == 0x4_0000_0000_0000_0000,
        pow2(120) == 0x100_0000_0000_0000_0000_0000_0000_0000,
{
    lemma2_to64();
    lemma2_to64_rest();
    lemma_pow2_adds(56, 64);
    lemma_pow2_adds(64, 2);
}

/// `2^s`.
pub(crate) fn power_of_two(s: u32) -> (w: u128)
    requires
        s <= 120,
    ensures
        w == pow2(s as nat),
        0 < w <= 0x100_0000_0000_0000_0000_0000_0000_0000,
{
    let mut w: u128 = 1;
    let mut i: u32 = 0;
    proof {
        lemma2_to64();
        lemma_powers();
    }
    while i < s
        invariant
            i <= s <= 120,
            w == pow2(i as nat),
            pow2(120) == 0x100_0000_0000_0000_0000_0000_0000_0000,
        decreases s - i,
    {
        proof {
            lemma_pow2_unfold((i + 1) as nat);
            if i + 1 < 120 {
                lemma_pow2_strictly_increases((i + 1) as nat, 120);
            }
        }
        w = 2 * w;
        i = i + 1;
    }
    proof {
        lemma_pow2_pos(s as nat);
        if s < 120 {
            lemma_pow2_strictly_increases(s as nat, 120);
        }
    }
    w
}

/// The number of binary digits of `q`.
fn bit_length(q: u128) -> (len: u32)
    requires
        0 < q < 0x100_0000_0000_0000_0000_0000_0000_0000,
    ensures
        len == rounding::log2(q as nat) + 1,
        1 <= len <= 120,
{
    let mut rest: u128 = q;
    let mut len: u32 = 1;
    proof {
        lemma_powers();
        rounding::lemma_log2_bounds(q as nat);
        if rounding::log2(q as nat) > 120 {
            lemma_pow2_strictly_increases(120, rounding::log2(q as nat));
        }
    }
    while rest >= 2
        invariant
            rest >= 1,
            len >= 1,
            rounding::log2(q as nat) < 120,
            rounding::log2(q as nat) + 1 == len + rounding::log2(rest as nat),
        decreases rest,
    {
        rest = rest / 2;
        len = len + 1;
    }
    len
}

/// Rounds `n / d` to `precision` bits, given its integer part `q` in units of `2^e` and whether
/// that is all of it.
fn round_quotient(
    precision: u32,
    least: i32,
    q: u128,
    exact: bool,
    e: i32,
    Ghost(n): Ghost<nat>,
    Ghost(d): Ghost<nat>,
) -> (r: (u64, i32))
    requires
        precision == 24 || precision == 53,
        -1074 <= least <= -149,
        0x20_0000_0000_0000 <= q < 0x100_0000_0000_0000_0000_0000_0000_0000,
        -4000 <= e <= 4000,
        d > 0,
        q * (d * rounding::up(e as int)) <= n * rounding::down(e as int) < (q + 1) * (d
            * rounding::up(e as int)),
        exact == (q * (d * rounding::up(e as int)) == n * rounding::down(e as int)),
    ensures
        rounding::nearest(precision as nat, least as int, n, d) == (r.0 as nat, r.1 as int),
{
    let len: u32 = bit_length(q);
    proof {
        lemma_powers();
        rounding::lemma_log2_bounds(q as nat);
        if len < 54 {
            if len < 53 {
                lemma_pow2_strictly_increases(len as nat, 53);
            }
        }
    }
    let by_precision: i32 = len as i32 - precision as i32;
    let by_least: i32 = least - e;
    let s: i32 = if by_precision > by_least {
        by_precision
    } else {
        by_least
    };
    let last: i32 = e + s;
    proof {
        rounding::lemma_nearest_of_quotient(
            precision as nat,
            least as int,
            n,
            d,
            q as nat,
            e as int,
            s as nat,
        );
        rounding::lemma_significand(precision as nat, least as int, n, d);
    }
    let m: u128 = if s > 120 {
        proof {
            if s > 121 {
                lemma_pow2_strictly_increases(120, (s - 1) as nat);
            }
            lemma_pow2_strictly_increases((s - 1) as nat, s as nat);
            lemma_basic_div(q as int, pow2(s as nat) as int);
            lemma_small_mod(q as nat, pow2(s as nat));
        }
        0
    } else {
        let w: u128 = power_of_two(s as u32);
        proof {
            lemma_pow2_unfold(s as nat);
        }
        let half: u128 = w / 2;
        let kept: u128 = q / w;
        let cut: u128 = q % w;
        if cut < half || (cut == half && exact && kept % 2 == 0) {
            kept
        } else {
            kept + 1
        }
    };
    assert(m == rounding::significand(precision as nat, least as int, n, d));
    let full: u64 = if precision == 24 {
        0x100_0000
    } else {
        0x20_0000_0000_0000
    };
    let m: u64 = m as u64;
    if m == full {
        (full / 2, last + 1)
    } else {
        (m, last)
    }
}

/// Doubling the significand while halving the unit from `a / b` to `c / f` keeps the value.
proof fn lemma_double_significand(
    m: nat,
    k: nat,
    a: nat,
    b: nat,
    c: nat,
    f: nat,
    x: nat,
    y: nat,
)
    requires
        a * f == c * b * 2,
        m * a * y == k * x * b,
        b > 0,
    ensures
        (2 * m) * c * y == k * x * f,
{
    assert(((2 * m) * c * y) * b == (m * y) * (c * b * 2)) by (nonlinear_arith);
    assert((m * y) * (a * f) == (m * a * y) * f) by (nonlinear_arith);
    assert((k * x * b) * f == (k * x * f) * b) by (nonlinear_arith);
    lemma_mul_equality_converse(b as int, ((2 * m) * c * y) as int, (k * x * f) as int);
}

/// The same number with a significand of exactly 53 bits.
fn normalize(mantissa: u64, exponent: i32) -> (r: (u64, i32))
    requires
        0 < mantissa < 0x20_0000_0000_0000,
        -1200 <= exponent <= 1000,
    ensures
        0x10_0000_0000_0000 <= r.0 < 0x20_0000_0000_0000,
        exponent - 53 <= r.1 <= exponent,
        r.0 * rounding::up(r.1 as int) * rounding::down(exponent as int) == mantissa * rounding::up(
            exponent as int,
        ) * rounding::down(r.1 as int),
{
    let mut m: u64 = mantissa;
    let mut e: i32 = exponent;
    let mut i: u32 = 0;
    proof {
        lemma2_to64();
    }
    while m < 0x10_0000_0000_0000
        invariant
            0 < m < 0x20_0000_0000_0000,
            -1200 <= exponent <= 1000,
            i <= 53,
            e == exponent - i,
            m >= pow2(i as nat),
            m * rounding::up(e as int) * rounding::down(exponent as int) == mantissa * rounding::up(
                exponent as int,
            ) * rounding::down(e as int),
        decreases 0x20_0000_0000_0000 - m,
    {
        proof {
            lemma_powers();
            if i == 53 {
                assert(m >= pow2(53));
            }
            lemma_pow2_unfold((i + 1) as nat);
            lemma2_to64();
            rounding::lemma_scale_shift(e - 1, 1);
            rounding::lemma_scale_positive(e as int);
            rounding::lemma_scale_positive(e - 1);
            lemma_double_significand(
                m as nat,
                mantissa as nat,
                rounding::up(e as int),
                rounding::down(e as int),
                rounding::up(e - 1),
                rounding::down(e - 1),
                rounding::up(exponent as int),
                rounding::down(exponent as int),
            );
        }
        m = 2 * m;
        e = e - 1;
        i = i + 1;
    }
    (m, e)
}

/// `n / d` in units of `2^x`, when `n / d` times `w / 2^x` is `m * w + t`.
proof fn lemma_quotient_parts(a: nat, b: nat, m: nat, t: nat, w: nat)
    requires
        b > 0,
        w > 0,
        a * w == b * (m * w + t),
    ensures
        (m + t / w) * b <= a < (m + t / w + 1) * b,
        (m + t / w) * b == a <==> t % w == 0,
{
    let k = t / w;
    let r = t % w;
    lemma_fundamental_div_mod(t as int, w as int);
    lemma_mod_bound(t as int, w as int);
    let q = m + k;
    assert(a * w == b * (q * w) + b * r) by (nonlinear_arith)
        requires
            a * w == b * (m * w + t),
            t == w * k + r,
            q == m + k,
    ;
    assert(q * b <= a) by (nonlinear_arith)
        requires
            a * w == b * (q * w) + b * r,
            w > 0,
            r >= 0,
    ;
    assert(a < (q + 1) * b) by (nonlinear_arith)
        requires
            a * w == b * (q * w) + b * r,
            b > 0,
            r < w,
            w > 0,
    ;
    assert((q * b == a) == (r == 0)) by (nonlinear_arith)
        requires
            a * w == b * (q * w) + b * r,
            b > 0,
            w > 0,
            r >= 0,
    ;
}

/// The sum `a * 2^ea + b * 2^eb` in units of `2^(ea - 66)`, for `ea = eb + gap`.
proof fn lemma_sum_parts(a: nat, ea: int, b: nat, eb: int)
    requires
        ea >= eb,
    ensures
        ({
            let n = num((a, ea)) * den((b, eb)) + num((b, eb)) * den((a, ea));
            let d = den((a, ea)) * den((b, eb));
            let w = pow2((ea - eb) as nat);
            (n * rounding::down(ea - 66)) * w == (d * rounding::up(ea - 66)) * ((a * pow2(66)) * w
                + b * pow2(66))
        }),
{
    let x = ea - 66;
    let w = pow2((ea - eb) as nat);
    let (u, v) = (rounding::up(ea), rounding::down(ea));
    let (f, g) = (rounding::up(eb), rounding::down(eb));
    let (p, q) = (rounding::up(x), rounding::down(x));
    let z = pow2(66);
    rounding::lemma_scale_shift(x, 66);
    rounding::lemma_scale_shift(eb, (ea - eb) as nat);
    assert(u * q == p * v * z);
    assert(u * g == f * v * w);
    let n = a * u * g + b * f * v;
    assert(n * w == (u * g) * (a * w + b)) by (nonlinear_arith)
        requires
            n == a * u * g + b * f * v,
            u * g == f * v * w,
    ;
    assert((n * q) * w == (v * g * p) * ((a * z) * w + b * z)) by {
        let s = a * w + b;
        assert((n * q) * w == (n * w) * q) by (nonlinear_arith);
        assert(((u * g) * s) * q == (u * q) * (g * s)) by (nonlinear_arith);
        assert((p * v * z) * (g * s) == (v * g * p) * (s * z)) by (nonlinear_arith);
        assert(s * z == (a * z) * w + b * z) by (nonlinear_arith)
            requires
                s == a * w + b,
        ;
    }
    assert((v * g) * p == v * g * p);
}

/// The quotient of `a * 2^ea` by `b * 2^eb` in units of `2^(ea - eb - 64)`.
proof fn lemma_quotient_units(a: nat, ea: int, b: nat, eb: int)
    requires
        b > 0,
    ensures
        ({
            let n = num((a, ea)) * den((b, eb));
            let d = den((a, ea)) * num((b, eb));
            let x = ea - eb - 64;
            (n * rounding::down(x)) * b == (d * rounding::up(x)) * (a * pow2(64))
        }),
{
    let y = ea - eb;
    let x = y - 64;
    let (u, v) = (rounding::up(ea), rounding::down(ea));
    let (f, g) = (rounding::up(eb), rounding::down(eb));
    let (p, q) = (rounding::up(x), rounding::down(x));
    let (r, s) = (rounding::up(y), rounding::down(y));
    let z = pow2(64);
    lemma2_to64();
    rounding::lemma_scale_adds(ea, -eb);
    rounding::lemma_scale_shift(x, 64);
    rounding::lemma_scale_positive(y);
    assert(rounding::up(-eb) == g && rounding::down(-eb) == f);
    assert(r * (v * f) == u * g * s);
    assert(r * q == p * s * z);
    let n = a * u * g;
    let d = v * (b * f);
    assert(u * g * q == v * f * p * z) by {
        assert((u * g * q) * s == (u * g * s) * q) by (nonlinear_arith);
        assert((r * (v * f)) * q == (r * q) * (v * f)) by (nonlinear_arith);
        assert((p * s * z) * (v * f) == (v * f * p * z) * s) by (nonlinear_arith);
        lemma_mul_is_commutative(s as int, (u * g * q) as int);
        lemma_mul_is_commutative(s as int, (v * f * p * z) as int);
        lemma_mul_equality_converse(s as int, (u * g * q) as int, (v * f * p * z) as int);
    }
    assert((n * q) * b == (a * b) * (u * g * q)) by (nonlinear_arith)
        requires
            n == a * u * g,
    ;
    assert((a * b) * (v * f * p * z) == (d * p) * (a * z)) by (nonlinear_arith)
        requires
            d == v * (b * f),
    ;
}

/// Rounds the sum of two numbers.
fn rounded_sum(precision: u32, least: i32, a: Binary64, b: Binary64) -> (r: (u64, i32))
    requires
        precision == 24 || precision == 53,
        -1074 <= least <= -149,
    ensures
        rounding::nearest(
            precision as nat,
            least as int,
            num(a@) * den(b@) + num(b@) * den(a@),
            den(a@) * den(b@),
        ) == (r.0 as nat, r.1 as int),
{
    proof {
        use_type_invariant(&a);
        use_type_invariant(&b);
        rounding::lemma_scale_positive(a@.1);
        rounding::lemma_scale_positive(b@.1);
        assert(den(a@) * den(b@) > 0) by (nonlinear_arith)
            requires
                den(a@) > 0,
                den(b@) > 0,
        ;
    }
    let (big, small): (Binary64, Binary64) = if a.exponent >= b.exponent {
        (a, b)
    } else {
        (b, a)
    };
    let ghost n = num(big@) * den(small@) + num(small@) * den(big@);
    let ghost d = den(big@) * den(small@);
    proof {
        assert(den(a@) * den(b@) == d) by {
            lemma_mul_is_commutative(den(a@) as int, den(b@) as int);
        }
        lemma_powers();
    }
    if big.mantissa == 0 {
        // the larger exponent is then the least one, and both numbers are zero or subnormal
        if small.mantissa == 0 {
            proof {
                assert(n == 0) by (nonlinear_arith)
                    requires
                        n == 0 * rounding::up(big@.1) * den(small@) + 0 * rounding::up(small@.1) * den(
                            big@,
                        ),
                ;
                rounding::lemma_nearest_form(precision as nat, least as int, n, d);
            }
            return (0, least);
        }
    }
    let gap: i32 = big.exponent - small.exponent;
    let shifted: u128 = small.mantissa as u128 * 0x4_0000_0000_0000_0000;
    let (tail, exact): (u128, bool) = if gap > 120 {
        proof {
            let w = pow2(gap as nat);
            lemma_pow2_strictly_increases(120, gap as nat);
            lemma_basic_div(shifted as int, w as int);
            lemma_small_mod(shifted as nat, w);
        }
        (0, shifted == 0)
    } else {
        let w: u128 = power_of_two(gap as u32);
        proof {
            lemma2_to64();
            lemma_div_nonincreasing(shifted as int, w as int);
            lemma_div_basics(shifted as int);
            assert(gap == 0 ==> w == 1);
        }
        (shifted / w, shifted % w == 0)
    };
    assert(tail <= shifted);
    assert(gap == 0 ==> tail == shifted);
    let q: u128 = big.mantissa as u128 * 0x4_0000_0000_0000_0000 + tail;
    proof {
        let w = pow2(gap as nat);
        lemma_pow2_pos(gap as nat);
        let x = big.exponent - 66;
        rounding::lemma_scale_positive(x);
        lemma_sum_parts(big@.0, big@.1, small@.0, small@.1);
        assert(d * rounding::up(x) > 0) by (nonlinear_arith)
            requires
                d > 0,
                rounding::up(x) > 0,
        ;
        lemma_quotient_parts(
            n * rounding::down(x),
            d * rounding::up(x),
            big@.0 * pow2(66),
            small@.0 * pow2(66),
            w,
        );
    }
    round_quotient(precision, least, q, exact, big.exponent - 66, Ghost(n), Ghost(d))
}

/// Rounds the quotient of two numbers.
fn rounded_quotient(precision: u32, least: i32, a: Binary64, b: Binary64) -> (r: (u64, i32))
    requires
        precision == 24 || precision == 53,
        -1074 <= least <= -149,
        b@.0 > 0,
    ensures
        rounding::nearest(
            precision as nat,
            least as int,
            num(a@) * den(b@),
            den(a@) * num(b@),
        ) == (r.0 as nat, r.1 as int),
{
    let ghost n = num(a@) * den(b@);
    let ghost d = den(a@) * num(b@);
    proof {
        use_type_invariant(&a);
        use_type_invariant(&b);
        rounding::lemma_scale_positive(a@.1);
        rounding::lemma_scale_positive(b@.1);
        assert(d > 0) by (nonlinear_arith)
            requires
                d == den(a@) * (b@.0 * rounding::up(b@.1)),
                den(a@) > 0,
                b@.0 > 0,
                rounding::up(b@.1) > 0,
        ;
        lemma_powers();
    }
    if a.mantissa == 0 {
        proof {
            assert(n == 0) by (nonlinear_arith)
                requires
                    n == 0 * rounding::up(a@.1) * den(b@),
            ;
            rounding::lemma_nearest_form(precision as nat, least as int, n, d);
        }
        return (0, least);
    }
    let (ma, ea): (u64, i32) = normalize(a.mantissa, a.exponent);
    let (mb, eb): (u64, i32) = normalize(b.mantissa, b.exponent);
    let dividend: u128 = ma as u128 * 0x1_0000_0000_0000_0000;
    let q: u128 = dividend / mb as u128;
    let exact: bool = dividend % mb as u128 == 0;
    let e: i32 = ea - eb - 64;
    let ghost (va, vb) = ((ma as nat, ea as int), (mb as nat, eb as int));
    let ghost n2 = num(va) * den(vb);
    let ghost d2 = den(va) * num(vb);
    proof {
        rounding::lemma_scale_positive(ea as int);
        rounding::lemma_scale_positive(eb as int);
        rounding::lemma_scale_positive(e as int);
        assert(d2 * rounding::up(e as int) > 0) by (nonlinear_arith)
            requires
                d2 == den(va) * (vb.0 * rounding::up(vb.1)),
                den(va) > 0,
                vb.0 > 0,
                rounding::up(vb.1) > 0,
                rounding::up(e as int) > 0,
        ;
        lemma_quotient_units(va.0, va.1, vb.0, vb.1);
        lemma_quotient_parts(
            n2 * rounding::down(e as int),
            d2 * rounding::up(e as int),
            0,
            dividend as nat,
            mb as nat,
        );
        assert(q >= 0x8000_0000_0000_0000 && q < 0x4_0000_0000_0000_0000) by (nonlinear_arith)
            requires
                q == dividend / mb as u128,
                dividend == ma * 0x1_0000_0000_0000_0000,
                0x10_0000_0000_0000 <= ma < 0x20_0000_0000_0000,
                0x10_0000_0000_0000 <= mb < 0x20_0000_0000_0000,
        ;
        // the normalized operands have the same quotient
        assert(n * d2 == n2 * d && d2 > 0) by {
            let (x, y, x2, y2) = (num(a@), den(a@), num(va), den(va));
            let (f, g, f2, g2) = (num(b@), den(b@), num(vb), den(vb));
            assert(x2 * y == x * y2);
            assert(f2 * g == f * g2);
            assert((x * g) * (y2 * f2) == (x * y2) * (f2 * g)) by (nonlinear_arith);
            assert((x2 * y) * (f * g2) == (x2 * g2) * (y * f)) by (nonlinear_arith);
            assert(d2 > 0) by (nonlinear_arith)
                requires
                    d2 * rounding::up(e as int) > 0,
            ;
        }
        rounding::lemma_nearest_ratio(precision as nat, least as int, n, d, n2, d2);
    }
    round_quotient(precision, least, q, exact, e, Ghost(n2), Ghost(d2))
}

/// Rounds an integer.
fn rounded_integer(precision: u32, least: i32, v: u64) -> (r: (u64, i32))
    requires
        precision == 24 || precision == 53,
        -1074 <= least <= -149,
    ensures
        rounding::nearest(precision as nat, least as int, v as nat, 1) == (r.0 as nat, r.1 as int),
{
    if v == 0 {
        proof {
            rounding::lemma_nearest_form(precision as nat, least as int, 0, 1);
        }
        return (0, least);
    }
    let q: u128 = v as u128 * 0x100_0000_0000_0000;
    proof {
        lemma_powers();
        let (p, w) = (rounding::up(-56), rounding::down(-56));
        assert(p == 1 && w == 0x100_0000_0000_0000);
        assert(q * (1 * p) == v * w) by (nonlinear_arith)
            requires
                q == v * 0x100_0000_0000_0000,
                p == 1,
                w == 0x100_0000_0000_0000,
        ;
        assert((q + 1) * (1 * p) == q + 1) by (nonlinear_arith)
            requires
                p == 1,
        ;
    }
    round_quotient(precision, least, q, true, -56, Ghost(v as nat), Ghost(1))
}

impl Binary64 {
    /// A double as a number, from what the rounding of a finite one gave.
    fn from_rounded(r: (u64, i32), Ghost(n): Ghost<nat>, Ghost(d): Ghost<nat>) -> (x: Binary64)
        requires
            d > 0,
            double(n, d) == (r.0 as nat, r.1 as int),
            finite(double(n, d)),
        ensures
            x@ == double(n, d),
    {
        proof {
            lemma_powers();
            rounding::lemma_nearest_form(53, -1074, n, d);
        }
        Binary64 { mantissa: r.0, exponent: r.1 }
    }

    /// The double nearest to an integer.
    pub fn from_u64(v: u64) -> (x: Binary64)
        ensures
            x@ == double(v as nat, 1),
    {
        proof {
            lemma_powers();
            rounding::lemma_nearest_exponent(53, -1074, v as nat, 1, 64);
        }
        Binary64::from_rounded(rounded_integer(53, -1074, v), Ghost(v as nat), Ghost(1))
    }

    /// The sum, rounded to double precision.
    pub fn plus(self, other: Binary64) -> (x: Binary64)
        requires
            finite(sum(self@, other@)),
        ensures
            x@ == sum(self@, other@),
    {
        proof {
            lemma_den_positive(self@, other@);
        }
        Binary64::from_rounded(
            rounded_sum(53, -1074, self, other),
            Ghost(num(self@) * den(other@) + num(other@) * den(self@)),
            Ghost(den(self@) * den(other@)),
        )
    }

    /// The quotient, rounded to double precision.
    pub fn divided_by(self, other: Binary64) -> (x: Binary64)
        requires
            other@.0 > 0,
            finite(quotient(self@, other@)),
        ensures
            x@ == quotient(self@, other@),
    {
        proof {
            lemma_den_positive(self@, other@);
        }
        Binary64::from_rounded(
            rounded_quotient(53, -1074, self, other),
            Ghost(num(self@) * den(other@)),
            Ghost(den(self@) * num(other@)),
        )
    }
}

/// The double that a single-precision number is.
pub open spec fn widened(v: (nat, int)) -> (nat, int) {
    double(num(v), den(v))
}

/// The bit pattern of the double `v.0 * 2^v.1`.
pub open spec fn bits(v: (nat, int)) -> int {
    if v.0 < 0x10_0000_0000_0000 {
        v.0 as int
    } else {
        (v.1 + 1075) * 0x10_0000_0000_0000 + (v.0 - 0x10_0000_0000_0000)
    }
}

/// `v` is how a finite double is written.
pub open spec fn is_double(v: (nat, int)) -> bool {
    &&& v.0 < 0x20_0000_0000_0000
    &&& -1074 <= v.1 <= 971
    &&& v.1 > -1074 ==> v.0 >= 0x10_0000_0000_0000
}

/// `a <= b`, as numbers.
pub open spec fn at_most(a: (nat, int), b: (nat, int)) -> bool {
    num(a) * den(b) <= num(b) * den(a)
}

impl Binary64 {
    /// The product, rounded to double precision.
    pub fn times(self, other: Binary64) -> (x: Binary64)
        requires
            finite(product(self@, other@)),
        ensures
            x@ == product(self@, other@),
    {
        let ghost n = num(self@) * num(other@);
        let ghost d = den(self@) * den(other@);
        proof {
            lemma_den_positive(self@, other@);
            lemma_den_positive(other@, self@);
        }
        if self.mantissa == 0 || other.mantissa == 0 {
            proof {
                assert(n == 0) by (nonlinear_arith)
                    requires
                        n == (self@.0 * rounding::up(self@.1)) * (other@.0 * rounding::up(other@.1)),
                        self@.0 == 0 || other@.0 == 0,
                ;
                rounding::lemma_nearest_form(53, -1074, n, d);
            }
            return Binary64 { mantissa: 0, exponent: -1074 };
        }
        proof {
            use_type_invariant(&self);
            use_type_invariant(&other);
            lemma_powers();
        }
        let (ma, ea): (u64, i32) = normalize(self.mantissa, self.exponent);
        let (mb, eb): (u64, i32) = normalize(other.mantissa, other.exponent);
        let e: i32 = ea + eb;
        proof {
            assert(ma * mb >= 0x20_0000_0000_0000 && ma * mb
                < 0x100_0000_0000_0000_0000_0000_0000_0000) by (nonlinear_arith)
                requires
                    0x10_0000_0000_0000 <= ma < 0x20_0000_0000_0000,
                    0x10_0000_0000_0000 <= mb < 0x20_0000_0000_0000,
            ;
        }
        let q: u128 = ma as u128 * mb as u128;
        let ghost (va, vb) = ((ma as nat, ea as int), (mb as nat, eb as int));
        let ghost n2 = num(va) * num(vb);
        let ghost d2 = den(va) * den(vb);
        proof {
            lemma_den_positive(va, vb);
            rounding::lemma_scale_positive(e as int);
            lemma_product_units(va.0, va.1, vb.0, vb.1);
            assert((q + 1) * (d2 * rounding::up(e as int)) > q * (d2 * rounding::up(e as int)))
                by (nonlinear_arith)
                requires
                    d2 > 0,
                    rounding::up(e as int) > 0,
            ;
            assert(n * d2 == n2 * d) by {
                let (x, y, x2, y2) = (num(self@), den(self@), num(va), den(va));
                let (f, g, f2, g2) = (num(other@), den(other@), num(vb), den(vb));
                assert(x2 * y == x * y2);
                assert(f2 * g == f * g2);
                assert((x * f) * (y2 * g2) == (x * y2) * (f * g2)) by (nonlinear_arith);
                assert((x2 * y) * (f2 * g) == (x2 * f2) * (y * g)) by (nonlinear_arith);
            }
            rounding::lemma_nearest_ratio(53, -1074, n, d, n2, d2);
        }
        Binary64::from_rounded(
            round_quotient(53, -1074, q, true, e, Ghost(n2), Ghost(d2)),
            Ghost(n),
            Ghost(d),
        )
    }

    /// A finite single-precision number as a double, from what the rounding gave.
    fn widen(r: (u64, i32), Ghost(n): Ghost<nat>, Ghost(d): Ghost<nat>) -> (x: Binary64)
        requires
            d > 0,
            single(n, d) == (r.0 as nat, r.1 as int),
            finite_single(single(n, d)),
        ensures
            x@ == widened(single(n, d)),
    {
        let ghost v = (r.0 as nat, r.1 as int);
        proof {
            lemma_powers();
            rounding::lemma_nearest_form(24, -149, n, d);
            lemma_den_positive(v, v);
        }
        if r.0 == 0 {
            proof {
                rounding::lemma_nearest_form(53, -1074, num(v), den(v));
            }
            return Binary64 { mantissa: 0, exponent: -1074 };
        }
        let (m, e): (u64, i32) = normalize(r.0, r.1);
        proof {
            let w = (m as nat, e as int);
            lemma_den_positive(w, w);
            rounding::lemma_nearest_exact(53, -1074, m as nat, e as int);
            rounding::lemma_nearest_ratio(53, -1074, num(v), den(v), num(w), den(w));
        }
        Binary64 { mantissa: m, exponent: e }
    }

    /// The single-precision number nearest to an integer.
    pub fn single_from_u64(v: u64) -> (x: Binary64)
        ensures
            x@ == widened(single(v as nat, 1)),
    {
        proof {
            lemma_powers();
            rounding::lemma_nearest_exponent(24, -149, v as nat, 1, 64);
        }
        Binary64::widen(rounded_integer(24, -149, v), Ghost(v as nat), Ghost(1))
    }

    /// The sum, rounded to single precision.
    pub fn plus_single(self, other: Binary64) -> (x: Binary64)
        requires
            finite_single(sum_single(self@, other@)),
        ensures
            x@ == widened(sum_single(self@, other@)),
    {
        proof {
            lemma_den_positive(self@, other@);
        }
        Binary64::widen(
            rounded_sum(24, -149, self, other),
            Ghost(num(self@) * den(other@) + num(other@) * den(self@)),
            Ghost(den(self@) * den(other@)),
        )
    }

    /// The quotient, rounded to single precision.
    pub fn divided_by_single(self, other: Binary64) -> (x: Binary64)
        requires
            other@.0 > 0,
            finite_single(quotient_single(self@, other@)),
        ensures
            x@ == widened(quotient_single(self@, other@)),
    {
        proof {
            lemma_den_positive(self@, other@);
        }
        Binary64::widen(
            rounded_quotient(24, -149, self, other),
            Ghost(num(self@) * den(other@)),
            Ghost(den(self@) * num(other@)),
        )
    }

    /// Whether this number is at most the other.
    pub fn is_at_most(&self, other: &Binary64) -> (r: bool)
        ensures
            r == at_most(self@, other@),
    {
        proof {
            use_type_invariant(self);
            use_type_invariant(other);
            lemma_canonical_order(self@, other@);
            lemma_canonical_order(other@, self@);
        }
        self.exponent < other.exponent || (self.exponent == other.exponent && self.mantissa
            <= other.mantissa)
    }

    /// Whether this number is zero.
    pub fn is_zero(&self) -> (r: bool)
        ensures
            r == (self@.0 == 0),
    {
        self.mantissa == 0
    }

    /// The integer part, or the largest `u64` where that is less.
    pub fn to_u64(&self) -> (v: u64)
        ensures
            v == if num(self@) / den(self@) <= u64::MAX {
                num(self@) / den(self@)
            } else {
                u64::MAX as nat
            },
    {
        proof {
            use_type_invariant(self);
            lemma_powers();
            lemma2_to64();
        }
        if self.exponent >= 0 {
            proof {
                lemma_div_basics(num(self@) as int);
            }
            if self.exponent >= 64 {
                proof {
                    let w = pow2(self.exponent as nat);
                    if self.exponent > 64 {
                        lemma_pow2_strictly_increases(64, self.exponent as nat);
                    }
                    assert(self.mantissa * w >= w) by (nonlinear_arith)
                        requires
                            self.mantissa >= 1,
                    ;
                }
                return u64::MAX;
            }
            let w: u128 = power_of_two(self.exponent as u32);
            proof {
                if self.exponent < 64 {
                    lemma_pow2_strictly_increases(self.exponent as nat, 64);
                }
                assert(self.mantissa * w <= 0x20_0000_0000_0000 * 0x1_0000_0000_0000_0000)
                    by (nonlinear_arith)
                    requires
                        self.mantissa <= 0x20_0000_0000_0000,
                        w <= 0x1_0000_0000_0000_0000,
                ;
            }
            let v: u128 = self.mantissa as u128 * w;
            if v <= u64::MAX as u128 {
                v as u64
            } else {
                u64::MAX
            }
        } else {
            proof {
                assert(num(self@) == self.mantissa) by (nonlinear_arith)
                    requires
                        num(self@) == self.mantissa * 1,
                ;
            }
            if self.exponent < -64 {
                proof {
                    lemma_pow2_strictly_increases(64, (-self.exponent) as nat);
                    lemma_basic_div(self.mantissa as int, den(self@) as int);
                }
                return 0;
            }
            let w: u128 = power_of_two((-self.exponent) as u32);
            proof {
                lemma_div_nonincreasing(self.mantissa as int, w as int);
            }
            (self.mantissa as u128 / w) as u64
        }
    }

    /// The significand and the exponent.
    pub fn parts(&self) -> (r: (u64, i32))
        ensures
            self@ == (r.0 as nat, r.1 as int),
            r.0 < 0x20_0000_0000_0000,
            -1074 <= r.1 <= 971,
    {
        proof {
            use_type_invariant(self);
        }
        (self.mantissa, self.exponent)
    }

    /// The bit pattern of the number.
    pub fn to_bits(&self) -> (b: u64)
        ensures
            b == bits(self@),
            is_double(self@),
    {
        proof {
            use_type_invariant(self);
        }
        if self.mantissa < 0x10_0000_0000_0000 {
            self.mantissa
        } else {
            (self.exponent + 1075) as u64 * 0x10_0000_0000_0000 + (self.mantissa
                - 0x10_0000_0000_0000)
        }
    }

    /// The number with a given bit pattern; none for a pattern of an infinity, of what is not a
    /// number, or with the sign bit set.
    pub fn from_bits(b: u64) -> (r: Option<Binary64>)
        ensures
            r is Some <==> b < 0x7ff0_0000_0000_0000,
            r matches Some(x) ==> bits(x@) == b && is_double(x@),
    {
        if b >= 0x7ff0_0000_0000_0000 {
            return None;
        }
        let field: u64 = b / 0x10_0000_0000_0000;
        let rest: u64 = b % 0x10_0000_0000_0000;
        if field == 0 {
            Some(Binary64 { mantissa: rest, exponent: -1074 })
        } else {
            Some(Binary64 { mantissa: rest + 0x10_0000_0000_0000, exponent: field as i32 - 1075 })
        }
    }
}

/// The order of two doubles is that of exponent, then significand.
proof fn lemma_canonical_order(a: (nat, int), b: (nat, int))
    requires
        a.0 < 0x20_0000_0000_0000,
        b.0 < 0x20_0000_0000_0000,
        a.1 >= -1074,
        b.1 > -1074 ==> b.0 >= 0x10_0000_0000_0000,
    ensures
        a.1 < b.1 ==> num(a) * den(b) < num(b) * den(a),
        a.1 == b.1 ==> (num(a) * den(b) <= num(b) * den(a) <==> a.0 <= b.0),
{
    let (u, v) = (rounding::up(a.1), rounding::down(a.1));
    let (f, g) = (rounding::up(b.1), rounding::down(b.1));
    rounding::lemma_scale_positive(a.1);
    rounding::lemma_scale_positive(b.1);
    if a.1 < b.1 {
        let k = (b.1 - a.1) as nat;
        rounding::lemma_scale_shift(a.1, k);
        lemma_pow2_unfold(k);
        lemma_pow2_pos((k - 1) as nat);
        assert(f * v == u * g * pow2(k));
        assert(b.0 * pow2(k) > a.0) by (nonlinear_arith)
            requires
                b.0 >= 0x10_0000_0000_0000,
                a.0 < 0x20_0000_0000_0000,
                pow2(k) >= 2,
        ;
        assert(b.0 * f * v == (b.0 * pow2(k)) * (u * g)) by (nonlinear_arith)
            requires
                f * v == u * g * pow2(k),
        ;
        assert(a.0 * u * g == a.0 * (u * g)) by (nonlinear_arith);
        assert(u * g > 0) by (nonlinear_arith)
            requires
                u > 0,
                g > 0,
        ;
        lemma_mul_strict_inequality(a.0 as int, (b.0 * pow2(k)) as int, (u * g) as int);
    } else if a.1 == b.1 {
        assert(u * g > 0) by (nonlinear_arith)
            requires
                u > 0,
                g > 0,
        ;
        assert(a.0 * u * g == a.0 * (u * g) && b.0 * f * v == b.0 * (u * g)) by (nonlinear_arith)
            requires
                f == u,
                v == g,
        ;
        if a.0 <= b.0 {
            lemma_mul_inequality(a.0 as int, b.0 as int, (u * g) as int);
        } else {
            lemma_mul_strict_inequality(b.0 as int, a.0 as int, (u * g) as int);
        }
    }
}

/// The product of `a * 2^ea` and `b * 2^eb` in units of `2^(ea + eb)`.
proof fn lemma_product_units(a: nat, ea: int, b: nat, eb: int)
    ensures
        (num((a, ea)) * num((b, eb))) * rounding::down(ea + eb) == (a * b) * ((den((a, ea)) * den(
            (b, eb),
        )) * rounding::up(ea + eb)),
{
    let (u, v) = (rounding::up(ea), rounding::down(ea));
    let (f, g) = (rounding::up(eb), rounding::down(eb));
    let (p, q) = (rounding::up(ea + eb), rounding::down(ea + eb));
    rounding::lemma_scale_adds(ea, eb);
    assert(p * (v * g) == u * f * q);
    assert(((a * u) * (b * f)) * q == (a * b) * (u * f * q)) by (nonlinear_arith);
    assert((a * b) * (p * (v * g)) == (a * b) * ((v * g) * p)) by (nonlinear_arith);
}

/// Denominators are positive, and so is the numerator of what is not zero.
pub proof fn lemma_den_positive(a: (nat, int), b: (nat, int))
    ensures
        den(a) > 0,
        den(a) * den(b) > 0,
        b.0 > 0 ==> num(b) > 0,
        b.0 > 0 ==> den(a) * num(b) > 0,
{
    rounding::lemma_scale_positive(a.1);
    rounding::lemma_scale_positive(b.1);
    assert(den(a) * den(b) > 0) by (nonlinear_arith)
        requires
            den(a) > 0,
            den(b) > 0,
    ;
    if b.0 > 0 {
        assert(num(b) > 0) by (nonlinear_arith)
            requires
                num(b) == b.0 * rounding::up(b.1),
                b.0 > 0,
                rounding::up(b.1) > 0,
        ;
        assert(den(a) * num(b) > 0) by (nonlinear_arith)
            requires
                den(a) > 0,
                num(b) > 0,
        ;
    }
}

/// `n / d <= 2^k`.
pub open spec fn ratio_at_most(n: nat, d: nat, k: int) -> bool {
    n * rounding::down(k) <= d * rounding::up(k)
}

/// `n / d >= 2^k`.
pub open spec fn ratio_at_least(n: nat, d: nat, k: int) -> bool {
    n * rounding::down(k) >= d * rounding::up(k)
}

/// `v <= 2^k`.
pub open spec fn below(v: (nat, int), k: int) -> bool {
    ratio_at_most(num(v), den(v), k)
}

/// `v >= 2^k`.
pub open spec fn above(v: (nat, int), k: int) -> bool {
    ratio_at_least(num(v), den(v), k)
}

/// Rounding does not cross a power of two.
pub proof fn lemma_double_bounds(n: nat, d: nat, k: int)
    requires
        d > 0,
        -1000 <= k <= 1000,
    ensures
        ratio_at_most(n, d, k) ==> below(double(n, d), k) && finite(double(n, d)),
        ratio_at_least(n, d, k) ==> above(double(n, d), k),
{
    rounding::lemma_nearest_power_bounds(53, -1074, n, d, k);
    if ratio_at_most(n, d, k) {
        let (p, q) = (rounding::up(k), rounding::down(k));
        let j: nat = if k >= 0 {
            k as nat
        } else {
            0
        };
        lemma2_to64();
        rounding::lemma_scale_positive(k);
        assert(n <= d * pow2(j)) by (nonlinear_arith)
            requires
                n * q <= d * p,
                q >= 1,
                pow2(j) == p,
        ;
        rounding::lemma_nearest_exponent(53, -1074, n, d, j);
    }
}

/// The bounds of a quotient of bounded numbers.
pub proof fn lemma_quotient_bounds(a: (nat, int), i: int, b: (nat, int), j: int)
    requires
        below(a, i),
        above(b, j),
        -1000 <= i - j <= 1000,
    ensures
        b.0 > 0,
        below(quotient(a, b), i - j),
        finite(quotient(a, b)),
{
    let (x, y, f, g) = (num(a), den(a), num(b), den(b));
    let (p, q) = (rounding::up(i), rounding::down(i));
    let (r, s) = (rounding::up(j), rounding::down(j));
    let (u, v) = (rounding::up(i - j), rounding::down(i - j));
    rounding::lemma_scale_positive(i);
    rounding::lemma_scale_positive(j);
    rounding::lemma_scale_positive(i - j);
    lemma_den_positive(a, b);
    lemma_den_positive(b, a);
    assert(f > 0) by (nonlinear_arith)
        requires
            f * s >= g * r,
            g > 0,
            r > 0,
            s > 0,
    ;
    assert(b.0 > 0) by (nonlinear_arith)
        requires
            f == b.0 * rounding::up(b.1),
            f > 0,
    ;
    rounding::lemma_scale_adds(i - j, j);
    assert(p * (v * s) == u * r * q);
    assert(y * f > 0) by (nonlinear_arith)
        requires
            y > 0,
            f > 0,
    ;
    assert((x * g) * v <= (y * f) * u) by {
        // x q <= y p and g r <= f s, so x g (q r) <= y f (p s)
        assert((x * q) * (g * r) <= (y * p) * (f * s)) by (nonlinear_arith)
            requires
                x * q <= y * p,
                g * r <= f * s,
        ;
        assert(((x * q) * (g * r)) * v == ((x * g) * v) * (q * r)) by (nonlinear_arith);
        assert(((y * p) * (f * s)) * v == (y * f) * (p * (v * s))) by (nonlinear_arith);
        assert((y * f) * (u * r * q) == ((y * f) * u) * (q * r)) by (nonlinear_arith);
        assert(((x * q) * (g * r)) * v <= ((y * p) * (f * s)) * v) by (nonlinear_arith)
            requires
                (x * q) * (g * r) <= (y * p) * (f * s),
        ;
        assert(q * r > 0) by (nonlinear_arith)
            requires
                q > 0,
                r > 0,
        ;
        lemma_mul_inequality_converse(
            ((x * g) * v) as int,
            ((y * f) * u) as int,
            (q * r) as int,
        );
    }
    lemma_double_bounds(x * g, y * f, i - j);
}

/// The bounds of a product of bounded numbers.
pub proof fn lemma_product_bounds(a: (nat, int), i: int, b: (nat, int), j: int)
    requires
        below(a, i),
        below(b, j),
        -1000 <= i + j <= 1000,
    ensures
        below(product(a, b), i + j),
        finite(product(a, b)),
{
    let (x, y, f, g) = (num(a), den(a), num(b), den(b));
    let (p, q) = (rounding::up(i), rounding::down(i));
    let (r, s) = (rounding::up(j), rounding::down(j));
    let (u, v) = (rounding::up(i + j), rounding::down(i + j));
    rounding::lemma_scale_positive(i);
    rounding::lemma_scale_positive(j);
    lemma_den_positive(a, b);
    rounding::lemma_scale_adds(i, j);
    assert(u * (q * s) == p * r * v);
    assert((x * f) * v <= (y * g) * u) by {
        assert((x * q) * (f * s) <= (y * p) * (g * r)) by (nonlinear_arith)
            requires
                x * q <= y * p,
                f * s <= g * r,
        ;
        assert(((x * q) * (f * s)) * v == ((x * f) * v) * (q * s)) by (nonlinear_arith);
        assert(((y * p) * (g * r)) * v == (y * g) * (p * r * v)) by (nonlinear_arith);
        assert((y * g) * (u * (q * s)) == ((y * g) * u) * (q * s)) by (nonlinear_arith);
        assert(((x * q) * (f * s)) * v <= ((y * p) * (g * r)) * v) by (nonlinear_arith)
            requires
                (x * q) * (f * s) <= (y * p) * (g * r),
        ;
        assert(q * s > 0) by (nonlinear_arith)
            requires
                q > 0,
                s > 0,
        ;
        lemma_mul_inequality_converse(
            ((x * f) * v) as int,
            ((y * g) * u) as int,
            (q * s) as int,
        );
    }
    lemma_double_bounds(x * f, y * g, i + j);
}

/// The lower bound of a quotient of bounded numbers.
pub proof fn lemma_quotient_lower(a: (nat, int), i: int, b: (nat, int), j: int)
    requires
        above(a, i),
        below(b, j),
        b.0 > 0,
        -1000 <= i - j <= 1000,
    ensures
        above(quotient(a, b), i - j),
{
    let (x, y, f, g) = (num(a), den(a), num(b), den(b));
    let (p, q) = (rounding::up(i), rounding::down(i));
    let (r, s) = (rounding::up(j), rounding::down(j));
    let (u, v) = (rounding::up(i - j), rounding::down(i - j));
    rounding::lemma_scale_positive(i);
    rounding::lemma_scale_positive(j);
    rounding::lemma_scale_positive(i - j);
    lemma_den_positive(a, b);
    rounding::lemma_scale_adds(i - j, j);
    assert(p * (v * s) == u * r * q);
    assert((x * g) * v >= (y * f) * u) by {
        assert((x * q) * (g * r) >= (y * p) * (f * s)) by (nonlinear_arith)
            requires
                x * q >= y * p,
                g * r >= f * s,
        ;
        assert(((x * q) * (g * r)) * v == ((x * g) * v) * (q * r)) by (nonlinear_arith);
        assert(((y * p) * (f * s)) * v == (y * f) * (p * (v * s))) by (nonlinear_arith);
        assert((y * f) * (u * r * q) == ((y * f) * u) * (q * r)) by (nonlinear_arith);
        assert(((x * q) * (g * r)) * v >= ((y * p) * (f * s)) * v) by (nonlinear_arith)
            requires
                (x * q) * (g * r) >= (y * p) * (f * s),
        ;
        assert(q * r > 0) by (nonlinear_arith)
            requires
                q > 0,
                r > 0,
        ;
        lemma_mul_inequality_converse(
            ((y * f) * u) as int,
            ((x * g) * v) as int,
            (q * r) as int,
        );
    }
    lemma_double_bounds(x * g, y * f, i - j);
}

/// The bounds of a sum of bounded numbers.
pub proof fn lemma_sum_bounds(a: (nat, int), b: (nat, int), k: int)
    requires
        -1000 <= k <= 999,
    ensures
        below(a, k) && below(b, k) ==> below(sum(a, b), k + 1) && finite(sum(a, b)),
        above(a, k) ==> above(sum(a, b), k),
        above(b, k) ==> above(sum(a, b), k),
{
    let (x, y, f, g) = (num(a), den(a), num(b), den(b));
    let (p, q) = (rounding::up(k), rounding::down(k));
    let (n, d) = (x * g + f * y, y * g);
    lemma_den_positive(a, b);
    lemma_den_positive(b, a);
    rounding::lemma_scale_positive(k);
    if below(a, k) && below(b, k) {
        let (u, v) = (rounding::up(k + 1), rounding::down(k + 1));
        rounding::lemma_scale_shift(k, 1);
        lemma2_to64();
        assert(u * q == p * v * 2);
        assert(n * q <= 2 * (d * p)) by (nonlinear_arith)
            requires
                x * q <= y * p,
                f * q <= g * p,
                n == x * g + f * y,
                d == y * g,
        ;
        assert(n * v <= d * u) by {
            assert((n * q) * v <= (2 * (d * p)) * v) by (nonlinear_arith)
                requires
                    n * q <= 2 * (d * p),
            ;
            assert((n * q) * v == (n * v) * q) by (nonlinear_arith);
            assert((2 * (d * p)) * v == d * (p * v * 2)) by (nonlinear_arith);
            assert(d * (u * q) == (d * u) * q) by (nonlinear_arith);
            lemma_mul_inequality_converse((n * v) as int, (d * u) as int, q as int);
        }
        lemma_double_bounds(n, d, k + 1);
    }
    if above(a, k) || above(b, k) {
        assert(n * q >= d * p) by (nonlinear_arith)
            requires
                x * q >= y * p || f * q >= g * p,
                n == x * g + f * y,
                d == y * g,
        ;
        lemma_double_bounds(n, d, k);
    }
}

/// The bounds of the double nearest to an integer.
pub proof fn lemma_integer_bounds(v: nat, k: nat)
    requires
        k <= 1000,
    ensures
        v <= pow2(k) ==> below(double(v, 1), k as int) && finite(double(v, 1)),
        v >= pow2(k) ==> above(double(v, 1), k as int),
        v > 0 ==> double(v, 1).0 > 0,
{
    lemma_double_bounds(v, 1, k as int);
    if v > 0 {
        lemma2_to64();
        lemma_double_bounds(v, 1, 0);
        let x = double(v, 1);
        lemma_den_positive(x, x);
        assert(x.0 > 0) by (nonlinear_arith)
            requires
                (x.0 * rounding::up(x.1)) * rounding::down(0) >= den(x) * rounding::up(0),
                rounding::up(0) == 1,
                den(x) > 0,
        ;
    }
}

/// A smaller power of two bounds from above, a larger one does too.
pub proof fn lemma_below_weaken(v: (nat, int), j: int, k: int)
    requires
        below(v, j),
        j <= k,
    ensures
        below(v, k),
{
    let (x, y) = (num(v), den(v));
    let (p, q) = (rounding::up(j), rounding::down(j));
    let (r, s) = (rounding::up(k), rounding::down(k));
    let w = pow2((k - j) as nat);
    rounding::lemma_scale_shift(j, (k - j) as nat);
    rounding::lemma_scale_positive(j);
    lemma_pow2_pos((k - j) as nat);
    assert(r * q == p * s * w);
    assert(x * s <= y * r) by {
        assert((x * q) * s <= (y * p) * s) by (nonlinear_arith)
            requires
                x * q <= y * p,
        ;
        assert((x * q) * s == (x * s) * q) by (nonlinear_arith);
        assert((y * p) * s <= y * (p * s * w)) by (nonlinear_arith)
            requires
                w >= 1,
        ;
        assert(y * (r * q) == (y * r) * q) by (nonlinear_arith);
        lemma_mul_inequality_converse(
            (x * s) as int,
            (y * r) as int,
            q as int,
        );
    }
}

/// A larger power of two bounds from below, a smaller one does too.
pub proof fn lemma_above_weaken(v: (nat, int), j: int, k: int)
    requires
        above(v, j),
        k <= j,
    ensures
        above(v, k),
{
    let (x, y) = (num(v), den(v));
    let (p, q) = (rounding::up(j), rounding::down(j));
    let (r, s) = (rounding::up(k), rounding::down(k));
    let w = pow2((j - k) as nat);
    rounding::lemma_scale_shift(k, (j - k) as nat);
    rounding::lemma_scale_positive(j);
    lemma_pow2_pos((j - k) as nat);
    assert(p * s == r * q * w);
    assert(x * s >= y * r) by {
        assert((x * q) * s >= (y * p) * s) by (nonlinear_arith)
            requires
                x * q >= y * p,
        ;
        assert((x * q) * s == (x * s) * q) by (nonlinear_arith);
        assert((y * p) * s == y * (p * s)) by (nonlinear_arith);
        assert(y * (r * q * w) >= (y * r) * q) by (nonlinear_arith)
            requires
                w >= 1,
        ;
        lemma_mul_inequality_converse(
            (y * r) as int,
            (x * s) as int,
            q as int,
        );
    }
}

/// What a power of two bounds from below is not zero.
pub proof fn lemma_above_nonzero(v: (nat, int), k: int)
    requires
        above(v, k),
    ensures
        v.0 > 0,
{
    rounding::lemma_scale_positive(k);
    lemma_den_positive(v, v);
    let (y, p, q, u) = (den(v), rounding::up(k), rounding::down(k), rounding::up(v.1));
    assert(v.0 > 0) by (nonlinear_arith)
        requires
            (v.0 * u) * q >= y * p,
            y > 0,
            p > 0,
    ;
}

/// A single-precision number is a double of the same value.
pub proof fn lemma_widened_value(v: (nat, int))
    requires
        v.0 < 0x100_0000,
        -149 <= v.1 <= 104,
    ensures
        num(widened(v)) * den(v) == num(v) * den(widened(v)),
        finite(widened(v)),
{
    lemma_powers();
    lemma_den_positive(v, v);
    if v.0 == 0 {
        assert(num(v) == 0) by (nonlinear_arith)
            requires
                num(v) == 0 * rounding::up(v.1),
        ;
        rounding::lemma_nearest_form(53, -1074, num(v), den(v));
        let w = widened(v);
        assert(num(w) * den(v) == num(v) * den(w)) by (nonlinear_arith)
            requires
                num(w) == 0 * rounding::up(w.1),
                num(v) == 0,
        ;
    } else {
        let t = rounding::log2(v.0);
        rounding::lemma_log2_bounds(v.0);
        if t >= 24 {
            if t > 24 {
                lemma_pow2_strictly_increases(24, t);
            }
        }
        let k = (52 - t) as nat;
        let m = v.0 * pow2(k);
        let e = v.1 - k;
        lemma_pow2_adds(t, k);
        lemma_pow2_adds(t + 1, k);
        lemma_pow2_pos(k);
        assert(0x10_0000_0000_0000 <= m < 0x20_0000_0000_0000) by (nonlinear_arith)
            requires
                m == v.0 * pow2(k),
                pow2(t) <= v.0 < pow2(t + 1),
                pow2(t) * pow2(k) == 0x10_0000_0000_0000,
                pow2(t + 1) * pow2(k) == 0x20_0000_0000_0000,
                pow2(k) > 0,
        ;
        let w = (m, e);
        rounding::lemma_nearest_exact(53, -1074, m, e);
        rounding::lemma_scale_shift(e, k);
        lemma_den_positive(w, w);
        let (u, f) = (rounding::up(v.1), rounding::down(v.1));
        let (p, q) = (rounding::up(e), rounding::down(e));
        assert(u * q == p * f * pow2(k));
        assert(m * p * f == v.0 * u * q) by {
            assert((v.0 * pow2(k)) * p * f == v.0 * (p * f * pow2(k))) by (nonlinear_arith);
            assert(v.0 * (u * q) == v.0 * u * q) by (nonlinear_arith);
        }
        rounding::lemma_nearest_ratio(53, -1074, num(v), den(v), num(w), den(w));
    }
}

/// Numbers of equal value are bounded alike.
proof fn lemma_same_bounds(v: (nat, int), w: (nat, int), k: int)
    requires
        num(w) * den(v) == num(v) * den(w),
    ensures
        below(v, k) ==> below(w, k),
        above(v, k) ==> above(w, k),
{
    let (a, b, c, d) = (num(v), den(v), num(w), den(w));
    let (p, q) = (rounding::up(k), rounding::down(k));
    lemma_den_positive(v, w);
    lemma_den_positive(w, v);
    assert((c * q) * b == (c * b) * q) by (nonlinear_arith);
    assert((a * d) * q == (a * q) * d) by (nonlinear_arith);
    assert((b * p) * d == (d * p) * b) by (nonlinear_arith);
    if below(v, k) {
        lemma_mul_inequality((a * q) as int, (b * p) as int, d as int);
        lemma_mul_inequality_converse((c * q) as int, (d * p) as int, b as int);
    }
    if above(v, k) {
        lemma_mul_inequality((b * p) as int, (a * q) as int, d as int);
        lemma_mul_inequality_converse((d * p) as int, (c * q) as int, b as int);
    }
}

/// Rounding to single precision does not cross a power of two.
pub proof fn lemma_single_bounds(n: nat, d: nat, k: int)
    requires
        d > 0,
        -126 <= k <= 126,
    ensures
        ratio_at_most(n, d, k) ==> below(widened(single(n, d)), k) && finite_single(single(n, d)),
        ratio_at_least(n, d, k) && finite_single(single(n, d)) ==> above(widened(single(n, d)), k),
{
    let v = single(n, d);
    lemma_powers();
    rounding::lemma_nearest_power_bounds(24, -149, n, d, k);
    rounding::lemma_nearest_form(24, -149, n, d);
    if ratio_at_most(n, d, k) {
        let (p, q) = (rounding::up(k), rounding::down(k));
        let j: nat = if k >= 0 {
            k as nat
        } else {
            0
        };
        lemma2_to64();
        rounding::lemma_scale_positive(k);
        assert(n <= d * pow2(j)) by (nonlinear_arith)
            requires
                n * q <= d * p,
                q >= 1,
                pow2(j) == p,
        ;
        rounding::lemma_nearest_exponent(24, -149, n, d, j);
    }
    if finite_single(v) {
        lemma_widened_value(v);
        lemma_same_bounds(v, widened(v), k);
    }
}

/// Adding what is at most `2^61` or `2^128` keeps a running total below a far larger power of
/// two, however often it is done.
pub proof fn lemma_running_total(a: (nat, int), b: (nat, int))
    ensures
        below(a, 100) && below(b, 61) ==> below(widened(sum_single(a, b)), 100) && finite_single(
            sum_single(a, b),
        ),
        below(a, 200) && below(b, 128) ==> below(sum(a, b), 200) && finite(sum(a, b)),
{
    let (n, d) = exact_sum(a, b);
    lemma_den_positive(a, b);
    lemma_den_positive(b, a);
    if below(a, 100) && below(b, 61) {
        lemma_exact_sum_bound(a, 100, b, 61);
        rounding::lemma_absorb(24, -149, n, d, 100, 61);
        lemma_pow2_strictly_increases(61, 100);
        lemma_pow2_unfold(101);
        assert(n <= d * pow2(101)) by (nonlinear_arith)
            requires
                n <= d * (pow2(100) + pow2(61)),
                pow2(61) <= pow2(100),
                pow2(101) == 2 * pow2(100),
        ;
        rounding::lemma_nearest_exponent(24, -149, n, d, 101);
        let v = sum_single(a, b);
        lemma_powers();
        rounding::lemma_nearest_form(24, -149, n, d);
        lemma_widened_value(v);
        lemma_same_bounds(v, widened(v), 100);
    }
    if below(a, 200) && below(b, 128) {
        lemma_exact_sum_bound(a, 200, b, 128);
        rounding::lemma_absorb(53, -1074, n, d, 200, 128);
        lemma_pow2_strictly_increases(128, 200);
        lemma_pow2_unfold(201);
        assert(n <= d * pow2(201)) by (nonlinear_arith)
            requires
                n <= d * (pow2(200) + pow2(128)),
                pow2(128) <= pow2(200),
                pow2(201) == 2 * pow2(200),
        ;
        rounding::lemma_nearest_exponent(53, -1074, n, d, 201);
    }
}

proof fn lemma_exact_sum_bound(a: (nat, int), i: nat, b: (nat, int), j: nat)
    requires
        below(a, i as int),
        below(b, j as int),
    ensures
        exact_sum(a, b).0 <= exact_sum(a, b).1 * (pow2(i) + pow2(j)),
{
    let (x, y, f, g) = (num(a), den(a), num(b), den(b));
    let (p, r) = (pow2(i), pow2(j));
    assert(x * 1 <= y * p && f * 1 <= g * r);
    assert(x * g + f * y <= (y * g) * (p + r)) by (nonlinear_arith)
        requires
            x <= y * p,
            f <= g * r,
    ;
}

/// `v` is how a finite single-precision number is written.
pub open spec fn is_single(v: (nat, int)) -> bool {
    &&& v.0 < 0x100_0000
    &&& -149 <= v.1 <= 104
    &&& v.1 > -149 ==> v.0 >= 0x80_0000
}

/// What rounding gives, unless it is beyond the largest single-precision number, is one.
pub proof fn lemma_finite_single(n: nat, d: nat)
    requires
        d > 0,
        finite_single(single(n, d)),
    ensures
        is_single(single(n, d)),
{
    lemma_powers();
    rounding::lemma_nearest_form(24, -149, n, d);
}

/// A single-precision number is less than `2^128`.
#[verifier::spinoff_prover]
pub proof fn lemma_single_range(v: (nat, int))
    requires
        is_single(v),
    ensures
        num(v) < den(v) * pow2(128),
        below(widened(v), 128),
{
    lemma_powers();
    lemma_den_positive(v, v);
    lemma_pow2_adds(24, 104);
    lemma2_to64();
    let (p, q, w) = (rounding::up(v.1), rounding::down(v.1), pow2(104));
    if 0 <= v.1 < 104 {
        lemma_pow2_strictly_increases(v.1 as nat, 104);
    }
    lemma_pow2_pos(104);
    assert(p <= w);
    assert(num(v) < q * pow2(128)) by (nonlinear_arith)
        requires
            num(v) == v.0 * p,
            v.0 < 0x100_0000,
            p <= w,
            w > 0,
            q >= 1,
            pow2(128) == 0x100_0000 * w,
    ;
    lemma_widened_value(v);
    assert(below(v, 128));
    lemma_same_bounds(v, widened(v), 128);
}

/// What is not of single precision, but written like it, is at least `2^128`.
proof fn lemma_single_beyond(v: (nat, int))
    requires
        v.0 >= 0x80_0000,
        v.1 > 104,
    ensures
        num(v) >= pow2(128),
{
    lemma2_to64();
    lemma_pow2_adds(23, 105);
    if v.1 > 105 {
        lemma_pow2_strictly_increases(105, v.1 as nat);
    }
    let (p, w) = (rounding::up(v.1), pow2(105));
    assert(p >= w);
    assert(num(v) >= pow2(128)) by (nonlinear_arith)
        requires
            num(v) == v.0 * p,
            v.0 >= 0x80_0000,
            p >= w,
            pow2(128) == 0x80_0000 * w,
    ;
}

/// A single-precision number divided by at least 1 is a finite one.
#[verifier::spinoff_prover]
pub proof fn lemma_single_quotient(v: (nat, int), b: (nat, int))
    requires
        is_single(v),
        b.0 > 0,
        above(b, 0),
    ensures
        is_single(quotient_single(widened(v), b)),
{
    lemma_powers();
    lemma2_to64();
    let a = widened(v);
    let (x, y, f, g) = (num(a), den(a), num(b), den(b));
    let (m, q) = (num(v), den(v));
    let (n, d) = (x * g, y * f);
    lemma_den_positive(a, b);
    lemma_den_positive(v, v);
    lemma_widened_value(v);
    assert(f * 1 >= g * 1);
    assert(n * q <= m * d) by (nonlinear_arith)
        requires
            n == x * g,
            d == y * f,
            x * q == m * y,
            g <= f,
    ;
    order::lemma_nothing_between(24, -149, n, d, v.0, v.1);
    let r = single(n, d);
    rounding::lemma_nearest_form(24, -149, n, d);
    assert(rounding::dyadic_le(r, v));
    if r.1 > 104 {
        lemma_single_beyond(r);
        lemma_single_range(v);
        assert(num(r) * q <= m * 1);
        assert(false) by (nonlinear_arith)
            requires
                num(r) >= pow2(128),
                m < q * pow2(128),
                num(r) * q <= m * 1,
        ;
    }
}

/// Bit patterns are in the order of the numbers, and each stands for one of them.
pub proof fn lemma_bits_order(a: (nat, int), b: (nat, int))
    requires
        is_double(a),
        is_double(b),
    ensures
        0 <= bits(a) < 0x7ff0_0000_0000_0000,
        bits(a) <= bits(b) <==> at_most(a, b),
        bits(a) == bits(b) <==> a == b,
{
    lemma_canonical_order(a, b);
    lemma_canonical_order(b, a);
}

/// What rounding gives, unless it is beyond the largest double, is a double.
pub proof fn lemma_finite_double(n: nat, d: nat)
    requires
        d > 0,
        finite(double(n, d)),
    ensures
        is_double(double(n, d)),
{
    lemma_powers();
    rounding::lemma_nearest_form(53, -1074, n, d);
}

impl Binary64 {
    /// One number is written in one way.
    pub proof fn lemma_same_number(a: Binary64, b: Binary64)
        requires
            a@ == b@,
        ensures
            a == b,
    {
    }
}

} // verus!
