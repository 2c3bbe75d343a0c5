//! Numbers as decimal text.
use vstd::arithmetic::div_mod::*;
use vstd::arithmetic::power2::*;
use vstd::prelude::*;

use crate::binary64;
use crate::binary64::Binary64;
use crate::rounding;

verus! {

/// The character of a decimal digit.
pub open spec fn digit(d: nat) -> char {
    (48 + d) as char
}

/// `n` in decimal, without leading zeros.
pub open spec fn decimal(n: nat) -> Seq<char>
    decreases n,
{
    if n < 10 {
        seq![digit(n)]
    } else {
        decimal(n / 10).push(digit(n % 10))
    }
}

/// The last `width` decimal digits of `n`, leading zeros among them.
pub open spec fn padded(n: nat, width: nat) -> Seq<char>
    decreases width,
{
    if width == 0 {
        seq![]
    } else {
        padded(n / 10, (width - 1) as nat).push(digit(n % 10))
    }
}

/// `10^k`.
pub open spec fn pow10(k: nat) -> nat
    decreases k,
{
    if k == 0 {
        1
    } else {
        10 * pow10((k - 1) as nat)
    }
}

/// The number `v.0 * 2^v.1` with `places` digits after the decimal point: the nearest such
/// decimal to its exact value, a tie going to the even last digit.
pub open spec fn fixed(v: (nat, int), places: nat) -> Seq<char> {
    let scaled = rounding::half_even(binary64::num(v) * pow10(places), binary64::den(v));
    decimal(scaled / pow10(places)) + seq!['.'] + padded(scaled % pow10(places), places)
}

/// The number that digits stand for, the least significant first.
spec fn value(digits: Seq<u8>) -> nat
    decreases digits.len(),
{
    if digits.len() == 0 {
        0
    } else {
        digits[0] as nat + 10 * value(digits.drop_first())
    }
}

/// Decimal digits, the least significant first, without superfluous zeros.
spec fn well_formed(digits: Seq<u8>) -> bool {
    &&& digits.len() > 0
    &&& forall|i: int| 0 <= i < digits.len() ==> #[trigger] digits[i] < 10
    &&& digits.len() > 1 ==> digits.last() > 0
}

/// Digits written in reading order.
spec fn written(digits: Seq<u8>) -> Seq<char> {
    Seq::new(digits.len(), |i: int| digit(digits[digits.len() - 1 - i] as nat))
}

proof fn lemma_value_positive(digits: Seq<u8>)
    requires
        digits.len() > 0,
        digits.last() > 0,
    ensures
        value(digits) > 0,
    decreases digits.len(),
{
    if digits.len() > 1 {
        lemma_value_positive(digits.drop_first());
    }
}

proof fn lemma_written(digits: Seq<u8>)
    requires
        well_formed(digits),
    ensures
        written(digits) == decimal(value(digits)),
    decreases digits.len(),
{
    let rest = digits.drop_first();
    if digits.len() == 1 {
        assert(value(rest) == 0);
        assert(written(digits) =~= seq![digit(digits[0] as nat)]);
    } else {
        lemma_value_positive(rest);
        lemma_written(rest);
        assert(value(digits) / 10 == value(rest));
        assert(value(digits) % 10 == digits[0]);
        assert(written(digits) =~= written(rest).push(digit(digits[0] as nat)));
    }
}

proof fn lemma_value_push(digits: Seq<u8>, d: u8)
    ensures
        value(digits.push(d)) == value(digits) + d * pow10(digits.len()),
    decreases digits.len(),
{
    let all = digits.push(d);
    if digits.len() == 0 {
        assert(all.drop_first() =~= seq![]);
        assert(value(all.drop_first()) == 0);
        assert(d * pow10(0) == d) by (nonlinear_arith)
            requires
                pow10(0) == 1,
        ;
    } else {
        assert(all.drop_first() =~= digits.drop_first().push(d));
        lemma_value_push(digits.drop_first(), d);
        let k = pow10((digits.len() - 1) as nat);
        assert(10 * (d * k) == d * (10 * k)) by (nonlinear_arith);
    }
}

/// Appends the character of a digit.
fn push_digit(out: &mut String, d: u8)
    requires
        d < 10,
    ensures
        final(out)@ == old(out)@.push(digit(d as nat)),
{
    let s: &str = if d == 0 {
        "0"
    } else if d == 1 {
        "1"
    } else if d == 2 {
        "2"
    } else if d == 3 {
        "3"
    } else if d == 4 {
        "4"
    } else if d == 5 {
        "5"
    } else if d == 6 {
        "6"
    } else if d == 7 {
        "7"
    } else if d == 8 {
        "8"
    } else {
        "9"
    };
    proof {
        reveal_strlit("0");
        reveal_strlit("1");
        reveal_strlit("2");
        reveal_strlit("3");
        reveal_strlit("4");
        reveal_strlit("5");
        reveal_strlit("6");
        reveal_strlit("7");
        reveal_strlit("8");
        reveal_strlit("9");
    }
    assert(s@ =~= seq![digit(d as nat)]);
    out.append(s);
    assert(out@ =~= old(out)@.push(digit(d as nat)));
}

/// The digits of an integer.
fn digits_of(n: u64) -> (digits: Vec<u8>)
    ensures
        well_formed(digits@),
        value(digits@) == n,
{
    let mut digits: Vec<u8> = Vec::new();
    let mut rest: u64 = n;
    assert(rest * pow10(0) == rest) by (nonlinear_arith)
        requires
            pow10(0) == 1,
    ;
    while rest >= 10
        invariant
            forall|i: int| 0 <= i < digits@.len() ==> #[trigger] digits@[i] < 10,
            n == value(digits@) + rest * pow10(digits@.len()),
            digits@.len() > 0 ==> rest > 0,
        decreases rest,
    {
        let d: u8 = (rest % 10) as u8;
        proof {
            lemma_value_push(digits@, d);
            let (k, q) = (pow10(digits@.len()), (rest / 10) as nat);
            assert(rest == 10 * q + d);
            assert((10 * q + d) * k == q * (10 * k) + d * k) by (nonlinear_arith);
        }
        digits.push(d);
        rest = rest / 10;
    }
    proof {
        lemma_value_push(digits@, rest as u8);
    }
    digits.push(rest as u8);
    digits
}

/// Doubles a number held as digits.
fn double_digits(digits: &mut Vec<u8>)
    requires
        well_formed(old(digits)@),
    ensures
        well_formed(final(digits)@),
        value(final(digits)@) == 2 * value(old(digits)@),
{
    let mut out: Vec<u8> = Vec::new();
    let mut carry: u8 = 0;
    let mut i: usize = 0;
    proof {
        assert(digits@.take(0) =~= seq![]);
    }
    while i < digits.len()
        invariant
            well_formed(digits@),
            digits@ == old(digits)@,
            i <= digits@.len(),
            out@.len() == i,
            carry <= 1,
            forall|j: int| 0 <= j < i ==> #[trigger] out@[j] < 10,
            value(out@) + carry * pow10(i as nat) == 2 * value(digits@.take(i as int)),
            i == digits@.len() && carry == 0 && i > 1 ==> out@.last() > 0,
        decreases digits@.len() - i,
    {
        let d: u8 = digits[i];
        let doubled: u8 = 2 * d + carry;
        let low: u8 = doubled % 10;
        let up: u8 = doubled / 10;
        proof {
            assert(digits@.take(i + 1) =~= digits@.take(i as int).push(d));
            lemma_value_push(digits@.take(i as int), d);
            lemma_value_push(out@, low);
            let k = pow10(i as nat);
            assert(pow10((i + 1) as nat) == 10 * k);
            assert(low + 10 * up == 2 * d + carry);
            assert(low * k + up * (10 * k) == 2 * (d * k) + carry * k) by (nonlinear_arith)
                requires
                    low + 10 * up == 2 * d + carry,
            ;
        }
        out.push(low);
        carry = up;
        i = i + 1;
    }
    proof {
        assert(digits@.take(i as int) =~= digits@);
    }
    if carry > 0 {
        proof {
            lemma_value_push(out@, carry);
        }
        out.push(carry);
    }
    *digits = out;
}

/// Appends a number held as digits.
fn push_digits(out: &mut String, digits: &Vec<u8>)
    requires
        well_formed(digits@),
    ensures
        final(out)@ == old(out)@ + decimal(value(digits@)),
{
    let mut i: usize = digits.len();
    assert(old(out)@ + written(digits@).take(0) =~= old(out)@);
    while i > 0
        invariant
            well_formed(digits@),
            i <= digits@.len(),
            out@ == old(out)@ + written(digits@).take(digits@.len() - i),
        decreases i,
    {
        i = i - 1;
        push_digit(out, digits[i]);
        proof {
            let k = digits@.len() - i;
            assert(written(digits@).take(k) =~= written(digits@).take(k - 1).push(
                digit(digits@[i as int] as nat),
            ));
            assert(out@ =~= old(out)@ + written(digits@).take(k));
        }
    }
    proof {
        lemma_written(digits@);
        assert(written(digits@).take(digits@.len() as int) =~= written(digits@));
    }
}

/// Appends an integer in decimal.
pub fn push_decimal(out: &mut String, n: u64)
    ensures
        final(out)@ == old(out)@ + decimal(n as nat),
{
    let digits: Vec<u8> = digits_of(n);
    push_digits(out, &digits);
}

/// An integer in decimal.
pub fn decimal_string(n: u64) -> (s: String)
    ensures
        s@ == decimal(n as nat),
{
    let mut s: String = String::new();
    push_decimal(&mut s, n);
    assert(s@ =~= decimal(n as nat));
    s
}

/// Appends the last `width` digits of an integer.
fn push_padded(out: &mut String, n: u64, width: u32)
    ensures
        final(out)@ == old(out)@ + padded(n as nat, width as nat),
    decreases width,
{
    if width > 0 {
        push_padded(out, n / 10, width - 1);
        push_digit(out, (n % 10) as u8);
    }
    assert(out@ =~= old(out)@ + padded(n as nat, width as nat));
}

/// Appends a number with a fixed count of digits after the decimal point.
pub fn push_fixed(out: &mut String, x: &Binary64, places: u32)
    requires
        1 <= places <= 3,
    ensures
        final(out)@ == old(out)@ + fixed(x@, places as nat),
{
    let (m, e): (u64, i32) = x.parts();
    let unit: u64 = if places == 1 {
        10
    } else if places == 2 {
        100
    } else {
        1000
    };
    proof {
        reveal_with_fuel(pow10, 4);
        assert(unit == pow10(places as nat));
        reveal_strlit(".");
        assert("."@ =~= seq!['.']);
    }
    let ghost scaled = rounding::half_even(
        binary64::num(x@) * pow10(places as nat),
        binary64::den(x@),
    );
    let fraction: u64;
    if e >= 0 {
        let mut digits: Vec<u8> = digits_of(m);
        let mut i: i32 = 0;
        proof {
            lemma2_to64();
        }
        while i < e
            invariant
                0 <= i <= e,
                well_formed(digits@),
                value(digits@) == m * pow2(i as nat),
            decreases e - i,
        {
            proof {
                let k = pow2(i as nat);
                lemma_pow2_unfold((i + 1) as nat);
                assert(2 * (m * k) == m * (2 * k)) by (nonlinear_arith);
            }
            double_digits(&mut digits);
            i = i + 1;
        }
        push_digits(out, &digits);
        fraction = 0;
        proof {
            let n = m * pow2(e as nat);
            rounding::lemma_half_even_bounds((n * unit) as nat, 1, (n * unit) as nat);
            lemma_div_multiples_vanish(n as int, unit as int);
            lemma_mod_multiples_basic(n as int, unit as int);
            assert(n * unit == unit * n) by (nonlinear_arith);
            assert(scaled == n * unit);
        }
    } else {
        proof {
            assert(m * unit <= 0x20_0000_0000_0000 * 1000) by (nonlinear_arith)
                requires
                    m <= 0x20_0000_0000_0000,
                    unit <= 1000,
            ;
            assert(binary64::num(x@) == m) by (nonlinear_arith)
                requires
                    binary64::num(x@) == m * 1,
            ;
        }
        let product: u128 = m as u128 * unit as u128;
        let whole: u64 = if e < -70 {
            proof {
                let w = pow2((-e) as nat);
                lemma2_to64();
                lemma_pow2_strictly_increases(64, (-e - 1) as nat);
                lemma_pow2_unfold((-e) as nat);
                lemma_basic_div(product as int, w as int);
                lemma_small_mod(product as nat, w);
            }
            0
        } else {
            let w: u128 = binary64::power_of_two((-e) as u32);
            proof {
                lemma_div_nonincreasing(product as int, w as int);
            }
            let q: u128 = product / w;
            let r: u128 = product % w;
            if r < w - r || (r == w - r && q % 2 == 0) {
                q as u64
            } else {
                (q + 1) as u64
            }
        };
        assert(whole == scaled);
        push_decimal(out, whole / unit);
        fraction = whole % unit;
    }
    out.append(".");
    push_padded(out, fraction, places);
    assert(out@ =~= old(out)@ + fixed(x@, places as nat));
}

/// A number with a fixed count of digits after the decimal point.
pub fn fixed_string(x: &Binary64, places: u32) -> (s: String)
    requires
        1 <= places <= 3,
    ensures
        s@ == fixed(x@, places as nat),
{
    let mut s: String = String::new();
    push_fixed(&mut s, x, places);
    assert(s@ =~= fixed(x@, places as nat));
    s
}

} // verus!
