//! What a reader makes of the text of a report: the numbers that its digits stand for.
use vstd::prelude::*;

use crate::accuracy;
use crate::binary64;
use crate::metrics;
use crate::rounding;
use crate::text;
use crate::worth;

verus! {

/// The number that decimal digits stand for.
pub open spec fn number_read(s: Seq<char>) -> nat
    decreases s.len(),
{
    if s.len() == 0 {
        0
    } else {
        10 * number_read(s.drop_last()) + (s.last() as nat - 48) as nat
    }
}

/// Decimal digits alone.
pub open spec fn is_digits(s: Seq<char>) -> bool {
    forall|i: int| 0 <= i < s.len() ==> 48 <= (#[trigger] s[i]) as nat <= 57
}

/// How often a unit holds the last of `places` decimal places.
pub open spec fn places_in_one(places: nat) -> nat
    decreases places,
{
    if places == 0 {
        1
    } else {
        10 * places_in_one((places - 1) as nat)
    }
}

/// The text is the whole number `n`, without leading zeros.
pub open spec fn says(s: Seq<char>, n: nat) -> bool {
    &&& s.len() > 0
    &&& is_digits(s)
    &&& s.len() > 1 ==> s[0] as nat != 48
    &&& number_read(s) == n
}

/// The text is the decimal with so many places that is nearest to `x`: it differs from it by half of
/// the last place at most, and by that only if its last place is even.
pub open spec fn shows(s: Seq<char>, x: real, places: nat) -> bool {
    exists|whole: Seq<char>, frac: Seq<char>| #[trigger] is_decimal(s, whole, frac, x, places)
}

pub open spec fn is_decimal(
    s: Seq<char>,
    whole: Seq<char>,
    frac: Seq<char>,
    x: real,
    places: nat,
) -> bool {
    let n = places_in_one(places);
    let read = (number_read(whole) * n + number_read(frac)) as real;
    let exact = x * n as real;
    &&& s == whole + seq!['.'] + frac
    &&& says(whole, number_read(whole))
    &&& is_digits(frac)
    &&& frac.len() == places
    &&& 2 as real * (read - exact) <= 1 as real
    &&& 2 as real * (exact - read) <= 1 as real
    &&& 2 as real * (read - exact) == 1 as real || 2 as real * (exact - read) == 1 as real ==> (
    number_read(whole) * n + number_read(frac)) % 2 == 0
}

proof fn lemma_push_digit(s: Seq<char>, d: nat)
    requires
        is_digits(s),
        d < 10,
    ensures
        is_digits(s.push(text::digit(d))),
        number_read(s.push(text::digit(d))) == 10 * number_read(s) + d,
{
    let t = s.push(text::digit(d));
    assert(t.drop_last() =~= s);
    assert(t.last() as nat == 48 + d);
}

/// An integer in decimal reads as the integer.
pub proof fn lemma_decimal_says(n: nat)
    ensures
        says(text::decimal(n), n),
        n > 0 ==> text::decimal(n)[0] as nat != 48,
    decreases n,
{
    if n < 10 {
        let empty = Seq::<char>::empty();
        lemma_push_digit(empty, n);
        assert(empty.push(text::digit(n)) =~= text::decimal(n));
        assert(text::decimal(n)[0] as nat == 48 + n);
    } else {
        lemma_decimal_says(n / 10);
        let s = text::decimal(n / 10);
        lemma_push_digit(s, n % 10);
        assert(text::decimal(n)[0] == s[0]);
    }
}

proof fn lemma_padded_reads(n: nat, width: nat)
    ensures
        is_digits(text::padded(n, width)),
        text::padded(n, width).len() == width,
        number_read(text::padded(n, width)) == n % places_in_one(width),
        places_in_one(width) > 0,
    decreases width,
{
    if width > 0 {
        let w = (width - 1) as nat;
        lemma_padded_reads(n / 10, w);
        lemma_push_digit(text::padded(n / 10, w), n % 10);
        let p = places_in_one(w);
        vstd::arithmetic::div_mod::lemma_mod_breakdown(n as int, 10, p as int);
    }
}

proof fn lemma_same_places(places: nat)
    ensures
        text::pow10(places) == places_in_one(places),
        places_in_one(places) > 0,
    decreases places,
{
    if places > 0 {
        lemma_same_places((places - 1) as nat);
    }
}

/// A number with a fixed count of places reads as the nearest such decimal to what it is worth.
pub proof fn lemma_fixed_shows(v: (nat, int), places: nat)
    ensures
        shows(text::fixed(v, places), worth::worth(v), places),
{
    let u = text::pow10(places);
    let (n, d) = (binary64::num(v), binary64::den(v));
    let (a, b) = (n * u, d);
    let m = rounding::half_even(a, b);
    lemma_same_places(places);
    binary64::lemma_den_positive(v, v);
    rounding::lemma_half_even_error(a, b);
    let (whole, frac) = (text::decimal(m / u), text::padded(m % u, places));
    lemma_decimal_says(m / u);
    lemma_padded_reads(m % u, places);
    vstd::arithmetic::div_mod::lemma_small_mod(m % u, u);
    vstd::arithmetic::div_mod::lemma_fundamental_div_mod(m as int, u as int);
    assert(number_read(whole) * u + number_read(frac) == m) by (nonlinear_arith)
        requires
            number_read(whole) == m / u,
            number_read(frac) == m % u,
            m == u * (m / u) + m % u,
    ;
    let x = worth::worth(v);
    let (nr, dr, ur, mr) = (n as real, d as real, u as real, m as real);
    assert(2 * (m * b) - b <= 2 * a <= 2 * (m * b) + b) by (nonlinear_arith)
        requires
            (2 * m - 1) * b <= 2 * a <= (2 * m + 1) * b,
    ;
    worth::lemma_real_mul(m, b);
    worth::lemma_real_mul(n, u);
    worth::lemma_over_sign(nr, dr);
    assert(x * dr == nr);
    let e = x * ur;
    assert(e * dr == nr * ur) by (nonlinear_arith)
        requires
            x * dr == nr,
            e == x * ur,
    ;
    assert(2 as real * (mr - e) <= 1 as real) by (nonlinear_arith)
        requires
            2 as real * (mr * dr) - dr <= 2 as real * (e * dr),
            dr > 0 as real,
    ;
    assert(2 as real * (e - mr) <= 1 as real) by (nonlinear_arith)
        requires
            2 as real * (e * dr) <= 2 as real * (mr * dr) + dr,
            dr > 0 as real,
    ;
    if 2 as real * (mr - e) == 1 as real {
        assert(2 as real * (mr * dr) - dr == 2 as real * (e * dr)) by (nonlinear_arith)
            requires
                2 as real * (mr - e) == 1 as real,
        ;
        assert(2 * (m * b) - b == 2 * a);
        assert((2 * m - 1) * b == 2 * a) by (nonlinear_arith)
            requires
                2 * (m * b) - b == 2 * a,
        ;
    }
    if 2 as real * (e - mr) == 1 as real {
        assert(2 as real * (mr * dr) + dr == 2 as real * (e * dr)) by (nonlinear_arith)
            requires
                2 as real * (e - mr) == 1 as real,
        ;
        assert(2 * (m * b) + b == 2 * a);
        assert((2 * m + 1) * b == 2 * a) by (nonlinear_arith)
            requires
                2 * (m * b) + b == 2 * a,
        ;
    }
    assert(is_decimal(text::fixed(v, places), whole, frac, x, places));
}

/// The text is a size of so many units, with one decimal, before the name of the unit.
pub open spec fn is_size(s: Seq<char>, bytes: u64, unit: nat, name: Seq<char>) -> bool {
    exists|t: Seq<char>, x: real| #[trigger]
        shows(t, x, 1) && worth::nearly(x, worth::ratio(bytes as nat, unit), 10) && s == t + name
}

proof fn lemma_size_in(bytes: u64, unit: nat, name: Seq<char>)
    requires
        1 <= unit <= 0x1_0000_0000,
        bytes > 0,
    ensures
        is_size(metrics::size_in(bytes, unit) + name, bytes, unit, name),
{
    accuracy::lemma_tiny();
    let n = bytes as nat;
    worth::lemma_count_worth(n);
    worth::lemma_count_worth(unit);
    let (x, y, m) = (n as real, unit as real, worth::tiny());
    assert((2 as real * m) * y <= x) by (nonlinear_arith)
        requires
            x >= 1 as real,
            y <= 0x1_0000_0000nat as real,
            y > 0 as real,
            m > 0 as real,
            m * 0x1_0000_0000_0000_0000nat as real * 0x10_0000_0000nat as real == 1 as real,
    ;
    worth::lemma_over_at_least(x, y, 2 as real * m);
    let v = binary64::quotient(binary64::double(n, 1), binary64::double(unit, 1));
    worth::lemma_divided(binary64::double(n, 1), binary64::double(unit, 1), x, y, 1, 1);
    worth::lemma_nearly_weaken(worth::worth(v), worth::over(x, y), 5, 10);
    lemma_fixed_shows(v, 1);
    let t = metrics::size_in(bytes, unit);
    assert(shows(t, worth::worth(v), 1));
}

/// A size is written in the largest of GiB, MiB, KiB and bytes that it reaches, with one decimal
/// but for bytes.
pub proof fn lemma_bytes_read(bytes: u64)
    ensures
        bytes < 1024 ==> metrics::bytes_text(bytes) == text::decimal(bytes as nat) + " B"@,
        1024 <= bytes < 1_048_576 ==> is_size(metrics::bytes_text(bytes), bytes, 1024, " KiB"@),
        1_048_576 <= bytes < 1_073_741_824 ==> is_size(
            metrics::bytes_text(bytes),
            bytes,
            1_048_576,
            " MiB"@,
        ),
        1_073_741_824 <= bytes ==> is_size(
            metrics::bytes_text(bytes),
            bytes,
            1_073_741_824,
            " GiB"@,
        ),
{
    if bytes > 0 {
        lemma_size_in(bytes, 1024, " KiB"@);
        lemma_size_in(bytes, 1_048_576, " MiB"@);
        lemma_size_in(bytes, 1_073_741_824, " GiB"@);
    }
}

} // verus!
