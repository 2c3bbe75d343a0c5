//! What the reported numbers have to do with what was measured: bytes, time, and counts.
use vstd::arithmetic::power2::*;
use vstd::prelude::*;

use crate::binary64;
use crate::elapsed::Elapsed;
use crate::worth;

verus! {

/// The span in nanoseconds.
pub open spec fn nanoseconds(e: Elapsed) -> nat {
    (e.secs * 1_000_000_000 + e.nanos) as nat
}

/// The span in seconds.
pub open spec fn time(e: Elapsed) -> real {
    worth::ratio(nanoseconds(e), 1_000_000_000)
}

pub proof fn lemma_tiny()
    ensures
        worth::tiny() > 0 as real,
        worth::tiny() * 0x1_0000_0000_0000_0000nat as real * 0x10_0000_0000nat as real == 1 as real,
{
    reveal(worth::over);
    lemma2_to64();
    lemma2_to64_rest();
    lemma_pow2_adds(64, 36);
    assert(pow2(100) == 0x1_0000_0000_0000_0000nat * 0x10_0000_0000nat);
    worth::lemma_real_mul(0x1_0000_0000_0000_0000nat, 0x10_0000_0000nat);
    let (a, b) = (0x1_0000_0000_0000_0000nat as real, 0x10_0000_0000nat as real);
    let t = worth::tiny();
    assert(t == 1nat as real / (a * b));
    assert(t > 0 as real && t * a * b == 1 as real) by (nonlinear_arith)
        requires
            t == 1 as real / (a * b),
            a == 0x1_0000_0000_0000_0000nat as real,
            b == 0x10_0000_0000nat as real,
    ;
}

/// The whole and the fraction of a span.
pub proof fn lemma_time_parts(e: Elapsed)
    ensures
        time(e) == e.secs as nat as real + worth::over(
            e.nanos as nat as real,
            1_000_000_000nat as real,
        ),
        time(e) >= 0 as real,
        nanoseconds(e) == 0 <==> time(e) == 0 as real,
        time(e) * 1_000_000_000nat as real == nanoseconds(e) as real,
{
    reveal(worth::over);
    let (s, n, g) = (e.secs as nat as real, e.nanos as nat as real, 1_000_000_000nat as real);
    worth::lemma_ratio_positive(nanoseconds(e), 1_000_000_000);
    worth::lemma_real_mul(e.secs as nat, 1_000_000_000);
    let total = nanoseconds(e) as real;
    assert(total == s * g + n);
    assert((s * g + n) / g == s + n / g && ((s * g + n) / g) * g == s * g + n) by (nonlinear_arith)
        requires
            g > 0 as real,
    ;
}

/// The span in seconds, as it is reckoned, is the span.
pub proof fn lemma_seconds_accurate(e: Elapsed)
    requires
        e.valid(),
    ensures
        worth::nearly(worth::worth(e.seconds()), time(e), 10),
        worth::worth(e.seconds()) >= 0 as real,
        nanoseconds(e) > 0 ==> worth::worth(e.seconds()) > 0 as real,
{
    lemma_tiny();
    lemma_time_parts(e);
    let (s, n, g) = (e.secs as nat, e.nanos as nat, 1_000_000_000nat);
    let (a, b, c) = (binary64::double(s, 1), binary64::double(n, 1), binary64::double(g, 1));
    worth::lemma_count_worth(s);
    worth::lemma_count_worth(n);
    worth::lemma_count_worth(g);
    let (x, y, z) = (worth::worth(a), worth::worth(b), worth::worth(c));
    let (sr, nr, gr) = (s as real, n as real, g as real);
    worth::lemma_nearly_half(y, nr, 1);
    worth::lemma_nearly_half(z, gr, 1);
    worth::lemma_nearly_half(x, sr, 1);
    worth::lemma_nearly_quotient(y, nr, z, gr, 1, 1);
    let t = worth::tiny();
    let exact = worth::over(y, z);
    assert(exact >= 0 as real && (n == 0 ==> exact == 0 as real) && (n > 0 ==> exact >= t)) by {
        reveal(worth::over);
        assert(y / z >= 0 as real) by (nonlinear_arith)
            requires
                y >= 0 as real,
                z > 0 as real,
        ;
        if n == 0 {
            assert(y / z == 0 as real) by (nonlinear_arith)
                requires
                    y == 0 as real,
                    z > 0 as real,
            ;
        } else {
            assert(t * z <= y) by (nonlinear_arith)
                requires
                    z <= 2 as real * gr,
                    nr <= 2 as real * y,
                    nr >= 1 as real,
                    gr == 1_000_000_000nat as real,
                    t > 0 as real,
                    t * 0x1_0000_0000_0000_0000nat as real * 0x10_0000_0000nat as real
                        == 1 as real,
            ;
            assert(y / z >= t) by (nonlinear_arith)
                requires
                    t * z <= y,
                    z > 0 as real,
            ;
        }
    }
    worth::lemma_quotient_worth(b, c);
    let part = binary64::quotient(b, c);
    let w = worth::worth(part);
    let frac = worth::over(nr, gr);
    assert(frac >= 0 as real) by {
        reveal(worth::over);
        assert(nr / gr >= 0 as real) by (nonlinear_arith)
            requires
                nr >= 0 as real,
                gr > 0 as real,
        ;
    }
    worth::lemma_nearly_trans(w, exact, frac, 1, 3);
    worth::lemma_nearly_weaken(x, sr, 1, 5);
    worth::lemma_near_sum(x, sr, w, frac, 5nat as real * worth::ulp());
    assert(worth::nearly(x + w, sr + frac, 5));
    worth::lemma_nearly_half(w, frac, 5);
    assert(x + w == 0 as real || x + w >= t) by {
        if s > 0 {
            assert(sr >= 1 as real);
            assert(t <= 1 as real / 2 as real) by (nonlinear_arith)
                requires
                    t > 0 as real,
                    t * 0x1_0000_0000_0000_0000nat as real * 0x10_0000_0000nat as real
                        == 1 as real,
            ;
        } else if n > 0 {
            worth::lemma_nearly_half(w, exact, 1);
            assert(frac >= 2 as real * t) by {
                reveal(worth::over);
                assert((2 as real * t) * gr <= 1 as real) by (nonlinear_arith)
                    requires
                        t > 0 as real,
                        gr == 1_000_000_000nat as real,
                        t * 0x1_0000_0000_0000_0000nat as real * 0x10_0000_0000nat as real
                            == 1 as real,
                ;
                assert(nr / gr >= 2 as real * t) by (nonlinear_arith)
                    requires
                        (2 as real * t) * gr <= 1 as real,
                        nr >= 1 as real,
                        gr > 0 as real,
                ;
            }
        }
    }
    worth::lemma_sum_worth(a, part);
    worth::lemma_nearly_trans(worth::worth(e.seconds()), x + w, time(e), 1, 5);
    worth::lemma_nearly_weaken(worth::worth(e.seconds()), time(e), 7, 10);
    if nanoseconds(e) > 0 {
        assert(s > 0 || n > 0);
    }
}

/// The bits of so many bytes.
pub open spec fn bits_of(bytes: u64) -> real {
    (8 * bytes as nat) as real
}

/// The rate of so many bytes in the span, in bits per second.
pub open spec fn rate(bytes: u64, e: Elapsed) -> real {
    worth::over(bits_of(bytes), time(e))
}

proof fn lemma_time_range(e: Elapsed)
    requires
        e.valid(),
        nanoseconds(e) > 0,
    ensures
        time(e) > 0 as real,
        time(e) <= 0x1_0000_0000_0000_0000nat as real,
        time(e) * 1_000_000_000nat as real >= 1 as real,
{
    lemma_time_parts(e);
    let (t, g) = (time(e), 1_000_000_000nat as real);
    assert(nanoseconds(e) <= 0x1_0000_0000_0000_0000nat * 1_000_000_000nat);
    worth::lemma_real_mul(0x1_0000_0000_0000_0000nat, 1_000_000_000nat);
    let a = 0x1_0000_0000_0000_0000nat as real;
    assert(t * g <= a * g);
    assert(t <= a) by (nonlinear_arith)
        requires
            t * g <= a * g,
            g > 0 as real,
    ;
}

/// The span in milliseconds, as it is reckoned, is the span.
pub proof fn lemma_milliseconds_accurate(e: Elapsed)
    requires
        e.valid(),
    ensures
        worth::nearly(worth::worth(e.milliseconds()), time(e) * 1000nat as real, 20),
{
    lemma_tiny();
    lemma_seconds_accurate(e);
    lemma_time_parts(e);
    worth::lemma_count_worth(1000);
    let (t, k, m) = (time(e), 1000nat as real, worth::tiny());
    if nanoseconds(e) > 0 {
        lemma_time_range(e);
        assert(t * k >= 2 as real * m) by (nonlinear_arith)
            requires
                t * 1_000_000_000nat as real >= 1 as real,
                k == 1000nat as real,
                m > 0 as real,
                m * 0x1_0000_0000_0000_0000nat as real * 0x10_0000_0000nat as real == 1 as real,
        ;
    } else {
        lemma_no_time(e);
    }
    let h = binary64::double(1000, 1);
    worth::lemma_multiplied(e.seconds(), h, t, k, 10, 1);
    assert(t * k >= 0 as real);
    worth::lemma_nearly_weaken(worth::worth(e.milliseconds()), t * k, 14, 20);
}

proof fn lemma_no_time(e: Elapsed)
    requires
        e.valid(),
        nanoseconds(e) == 0,
    ensures
        worth::worth(e.seconds()) == 0 as real,
{
    lemma_seconds_accurate(e);
    lemma_time_parts(e);
    worth::lemma_nearly_half(worth::worth(e.seconds()), time(e), 10);
}

/// The rate, as it is reckoned, is bits over seconds.
pub proof fn lemma_bit_rate_accurate(e: Elapsed, bytes: u64)
    requires
        e.valid(),
        nanoseconds(e) > 0,
    ensures
        worth::nearly(worth::worth(e.bit_rate(bytes)), rate(bytes, e), 20),
        worth::worth(e.bit_rate(bytes)) >= 0 as real,
        rate(bytes, e) >= 0 as real,
        bytes == 0 ==> worth::worth(e.bit_rate(bytes)) == 0 as real && rate(bytes, e) == 0 as real,
        bytes > 0 ==> worth::worth(e.bit_rate(bytes)) > 0 as real,
        bytes > 0 ==> rate(bytes, e) * 0x1_0000_0000_0000_0000nat as real >= 8 as real,
{
    lemma_tiny();
    lemma_seconds_accurate(e);
    lemma_time_range(e);
    let n = bytes as nat;
    worth::lemma_count_worth(n);
    worth::lemma_count_worth(8);
    worth::lemma_real_mul(8, n);
    let (x, y, m) = (n as real, 8nat as real, worth::tiny());
    let a = 0x1_0000_0000_0000_0000nat as real;
    let t = time(e);
    assert(m * a * 0x10_0000_0000nat as real == 1 as real);
    if n > 0 {
        assert(x * y >= 2 as real * m) by (nonlinear_arith)
            requires
                x >= 1 as real,
                y == 8 as real,
                m > 0 as real,
                a == 0x1_0000_0000_0000_0000nat as real,
                m * a * 0x10_0000_0000nat as real == 1 as real,
        ;
    }
    worth::lemma_multiplied(binary64::double(n, 1), binary64::double(8, 1), x, y, 1, 1);
    let bits = binary64::product(binary64::double(n, 1), binary64::double(8, 1));
    assert(x * y == bits_of(bytes)) by (nonlinear_arith)
        requires
            bits_of(bytes) == y * x,
    ;
    let b = bits_of(bytes);
    if n > 0 {
        let low = 8 as real / a;
        assert(low * t <= b && low >= 2 as real * m && low * a == 8 as real) by (nonlinear_arith)
            requires
                low == 8 as real / a,
                t <= a,
                t > 0 as real,
                b == x * y,
                x >= 1 as real,
                y == 8 as real,
                m > 0 as real,
                a == 0x1_0000_0000_0000_0000nat as real,
                m * a * 0x10_0000_0000nat as real == 1 as real,
        ;
        worth::lemma_over_at_least(b, t, low);
        assert(rate(bytes, e) * a >= 8 as real) by (nonlinear_arith)
            requires
                rate(bytes, e) >= low,
                low * a == 8 as real,
                a > 0 as real,
        ;
    }
    worth::lemma_divided(bits, e.seconds(), b, t, 5, 10);
    worth::lemma_nearly_weaken(worth::worth(e.bit_rate(bytes)), rate(bytes, e), 18, 20);
}

/// A rate divided by a thousand or a million.
proof fn lemma_rate_in(e: Elapsed, bytes: u64, unit: nat)
    requires
        e.valid(),
        nanoseconds(e) > 0,
        1 <= unit <= 1_000_000,
    ensures
        ({
            let q = binary64::quotient(e.bit_rate(bytes), binary64::double(unit, 1));
            let r = worth::over(rate(bytes, e), unit as real);
            &&& worth::nearly(worth::worth(q), r, 30)
            &&& worth::worth(q) >= 0 as real
            &&& r >= 0 as real
        }),
{
    lemma_tiny();
    lemma_bit_rate_accurate(e, bytes);
    worth::lemma_count_worth(unit);
    let (x, y, m) = (rate(bytes, e), unit as real, worth::tiny());
    let a = 0x1_0000_0000_0000_0000nat as real;
    let b = 0x10_0000_0000nat as real;
    if bytes > 0 {
        assert((2 as real * m) * y <= x) by (nonlinear_arith)
            requires
                x * a >= 8 as real,
                y <= 1_000_000nat as real,
                y > 0 as real,
                m > 0 as real,
                a == 0x1_0000_0000_0000_0000nat as real,
                b == 0x10_0000_0000nat as real,
                m * a * b == 1 as real,
        ;
        worth::lemma_over_at_least(x, y, 2 as real * m);
    }
    worth::lemma_divided(e.bit_rate(bytes), binary64::double(unit, 1), x, y, 20, 1);
    let q = binary64::quotient(e.bit_rate(bytes), binary64::double(unit, 1));
    worth::lemma_nearly_weaken(worth::worth(q), worth::over(x, y), 24, 30);
}

/// The rate in megabits, as it is reckoned, is bits over seconds over a million; it is 0 for a span
/// of nothing.
pub proof fn lemma_megabit_rate_accurate(e: Elapsed, bytes: u64)
    requires
        e.valid(),
    ensures
        nanoseconds(e) > 0 ==> worth::nearly(
            worth::worth(e.megabit_rate(bytes)),
            worth::over(rate(bytes, e), 1_000_000nat as real),
            30,
        ),
        nanoseconds(e) == 0 ==> worth::worth(e.megabit_rate(bytes)) == 0 as real,
{
    if nanoseconds(e) > 0 {
        lemma_rate_in(e, bytes, 1_000_000);
    } else {
        worth::lemma_count_worth(0);
    }
}

/// The rate in kilobits is the integer part of bits over seconds over a thousand, but for rounding
/// and the width of the integer.
pub proof fn lemma_kilobit_rate_accurate(e: Elapsed, bytes: u64) -> (x: real)
    requires
        e.valid(),
        nanoseconds(e) > 0,
        rate(bytes, e) <= 0x1_0000_0000_0000_0000nat as real,
    ensures
        worth::nearly(x, worth::over(rate(bytes, e), 1000nat as real), 30),
        x >= 0 as real,
        e.kilobit_rate(bytes) as real <= x,
        x < e.kilobit_rate(bytes) as real + 1 as real,
        e.kilobit_rate(bytes) <= u64::MAX,
{
    lemma_rate_in(e, bytes, 1000);
    let q = binary64::quotient(e.bit_rate(bytes), binary64::double(1000, 1));
    let (x, r) = (worth::worth(q), worth::over(rate(bytes, e), 1000nat as real));
    let whole = binary64::num(q) / binary64::den(q);
    binary64::lemma_den_positive(q, q);
    worth::lemma_real_div(binary64::num(q), binary64::den(q));
    worth::lemma_nearly_half(x, r, 30);
    lemma_bit_rate_accurate(e, bytes);
    let y = rate(bytes, e);
    worth::lemma_over_sign(y, 1000nat as real);
    assert(whole <= u64::MAX) by {
        assert(r * 1000nat as real == y);
        assert(x <= 0x1000_0000_0000_0000nat as real);
    }
    assert(e.kilobit_rate(bytes) == whole);
    x
}

/// Microseconds are a thousandth of the nanoseconds, rounded down, as long as 64 bits hold them.
pub proof fn lemma_microseconds_accurate(e: Elapsed)
    requires
        e.valid(),
        nanoseconds(e) < 0x1_0000_0000_0000_0000nat * 1000,
    ensures
        1000 * e.microseconds() <= nanoseconds(e) < 1000 * (e.microseconds() + 1),
{
}

/// A rate in kilobits, however large, is the integer part of bits over seconds over a thousand, but
/// for rounding, or the largest integer that 64 bits hold.
pub proof fn lemma_kilobit_rate_large(e: Elapsed, bytes: u64) -> (x: real)
    requires
        e.valid(),
        nanoseconds(e) > 0,
    ensures
        worth::nearly(x, worth::over(rate(bytes, e), 1000nat as real), 30),
        x >= 0 as real,
        worth::over(rate(bytes, e), 1000nat as real) >= 0 as real,
        e.kilobit_rate(bytes) == u64::MAX || x < e.kilobit_rate(bytes) as real + 1 as real,
{
    lemma_rate_in(e, bytes, 1000);
    let q = binary64::quotient(e.bit_rate(bytes), binary64::double(1000, 1));
    binary64::lemma_den_positive(q, q);
    worth::lemma_real_div(binary64::num(q), binary64::den(q));
    worth::worth(q)
}

} // verus!
