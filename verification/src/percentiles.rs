//! What the percentiles of a result say of the requests: how many of them took no longer, or ran no
//! faster, and how many did.
use vstd::multiset::Multiset;
use vstd::prelude::*;

use crate::accuracy;
use crate::binary64;
use crate::elapsed::Elapsed;
use crate::histogram;
use crate::metrics;
use crate::metrics::{BenchmarkResult, Call};
use crate::rounding;
use crate::worth;

verus! {

/// How many of the calls have a property.
pub open spec fn count(calls: Seq<Call>, has: spec_fn(Call) -> bool) -> nat
    decreases calls.len(),
{
    if calls.len() == 0 {
        0
    } else {
        count(calls.drop_last(), has) + if has(calls.last()) {
            1nat
        } else {
            0nat
        }
    }
}

/// A request that succeeded and whose latency there is room for: it took less than `2^30`
/// microseconds, some 18 minutes.
pub open spec fn succeeded(c: Call) -> bool {
    c is Request && c->Request_2 && accuracy::nanoseconds(c->Request_0) < 1_073_741_824_000
}

/// A request that succeeded, took any time, and whose throughput there is room for: it ran at less
/// than `2^27` kilobits per second, some 134 gigabits.
pub open spec fn timed(c: Call) -> bool {
    c is Request && c->Request_2 && accuracy::nanoseconds(c->Request_0) > 0 && kilobits(c)
        <= 134_217_000nat as real
}

/// How long a request took, in microseconds.
pub open spec fn micros(c: Call) -> real {
    worth::ratio(accuracy::nanoseconds(c->Request_0), 1000)
}

/// How fast a request was, in kilobits per second.
pub open spec fn kilobits(c: Call) -> real {
    worth::over(accuracy::rate(c->Request_1, c->Request_0), 1000nat as real)
}

/// `x` is not above `p`, but for one unit and one part in a hundred thousand.
pub open spec fn not_above(x: real, p: real) -> bool {
    x * 100_000nat as real <= p * 100_001nat as real + 100_001nat as real
}

/// `x` is below `p` by more than one unit and one part in a thousand.
pub open spec fn clearly_below(x: real, p: real) -> bool {
    p * 1000nat as real > x * 1001nat as real + 1001nat as real
}

/// As many of `n` as a percentile asks for, given in tenths of a percent, but for rounding.
pub open spec fn at_least_share(k: nat, n: nat, tenths: nat) -> bool {
    1_000_000_000 * k >= tenths * n * 999_999
}

/// No more of `n` than a percentile asks for, given in tenths of a percent, but for rounding.
pub open spec fn at_most_share(k: nat, n: nat, tenths: nat) -> bool {
    1_000_000_000 * k <= tenths * n * 1_000_001
}

/// `p`, in milliseconds, is the latency at a percentile of the requests that succeeded.
pub open spec fn is_latency_at(calls: Seq<Call>, p: real, tenths: nat) -> bool {
    let n = count(calls, |c: Call| succeeded(c));
    let q = p * 1000nat as real;
    if n == 0 {
        p == 0 as real
    } else {
        &&& at_least_share(
            count(calls, |c: Call| succeeded(c) && not_above(micros(c), q)),
            n,
            tenths,
        )
        &&& at_most_share(
            count(calls, |c: Call| succeeded(c) && clearly_below(micros(c), q)),
            n,
            tenths,
        )
    }
}

/// `p`, in megabits per second, is the throughput at a percentile of the requests that succeeded
/// and took any time.
pub open spec fn is_throughput_at(calls: Seq<Call>, p: real, tenths: nat) -> bool {
    let n = count(calls, |c: Call| timed(c));
    let q = p * 1000nat as real;
    if n == 0 {
        p == 0 as real
    } else {
        &&& at_least_share(
            count(calls, |c: Call| timed(c) && not_above(kilobits(c), q)),
            n,
            tenths,
        )
        &&& at_most_share(
            count(calls, |c: Call| timed(c) && clearly_below(kilobits(c), q)),
            n,
            tenths,
        )
    }
}

/// One part in a million.
pub open spec fn millionth() -> real {
    worth::ratio(1, 1_000_000)
}

proof fn lemma_millionth()
    ensures
        millionth() > 0 as real,
        millionth() * 1_000_000nat as real == 1 as real,
        1000nat as real * worth::ulp() <= millionth(),
{
    reveal(worth::over);
    let e = millionth();
    assert(e == 1nat as real / 1_000_000nat as real);
    assert(1000nat as real * worth::ulp() <= e);
}

proof fn lemma_within_millionth(x: real, y: real, k: nat)
    requires
        worth::nearly(x, y, k),
        k <= 1000,
        x >= 0 as real,
        y >= 0 as real,
    ensures
        x <= y * (1 as real + millionth()),
        y <= x * (1 as real + millionth()),
{
    lemma_millionth();
    worth::lemma_nearly_weaken(x, y, k, 1000);
    worth::lemma_near_weaken(x, y, 1000nat as real * worth::ulp(), millionth());
    reveal(worth::near);
}

/// What the level of a recorded value says of the value, beside the level at a percentile.
#[verifier::spinoff_prover]
proof fn lemma_beside(x: real, u: nat, level: nat, p: real)
    requires
        u >= 1,
        x >= 0 as real,
        p >= 0 as real,
        u == 1 || u as real <= x * (1 as real + millionth()),
        x <= (u + 1) as real * (1 as real + millionth()),
        p <= level as real * (1 as real + millionth()),
        level as real <= p * (1 as real + millionth()),
    ensures
        histogram::level(u) <= level ==> not_above(x, p),
        clearly_below(x, p) ==> histogram::level(u) < level,
{
    lemma_millionth();
    histogram::lemma_level_precision(u);
    let (e, ur, l) = (millionth(), u as real, level as real);
    let h = histogram::level(u) as real;
    let (one, million) = (1 as real, 1_000_000nat as real);
    if histogram::level(u) <= level {
        assert(ur <= l);
        assert((ur + one) * (one + e) <= (l + one) * (one + e)) by (nonlinear_arith)
            requires
                ur <= l,
                e > 0 as real,
                one == 1 as real,
        ;
        assert((l + one) * (one + e) <= (p * (one + e) + one) * (one + e)) by (nonlinear_arith)
            requires
                l <= p * (one + e),
                e > 0 as real,
                one == 1 as real,
        ;
        assert((p * (one + e) + one) * (one + e) * 100_000nat as real <= p * 100_001nat as real
            + 100_001nat as real) by (nonlinear_arith)
            requires
                p >= 0 as real,
                e > 0 as real,
                one == 1 as real,
                e * 1_000_000nat as real == 1 as real,
        ;
    }
    if histogram::level(u) >= level {
        assert(l <= h);
        assert(l * (one + e) <= h * (one + e)) by (nonlinear_arith)
            requires
                l <= h,
                e > 0 as real,
                one == 1 as real,
        ;
        if u == 1 {
            assert(h == 1 as real);
            assert(h * (one + e) * 1000nat as real <= 1001nat as real) by (nonlinear_arith)
                requires
                    h == 1 as real,
                    one == 1 as real,
                    e * 1_000_000nat as real == 1 as real,
            ;
            assert(x * 1001nat as real >= 0 as real);
        } else {
            assert(1024 * (histogram::level(u) - u) <= u);
            assert(1024nat as real * h <= 1025nat as real * ur);
            assert(1024nat as real * (h * (one + e)) <= 1025nat as real * (ur * (one + e)))
                by (nonlinear_arith)
                requires
                    1024nat as real * h <= 1025nat as real * ur,
                    e > 0 as real,
                    one == 1 as real,
            ;
            assert(ur * (one + e) <= (x * (one + e)) * (one + e)) by (nonlinear_arith)
                requires
                    ur <= x * (one + e),
                    e > 0 as real,
                    one == 1 as real,
            ;
            assert(1025nat as real * ((x * (one + e)) * (one + e)) * 1000nat as real <= 1024nat
                as real * (x * 1001nat as real)) by (nonlinear_arith)
                requires
                    x >= 0 as real,
                    one == 1 as real,
                    e > 0 as real,
                    e * 1_000_000nat as real == 1 as real,
            ;
        }
    }
}

/// How the rank of a percentile stands to the number of values.
#[verifier::spinoff_prover]
proof fn lemma_rank_share(n: nat, tenths: nat)
    requires
        0 < n <= u64::MAX,
        1 <= tenths <= 999,
    ensures
        at_least_share(histogram::rank(n, tenths), n, tenths),
        at_most_share((histogram::rank(n, tenths) - 1) as nat, n, tenths),
        0 < histogram::rank(n, tenths) <= n,
{
    accuracy::lemma_tiny();
    lemma_millionth();
    histogram::lemma_rank_within(n, tenths);
    let (t, h, c) = (
        binary64::double(tenths, 10),
        binary64::double(100, 1),
        binary64::double(n, 1),
    );
    let s = histogram::share(tenths);
    let x = binary64::product(s, c);
    let m = worth::tiny();
    worth::lemma_count_worth(100);
    worth::lemma_count_worth(n);
    worth::lemma_ratio_positive(tenths, 10);
    let (tr, nr) = (worth::ratio(tenths, 10), n as real);
    assert(tr * 10nat as real == tenths as real) by {
        worth::lemma_over_sign(tenths as real, 10nat as real);
    }
    assert(tr * 10nat as real >= 1 as real);
    assert(m * 1000nat as real * 10nat as real <= 1 as real) by (nonlinear_arith)
        requires
            m > 0 as real,
            m * 0x1_0000_0000_0000_0000nat as real * 0x10_0000_0000nat as real == 1 as real,
    ;
    assert(tr >= m);
    worth::lemma_not_tiny(tenths, 10);
    let hr = 100nat as real;
    assert((2 as real * m) * hr <= tr);
    worth::lemma_over_at_least(tr, hr, 2 as real * m);
    worth::lemma_divided(t, h, tr, hr, 1, 1);
    let sr = worth::over(tr, hr);
    worth::lemma_over_sign(tr, hr);
    assert(sr * hr == tr);
    assert(sr * nr >= 2 as real * m) by (nonlinear_arith)
        requires
            sr >= 2 as real * m,
            nr >= 1 as real,
            m > 0 as real,
    ;
    worth::lemma_multiplied(s, c, sr, nr, 5, 1);
    let (w, y) = (worth::worth(x), sr * nr);
    lemma_within_millionth(w, y, 9);
    // What is asked for, exactly.
    let exact = (tenths * n) as real;
    worth::lemma_real_mul(tenths, n);
    assert(y * 1000nat as real == exact) by (nonlinear_arith)
        requires
            y == sr * nr,
            sr * hr == tr,
            tr * 10nat as real == tenths as real,
            hr == 100nat as real,
            exact == tenths as real * nr,
    ;
    // The rank is what was reckoned, rounded up.
    let (xn, xd) = (binary64::num(x), binary64::den(x));
    binary64::lemma_den_positive(x, x);
    let k = ((xn + xd - 1) / (xd as int)) as nat;
    vstd::arithmetic::div_mod::lemma_div_pos_is_pos(xn + xd - 1, xd as int);
    rounding::lemma_rounded_up(xn, xd, k);
    worth::lemma_real_ratio(xn, xd, k, 1);
    worth::lemma_ratio_whole(k);
    assert(w <= k as real);
    assert(w > 0 as real);
    assert(k > 0);
    rounding::lemma_rounded_up(xn, xd, (k - 1) as nat);
    worth::lemma_real_ratio(xn, xd, (k - 1) as nat, 1);
    worth::lemma_ratio_whole((k - 1) as nat);
    assert(w > (k - 1) as real);
    let e = millionth();
    assert(exact <= 999nat as real * nr) by (nonlinear_arith)
        requires
            exact == tenths as real * nr,
            tenths as real <= 999nat as real,
            nr >= 0 as real,
    ;
    assert(w <= nr) by (nonlinear_arith)
        requires
            w <= y * (1 as real + e),
            y * 1000nat as real == exact,
            exact <= 999nat as real * nr,
            exact >= 0 as real,
            nr >= 0 as real,
            e > 0 as real,
            e * 1_000_000nat as real == 1 as real,
    ;
    assert(k - 1 < n);
    assert(histogram::rank(n, tenths) == k);
    let (a, b) = (k as real, (k - 1) as real);
    assert(a * 1_000_000_000nat as real >= exact * 999_999nat as real) by (nonlinear_arith)
        requires
            y <= w * (1 as real + e),
            w <= a,
            y * 1000nat as real == exact,
            exact >= 0 as real,
            e > 0 as real,
            e * 1_000_000nat as real == 1 as real,
    ;
    assert(b * 1_000_000_000nat as real <= exact * 1_000_001nat as real) by (nonlinear_arith)
        requires
            w <= y * (1 as real + e),
            b <= w,
            y * 1000nat as real == exact,
            e * 1_000_000nat as real == 1 as real,
    ;
    worth::lemma_real_mul(k, 1_000_000_000);
    worth::lemma_real_mul(tenths * n, 999_999);
    worth::lemma_real_mul((k - 1) as nat, 1_000_000_000);
    worth::lemma_real_mul(tenths * n, 1_000_001);
}

/// `p` is a thousandth of the value at a percentile, given in tenths of a percent, but for a few
/// roundings; 0 if nothing is held.
pub open spec fn is_thousandth_at(p: real, held: Multiset<u64>, tenths: nat) -> bool {
    if held.len() == 0 {
        p == 0 as real
    } else {
        worth::nearly(p, worth::ratio(histogram::percentile(held, tenths) as nat, 1000), 5)
    }
}

/// What is reported of a percentile is a thousandth of the value there.
pub proof fn lemma_is_thousandth(held: Multiset<u64>, tenths: nat)
    ensures
        is_thousandth_at(worth::worth(metrics::thousandth_at(held, tenths)), held, tenths),
{
    accuracy::lemma_tiny();
    worth::lemma_count_worth(0);
    let v = histogram::percentile(held, tenths) as nat;
    let (l, k, m) = (v as real, 1000nat as real, worth::tiny());
    worth::lemma_count_worth(v);
    worth::lemma_count_worth(1000);
    if v > 0 {
        assert((2 as real * m) * k <= l) by (nonlinear_arith)
            requires
                l >= 1 as real,
                k == 1000nat as real,
                m > 0 as real,
                m * 0x1_0000_0000_0000_0000nat as real * 0x10_0000_0000nat as real == 1 as real,
        ;
        worth::lemma_over_at_least(l, k, 2 as real * m);
    }
    worth::lemma_divided(binary64::double(v, 1), binary64::double(1000, 1), l, k, 1, 1);
}

/// The value recorded, of which there is one more: at least 1, at its level, if there is room.
pub open spec fn one_more(held: Multiset<u64>, v: nat, room: nat) -> Multiset<u64> {
    let u = if v == 0 {
        1
    } else {
        v
    };
    if u < room {
        held.insert(histogram::level(u) as u64)
    } else {
        held
    }
}

/// A request that succeeds leaves its whole microseconds, and its whole kilobits per second if it
/// took any time.
pub proof fn lemma_recorded(g: metrics::Gathered, latency: Elapsed, bytes: u64) -> (kbps: nat)
    requires
        latency.valid(),
        accuracy::nanoseconds(latency) < 0x1_0000_0000_0000_0000nat * 1000,
    ensures
        g.with_request(latency, bytes, true).latencies == one_more(
            g.latencies,
            accuracy::nanoseconds(latency) / 1000,
            0x4000_0000,
        ),
        accuracy::nanoseconds(latency) == 0 ==> g.with_request(latency, bytes, true).throughputs
            == g.throughputs,
        accuracy::nanoseconds(latency) > 0 ==> g.with_request(latency, bytes, true).throughputs
            == one_more(g.throughputs, kbps, 0x800_0000),
        accuracy::nanoseconds(latency) > 0 && accuracy::rate(bytes, latency)
            <= 0x1_0000_0000_0000_0000nat as real ==> is_whole_part(
            kbps,
            worth::over(accuracy::rate(bytes, latency), 1000nat as real),
        ),
        accuracy::nanoseconds(latency) > 0 && accuracy::rate(bytes, latency)
            >= 0x1_0000_0000_0000_0000nat as real ==> kbps >= 0x800_0000,
{
    lemma_capacities();
    lemma_millionth();
    accuracy::lemma_microseconds_accurate(latency);
    let (t, us) = (accuracy::nanoseconds(latency), latency.microseconds());
    assert(t / 1000 == us);
    let k = latency.kilobit_rate(bytes);
    if t > 0 {
        let r = accuracy::rate(bytes, latency);
        accuracy::lemma_bit_rate_accurate(latency, bytes);
        worth::lemma_over_sign(r, 1000nat as real);
        let x = worth::over(r, 1000nat as real);
        assert(x * 1000nat as real == r);
        if r <= 0x1_0000_0000_0000_0000nat as real {
            let y = accuracy::lemma_kilobit_rate_accurate(latency, bytes);
            assert(worth::nearly(y, x, 30));
        }
        if r >= 0x1_0000_0000_0000_0000nat as real {
            let c = Call::Request(latency, bytes, true);
            assert(kilobits(c) >= 134_219_000nat as real);
            lemma_no_room(c);
        }
    }
    k
}

/// `k` is the integer part of `x`, but for rounding.
pub open spec fn is_whole_part(k: nat, x: real) -> bool {
    exists|y: real| #[trigger]
        worth::nearly(y, x, 30) && k as real <= y && y < k as real + 1 as real
}

/// What a thousandth of the value at a percentile is worth.
proof fn lemma_thousandth_worth(held: Multiset<u64>, tenths: nat)
    requires
        held.len() > 0,
    ensures
        ({
            let l = histogram::percentile(held, tenths) as nat as real;
            let p = worth::worth(metrics::thousandth_at(held, tenths)) * 1000nat as real;
            &&& p >= 0 as real
            &&& p <= l * (1 as real + millionth())
            &&& l <= p * (1 as real + millionth())
        }),
{
    accuracy::lemma_tiny();
    let v = histogram::percentile(held, tenths) as nat;
    let (l, k, m) = (v as real, 1000nat as real, worth::tiny());
    worth::lemma_count_worth(v);
    worth::lemma_count_worth(1000);
    if v > 0 {
        assert((2 as real * m) * k <= l) by (nonlinear_arith)
            requires
                l >= 1 as real,
                k == 1000nat as real,
                m > 0 as real,
                m * 0x1_0000_0000_0000_0000nat as real * 0x10_0000_0000nat as real == 1 as real,
        ;
        worth::lemma_over_at_least(l, k, 2 as real * m);
    }
    worth::lemma_divided(binary64::double(v, 1), binary64::double(1000, 1), l, k, 1, 1);
    let x = worth::worth(metrics::thousandth_at(held, tenths));
    worth::lemma_over_sign(l, k);
    worth::lemma_near_scale(x, worth::over(l, k), k, 5nat as real * worth::ulp());
    assert(x * k >= 0 as real) by (nonlinear_arith)
        requires
            x >= 0 as real,
            k == 1000nat as real,
    ;
    lemma_within_millionth(x * k, l, 5);
}

/// A property that follows from another is no rarer.
proof fn lemma_count_implied(
    calls: Seq<Call>,
    a: spec_fn(Call) -> bool,
    b: spec_fn(Call) -> bool,
)
    requires
        forall|i: int| 0 <= i < calls.len() && a(#[trigger] calls[i]) ==> b(calls[i]),
    ensures
        count(calls, a) <= count(calls, b),
    decreases calls.len(),
{
    if calls.len() > 0 {
        let earlier = calls.drop_last();
        assert forall|i: int| 0 <= i < earlier.len() && a(#[trigger] earlier[i]) implies b(
            earlier[i],
        ) by {
            assert(earlier[i] == calls[i]);
        }
        lemma_count_implied(earlier, a, b);
        assert(calls.last() == calls[calls.len() - 1]);
    }
}

/// What the histograms have room for.
proof fn lemma_capacities()
    ensures
        histogram::capacity(metrics::MAX_LATENCY_US as nat) == 0x4000_0000,
        histogram::capacity(metrics::MAX_THROUGHPUT_KBPS as nat) == 0x800_0000,
{
    vstd::arithmetic::power2::lemma2_to64();
    rounding::lemma_log2_unique(metrics::MAX_LATENCY_US as nat, 29);
    rounding::lemma_log2_unique(metrics::MAX_THROUGHPUT_KBPS as nat, 26);
}

/// A value that there is room for is held.
proof fn lemma_tracked(held: Multiset<u64>, high: u64, v: u64, top: int)
    requires
        v < histogram::capacity(high as nat),
        v <= 0x1_0000_0000,
    ensures
        histogram::level(v as nat) <= u64::MAX,
        histogram::with_recorded(held, high, v).len() == held.len() + 1,
        histogram::count_at_most(histogram::with_recorded(held, high, v), top)
            == histogram::count_at_most(held, top) + if histogram::level(v as nat) <= top {
            1nat
        } else {
            0nat
        },
{
    histogram::lemma_level_precision(v as nat);
    let x = histogram::level(v as nat) as u64;
    let more = held.insert(x);
    let low = |y: u64| y <= top;
    if x <= top {
        assert(more.filter(low) =~= held.filter(low).insert(x));
    } else {
        assert(more.filter(low) =~= held.filter(low));
    }
}

/// The value recorded of a latency.
spec fn latency_value(c: Call) -> nat {
    metrics::at_least_one(c->Request_0.microseconds()) as nat
}

/// The value recorded of a throughput.
spec fn throughput_value(c: Call) -> nat {
    metrics::at_least_one(c->Request_0.kilobit_rate(c->Request_1)) as nat
}

/// The latencies are spans of time, in less than `2^64` microseconds.
pub open spec fn latencies_tracked(calls: Seq<Call>) -> bool {
    forall|i: int|
        0 <= i < calls.len() && (#[trigger] calls[i]) is Request ==> calls[i]->Request_0.valid()
            && accuracy::nanoseconds(calls[i]->Request_0) < 0x1_0000_0000_0000_0000nat * 1000
}

/// The latencies are spans of time, and no throughput is so close to what there is room for that
/// rounding decides.
pub open spec fn throughputs_tracked(calls: Seq<Call>) -> bool {
    forall|i: int|
        0 <= i < calls.len() && (#[trigger] calls[i]) is Request ==> calls[i]->Request_0.valid() && (
        accuracy::nanoseconds(calls[i]->Request_0) == 0 || kilobits(calls[i])
            <= 134_217_000nat as real || kilobits(calls[i]) >= 134_219_000nat as real)
}

proof fn lemma_latency_value(c: Call)
    requires
        succeeded(c),
        c->Request_0.valid(),
    ensures
        1 <= latency_value(c) < 0x4000_0000,
        ({
            let (x, u) = (micros(c), latency_value(c));
            &&& x >= 0 as real
            &&& u == 1 || u as real <= x * (1 as real + millionth())
            &&& x <= (u + 1) as real * (1 as real + millionth())
        }),
{
    lemma_millionth();
    let e = c->Request_0;
    let n = accuracy::nanoseconds(e);
    accuracy::lemma_microseconds_accurate(e);
    worth::lemma_ratio_positive(n, 1000);
    worth::lemma_over_sign(n as real, 1000nat as real);
    let (x, us, m) = (micros(c), e.microseconds() as real, millionth());
    assert(x * 1000nat as real == n as real);
    assert(us <= x && x < us + 1 as real);
    let u = latency_value(c) as real;
    assert(x * (1 as real + m) >= x) by (nonlinear_arith)
        requires
            x >= 0 as real,
            m > 0 as real,
    ;
    assert((u + 1 as real) * (1 as real + m) >= u + 1 as real) by (nonlinear_arith)
        requires
            u >= 0 as real,
            m > 0 as real,
    ;
}

proof fn lemma_throughput_value(c: Call)
    requires
        timed(c),
        c->Request_0.valid(),
    ensures
        1 <= throughput_value(c) < 0x800_0000,
        ({
            let (x, u) = (kilobits(c), throughput_value(c));
            &&& x >= 0 as real
            &&& u == 1 || u as real <= x * (1 as real + millionth())
            &&& x <= (u + 1) as real * (1 as real + millionth())
        }),
{
    lemma_millionth();
    let (e, b) = (c->Request_0, c->Request_1);
    accuracy::lemma_bit_rate_accurate(e, b);
    let r = accuracy::rate(b, e);
    worth::lemma_over_sign(r, 1000nat as real);
    let x = kilobits(c);
    assert(x * 1000nat as real == r);
    assert(r <= 0x1_0000_0000_0000_0000nat as real);
    let y = accuracy::lemma_kilobit_rate_accurate(e, b);
    lemma_within_millionth(y, x, 30);
    let (k, m) = (e.kilobit_rate(b) as real, millionth());
    assert(y <= 134_217_200nat as real) by (nonlinear_arith)
        requires
            y <= x * (1 as real + m),
            x <= 134_217_000nat as real,
            m > 0 as real,
            m * 1_000_000nat as real == 1 as real,
    ;
    assert((k + 1 as real) * (1 as real + m) >= y * (1 as real + m)) by (nonlinear_arith)
        requires
            y < k + 1 as real,
            m > 0 as real,
    ;
    let u = throughput_value(c) as real;
    assert((u + 1 as real) * (1 as real + m) >= (k + 1 as real) * (1 as real + m))
        by (nonlinear_arith)
        requires
            u >= k,
            m > 0 as real,
    ;
}

/// There is no room for a throughput of more than `2^27` kilobits per second.
proof fn lemma_no_room(c: Call)
    requires
        c is Request,
        c->Request_0.valid(),
        accuracy::nanoseconds(c->Request_0) > 0,
        kilobits(c) >= 134_219_000nat as real,
    ensures
        throughput_value(c) >= 0x800_0000,
{
    lemma_millionth();
    let (e, b) = (c->Request_0, c->Request_1);
    let k = accuracy::lemma_kilobit_rate_large(e, b);
    lemma_within_millionth(k, kilobits(c), 30);
    let (x, m) = (kilobits(c), millionth());
    assert(k >= 134_218_000nat as real) by (nonlinear_arith)
        requires
            x <= k * (1 as real + m),
            x >= 134_219_000nat as real,
            m > 0 as real,
            k >= 0 as real,
            m * 1_000_000nat as real == 1 as real,
    ;
}

/// The latencies held are the levels of those of the requests that succeeded.
proof fn lemma_latency_counts(calls: Seq<Call>, top: int)
    requires
        latencies_tracked(calls),
    ensures
        metrics::gathered_by(calls).latencies.len() == count(calls, |c: Call| succeeded(c)),
        histogram::count_at_most(metrics::gathered_by(calls).latencies, top) == count(
            calls,
            |c: Call| succeeded(c) && histogram::level(latency_value(c)) <= top,
        ),
    decreases calls.len(),
{
    lemma_capacities();
    let low = |c: Call| succeeded(c) && histogram::level(latency_value(c)) <= top;
    if calls.len() == 0 {
        assert(Multiset::<u64>::empty().filter(|x: u64| x <= top) =~= Multiset::empty());
    } else {
        let earlier = calls.drop_last();
        let last = calls.last();
        assert(last == calls[calls.len() - 1]);
        assert forall|i: int| 0 <= i < earlier.len() && (#[trigger] earlier[i]) is Request implies
            earlier[i]->Request_0.valid() && accuracy::nanoseconds(earlier[i]->Request_0)
            < 0x1_0000_0000_0000_0000nat * 1000 by {
            assert(earlier[i] == calls[i]);
        }
        lemma_latency_counts(earlier, top);
        if succeeded(last) {
            lemma_latency_value(last);
            lemma_tracked(
                metrics::gathered_by(earlier).latencies,
                metrics::MAX_LATENCY_US,
                latency_value(last) as u64,
                top,
            );
        } else if last is Request && last->Request_2 {
            accuracy::lemma_microseconds_accurate(last->Request_0);
            assert(latency_value(last) >= 0x4000_0000);
        }
    }
}

/// The throughputs held are the levels of those of the requests that succeeded and took any time.
proof fn lemma_throughput_counts(calls: Seq<Call>, top: int)
    requires
        throughputs_tracked(calls),
    ensures
        metrics::gathered_by(calls).throughputs.len() == count(calls, |c: Call| timed(c)),
        histogram::count_at_most(metrics::gathered_by(calls).throughputs, top) == count(
            calls,
            |c: Call| timed(c) && histogram::level(throughput_value(c)) <= top,
        ),
    decreases calls.len(),
{
    lemma_capacities();
    let low = |c: Call| timed(c) && histogram::level(throughput_value(c)) <= top;
    if calls.len() == 0 {
        assert(Multiset::<u64>::empty().filter(|x: u64| x <= top) =~= Multiset::empty());
    } else {
        let earlier = calls.drop_last();
        let last = calls.last();
        assert(last == calls[calls.len() - 1]);
        assert forall|i: int| 0 <= i < earlier.len() && (#[trigger] earlier[i]) is Request implies
            earlier[i]->Request_0.valid() && (accuracy::nanoseconds(earlier[i]->Request_0) == 0
            || kilobits(earlier[i]) <= 134_217_000nat as real || kilobits(earlier[i])
            >= 134_219_000nat as real) by {
            assert(earlier[i] == calls[i]);
        }
        lemma_throughput_counts(earlier, top);
        if timed(last) {
            lemma_throughput_value(last);
            lemma_tracked(
                metrics::gathered_by(earlier).throughputs,
                metrics::MAX_THROUGHPUT_KBPS,
                throughput_value(last) as u64,
                top,
            );
        } else if last is Request && last->Request_2 && accuracy::nanoseconds(last->Request_0) > 0 {
            lemma_no_room(last);
        }
    }
}

proof fn lemma_share_more(k: nat, l: nat, n: nat, tenths: nat)
    ensures
        k <= l && at_least_share(k, n, tenths) ==> at_least_share(l, n, tenths),
        k <= l && at_most_share(l, n, tenths) ==> at_most_share(k, n, tenths),
{
}

proof fn lemma_latency_at(calls: Seq<Call>, tenths: nat)
    requires
        latencies_tracked(calls),
        1 <= tenths <= 999,
        metrics::gathered_by(calls).latencies.len() <= u64::MAX,
    ensures
        is_latency_at(
            calls,
            worth::worth(metrics::thousandth_at(metrics::gathered_by(calls).latencies, tenths)),
            tenths,
        ),
{
    let held = metrics::gathered_by(calls).latencies;
    let p = worth::worth(metrics::thousandth_at(held, tenths));
    let q = p * 1000nat as real;
    lemma_latency_counts(calls, 0);
    let n = held.len();
    if n == 0 {
        worth::lemma_count_worth(0);
    } else {
        let l = histogram::percentile(held, tenths);
        let r = histogram::rank(n, tenths);
        lemma_rank_share(n, tenths);
        histogram::lemma_rank_inhabited(held, r);
        lemma_thousandth_worth(held, tenths);
        lemma_latency_counts(calls, l as int);
        lemma_latency_counts(calls, l - 1);
        let at = |c: Call| succeeded(c) && histogram::level(latency_value(c)) <= l as int;
        let under = |c: Call| succeeded(c) && histogram::level(latency_value(c)) <= l - 1;
        let a = |c: Call| succeeded(c) && not_above(micros(c), q);
        let b = |c: Call| succeeded(c) && clearly_below(micros(c), q);
        assert forall|i: int| 0 <= i < calls.len() && at(#[trigger] calls[i]) implies a(
            calls[i],
        ) by {
            lemma_latency_value(calls[i]);
            lemma_beside(micros(calls[i]), latency_value(calls[i]), l as nat, q);
        }
        assert forall|i: int| 0 <= i < calls.len() && b(#[trigger] calls[i]) implies under(
            calls[i],
        ) by {
            lemma_latency_value(calls[i]);
            lemma_beside(micros(calls[i]), latency_value(calls[i]), l as nat, q);
        }
        lemma_count_implied(calls, at, a);
        lemma_count_implied(calls, b, under);
        lemma_share_more(r, count(calls, a), n, tenths);
        lemma_share_more(count(calls, b), (r - 1) as nat, n, tenths);
    }
}

proof fn lemma_throughput_at(calls: Seq<Call>, tenths: nat)
    requires
        throughputs_tracked(calls),
        1 <= tenths <= 999,
        metrics::gathered_by(calls).throughputs.len() <= u64::MAX,
    ensures
        is_throughput_at(
            calls,
            worth::worth(metrics::thousandth_at(metrics::gathered_by(calls).throughputs, tenths)),
            tenths,
        ),
{
    let held = metrics::gathered_by(calls).throughputs;
    let p = worth::worth(metrics::thousandth_at(held, tenths));
    let q = p * 1000nat as real;
    lemma_throughput_counts(calls, 0);
    let n = held.len();
    if n == 0 {
        worth::lemma_count_worth(0);
    } else {
        let l = histogram::percentile(held, tenths);
        let r = histogram::rank(n, tenths);
        lemma_rank_share(n, tenths);
        histogram::lemma_rank_inhabited(held, r);
        lemma_thousandth_worth(held, tenths);
        lemma_throughput_counts(calls, l as int);
        lemma_throughput_counts(calls, l - 1);
        let at = |c: Call| timed(c) && histogram::level(throughput_value(c)) <= l as int;
        let under = |c: Call| timed(c) && histogram::level(throughput_value(c)) <= l - 1;
        let a = |c: Call| timed(c) && not_above(kilobits(c), q);
        let b = |c: Call| timed(c) && clearly_below(kilobits(c), q);
        assert forall|i: int| 0 <= i < calls.len() && at(#[trigger] calls[i]) implies a(
            calls[i],
        ) by {
            lemma_throughput_value(calls[i]);
            lemma_beside(kilobits(calls[i]), throughput_value(calls[i]), l as nat, q);
        }
        assert forall|i: int| 0 <= i < calls.len() && b(#[trigger] calls[i]) implies under(
            calls[i],
        ) by {
            lemma_throughput_value(calls[i]);
            lemma_beside(kilobits(calls[i]), throughput_value(calls[i]), l as nat, q);
        }
        lemma_count_implied(calls, at, a);
        lemma_count_implied(calls, b, under);
        lemma_share_more(r, count(calls, a), n, tenths);
        lemma_share_more(count(calls, b), (r - 1) as nat, n, tenths);
    }
}

/// The latencies of a result are what half, 95, 99 and 99.9 in a hundred of the requests that
/// succeeded stayed within.
pub proof fn lemma_latencies_mean(calls: Seq<Call>, r: BenchmarkResult)
    requires
        r.sums_up(metrics::gathered_by(calls)),
        latencies_tracked(calls),
    ensures
        is_latency_at(calls, worth::worth(r.latency.p50_ms@), 500),
        is_latency_at(calls, worth::worth(r.latency.p95_ms@), 950),
        is_latency_at(calls, worth::worth(r.latency.p99_ms@), 990),
        is_latency_at(calls, worth::worth(r.latency.p999_ms@), 999),
{
    metrics::lemma_calls_counted(calls);
    lemma_latency_at(calls, 500);
    lemma_latency_at(calls, 950);
    lemma_latency_at(calls, 990);
    lemma_latency_at(calls, 999);
}

/// The throughputs of a result are what half, 95, 99 and 99.9 in a hundred of the requests that
/// succeeded did not exceed.
pub proof fn lemma_throughputs_mean(calls: Seq<Call>, r: BenchmarkResult)
    requires
        r.sums_up(metrics::gathered_by(calls)),
        throughputs_tracked(calls),
    ensures
        is_throughput_at(calls, worth::worth(r.throughput.p50_mbps@), 500),
        is_throughput_at(calls, worth::worth(r.throughput.p95_mbps@), 950),
        is_throughput_at(calls, worth::worth(r.throughput.p99_mbps@), 990),
        is_throughput_at(calls, worth::worth(r.throughput.p999_mbps@), 999),
{
    metrics::lemma_calls_counted(calls);
    lemma_throughput_at(calls, 500);
    lemma_throughput_at(calls, 950);
    lemma_throughput_at(calls, 990);
    lemma_throughput_at(calls, 999);
}

/// Requests are counted by whether they succeeded.
pub proof fn lemma_counts_mean(calls: Seq<Call>, r: BenchmarkResult)
    requires
        r.sums_up(metrics::gathered_by(calls)),
    ensures
        r.total_requests == count(calls, |c: Call| c is Request),
        r.successful_requests == count(calls, |c: Call| c is Request && c->Request_2),
        r.failed_requests == count(calls, |c: Call| c is Request && !c->Request_2),
{
    lemma_counted(calls);
}

proof fn lemma_counted(calls: Seq<Call>)
    ensures
        metrics::gathered_by(calls).total == count(calls, |c: Call| c is Request),
        metrics::gathered_by(calls).failed == count(calls, |c: Call| c is Request && !c->Request_2),
        metrics::gathered_by(calls).total - metrics::gathered_by(calls).failed == count(
            calls,
            |c: Call| c is Request && c->Request_2,
        ),
    decreases calls.len(),
{
    if calls.len() > 0 {
        lemma_counted(calls.drop_last());
    }
}

/// `p` megabits per second are `bytes` in the span: the bits that go through in the span at that
/// rate are those of the bytes, but for a thousandth of them and for a kilobit per second.
pub open spec fn is_throughput_of(p: real, bytes: u64, e: Elapsed) -> bool {
    let (sent, said) = (
        accuracy::bits_of(bytes),
        p * 1_000_000nat as real * accuracy::time(e),
    );
    let slack = 1001nat as real * accuracy::time(e) + worth::over(sent, 1000nat as real);
    said - sent <= slack && sent - said <= slack
}

proof fn lemma_one(calls: Seq<Call>, has: spec_fn(Call) -> bool)
    requires
        calls.len() == 1,
    ensures
        count(calls, has) == if has(calls[0]) {
            1nat
        } else {
            0nat
        },
{
    assert(calls.drop_last() =~= seq![]);
    reveal_with_fuel(count, 2);
}

#[verifier::spinoff_prover]
proof fn lemma_one_throughput(c: Call, p: real, tenths: nat)
    requires
        timed(c),
        c->Request_0.valid(),
        1 <= tenths <= 999,
        p >= 0 as real,
        is_throughput_at(seq![c], p, tenths),
    ensures
        is_throughput_of(p, c->Request_1, c->Request_0),
{
    let calls = seq![c];
    let (e, bytes) = (c->Request_0, c->Request_1);
    let q = p * 1000nat as real;
    lemma_one(calls, |c: Call| timed(c));
    lemma_one(calls, |c: Call| timed(c) && not_above(kilobits(c), q));
    lemma_one(calls, |c: Call| timed(c) && clearly_below(kilobits(c), q));
    let x = kilobits(c);
    assert(not_above(x, q));
    assert(!clearly_below(x, q));
    accuracy::lemma_time_parts(e);
    accuracy::lemma_bit_rate_accurate(e, bytes);
    let (b, t, r) = (accuracy::bits_of(bytes), accuracy::time(e), accuracy::rate(bytes, e));
    worth::lemma_over_sign(b, t);
    worth::lemma_over_sign(r, 1000nat as real);
    worth::lemma_over_sign(b, 1000nat as real);
    let d = worth::over(b, 1000nat as real);
    assert(r * t == b && x * 1000nat as real == r && d * 1000nat as real == b);
    // In kilobits per second.
    assert(q - x <= x / 1000nat as real + 1001nat as real / 1000nat as real);
    assert(x - q <= x / 1000nat as real + 1001nat as real / 1000nat as real);
    // In bits.
    let k = 1000nat as real * t;
    assert(x * k == b) by (nonlinear_arith)
        requires
            x * 1000nat as real == r,
            r * t == b,
            k == 1000nat as real * t,
    ;
    assert(q * k == p * 1_000_000nat as real * t) by (nonlinear_arith)
        requires
            q == p * 1000nat as real,
            k == 1000nat as real * t,
    ;
    let slack = 1001nat as real * t + d;
    let s = x / 1000nat as real + 1001nat as real / 1000nat as real;
    assert(s * k == slack) by (nonlinear_arith)
        requires
            s * 1000nat as real == x + 1001nat as real,
            x * k == b,
            k == 1000nat as real * t,
            d * 1000nat as real == b,
            slack == 1001nat as real * t + d,
    ;
    assert((q - x) * k <= s * k && (x - q) * k <= s * k) by (nonlinear_arith)
        requires
            q - x <= s,
            x - q <= s,
            k >= 0 as real,
    ;
    assert((q - x) * k == q * k - x * k && (x - q) * k == x * k - q * k) by (nonlinear_arith);
}

/// After one request that succeeded, the throughput of the result is its bits over its time.
pub proof fn lemma_throughput_of_one(latency: Elapsed, bytes: u64, r: BenchmarkResult)
    requires
        latency.valid(),
        accuracy::nanoseconds(latency) > 0,
        accuracy::rate(bytes, latency) <= 134_217_000_000nat as real,
        r.sums_up(metrics::Gathered::nothing().with_request(latency, bytes, true)),
    ensures
        is_throughput_of(worth::worth(r.throughput.p50_mbps@), bytes, latency),
        is_throughput_of(worth::worth(r.throughput.p95_mbps@), bytes, latency),
        is_throughput_of(worth::worth(r.throughput.p99_mbps@), bytes, latency),
        is_throughput_of(worth::worth(r.throughput.p999_mbps@), bytes, latency),
{
    let c = Call::Request(latency, bytes, true);
    let calls = seq![c];
    assert(calls.drop_last() =~= seq![]);
    reveal_with_fuel(metrics::gathered_by, 2);
    let rate = accuracy::rate(bytes, latency);
    accuracy::lemma_bit_rate_accurate(latency, bytes);
    worth::lemma_over_sign(rate, 1000nat as real);
    assert(kilobits(c) * 1000nat as real == rate);
    lemma_throughputs_mean(calls, r);
    let t = r.throughput;
    worth::lemma_worth_order(t.p50_mbps@, t.p50_mbps@);
    worth::lemma_worth_order(t.p95_mbps@, t.p95_mbps@);
    worth::lemma_worth_order(t.p99_mbps@, t.p99_mbps@);
    worth::lemma_worth_order(t.p999_mbps@, t.p999_mbps@);
    lemma_one_throughput(c, worth::worth(t.p50_mbps@), 500);
    lemma_one_throughput(c, worth::worth(t.p95_mbps@), 950);
    lemma_one_throughput(c, worth::worth(t.p99_mbps@), 990);
    lemma_one_throughput(c, worth::worth(t.p999_mbps@), 999);
}

/// `p` milliseconds are the span, but for a thousandth of it and for a microsecond.
pub open spec fn is_latency_of(p: real, e: Elapsed) -> bool {
    let (took, said) = (
        accuracy::nanoseconds(e) as real,
        p * 1_000_000nat as real,
    );
    let slack = 1001nat as real + worth::over(took, 1000nat as real);
    said - took <= slack && took - said <= slack
}

#[verifier::spinoff_prover]
proof fn lemma_one_latency(c: Call, p: real, tenths: nat)
    requires
        succeeded(c),
        c->Request_0.valid(),
        1 <= tenths <= 999,
        p >= 0 as real,
        is_latency_at(seq![c], p, tenths),
    ensures
        is_latency_of(p, c->Request_0),
{
    let calls = seq![c];
    let e = c->Request_0;
    let q = p * 1000nat as real;
    lemma_one(calls, |c: Call| succeeded(c));
    lemma_one(calls, |c: Call| succeeded(c) && not_above(micros(c), q));
    lemma_one(calls, |c: Call| succeeded(c) && clearly_below(micros(c), q));
    let x = micros(c);
    assert(not_above(x, q));
    assert(!clearly_below(x, q));
    let n = accuracy::nanoseconds(e) as real;
    worth::lemma_over_sign(n, 1000nat as real);
    assert(x * 1000nat as real == n);
    assert(p * 1_000_000nat as real == q * 1000nat as real) by (nonlinear_arith)
        requires
            q == p * 1000nat as real,
    ;
}

/// After one request that succeeded, the latency of the result is the time that it took.
pub proof fn lemma_latency_of_one(latency: Elapsed, bytes: u64, r: BenchmarkResult)
    requires
        latency.valid(),
        accuracy::nanoseconds(latency) < 1_073_741_824_000,
        r.sums_up(metrics::Gathered::nothing().with_request(latency, bytes, true)),
    ensures
        is_latency_of(worth::worth(r.latency.p50_ms@), latency),
        is_latency_of(worth::worth(r.latency.p95_ms@), latency),
        is_latency_of(worth::worth(r.latency.p99_ms@), latency),
        is_latency_of(worth::worth(r.latency.p999_ms@), latency),
{
    let c = Call::Request(latency, bytes, true);
    let calls = seq![c];
    assert(calls.drop_last() =~= seq![]);
    reveal_with_fuel(metrics::gathered_by, 2);
    lemma_latencies_mean(calls, r);
    let t = r.latency;
    worth::lemma_worth_order(t.p50_ms@, t.p50_ms@);
    worth::lemma_worth_order(t.p95_ms@, t.p95_ms@);
    worth::lemma_worth_order(t.p99_ms@, t.p99_ms@);
    worth::lemma_worth_order(t.p999_ms@, t.p999_ms@);
    lemma_one_latency(c, worth::worth(t.p50_ms@), 500);
    lemma_one_latency(c, worth::worth(t.p95_ms@), 950);
    lemma_one_latency(c, worth::worth(t.p99_ms@), 990);
    lemma_one_latency(c, worth::worth(t.p999_ms@), 999);
}

/// A sample of the load has no part in the percentiles.
pub proof fn lemma_with_sample(calls: Seq<Call>, sample: Call, r: BenchmarkResult)
    requires
        sample is Sample,
        r.sums_up(metrics::gathered_by(calls.push(sample))),
        latencies_tracked(calls),
        throughputs_tracked(calls),
    ensures
        is_latency_at(calls, worth::worth(r.latency.p50_ms@), 500),
        is_latency_at(calls, worth::worth(r.latency.p95_ms@), 950),
        is_latency_at(calls, worth::worth(r.latency.p99_ms@), 990),
        is_latency_at(calls, worth::worth(r.latency.p999_ms@), 999),
        is_throughput_at(calls, worth::worth(r.throughput.p50_mbps@), 500),
        is_throughput_at(calls, worth::worth(r.throughput.p95_mbps@), 950),
        is_throughput_at(calls, worth::worth(r.throughput.p99_mbps@), 990),
        is_throughput_at(calls, worth::worth(r.throughput.p999_mbps@), 999),
{
    metrics::lemma_calls_counted(calls.push(sample));
    assert(calls.push(sample).drop_last() =~= calls);
    let (g, h) = (metrics::gathered_by(calls.push(sample)), metrics::gathered_by(calls));
    assert(g.latencies == h.latencies && g.throughputs == h.throughputs);
    lemma_latency_at(calls, 500);
    lemma_latency_at(calls, 950);
    lemma_latency_at(calls, 990);
    lemma_latency_at(calls, 999);
    lemma_throughput_at(calls, 500);
    lemma_throughput_at(calls, 950);
    lemma_throughput_at(calls, 990);
    lemma_throughput_at(calls, 999);
}

} // verus!
