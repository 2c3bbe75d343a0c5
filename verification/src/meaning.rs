//! What a result says of a run: its records, its error rate, and the load of the machine.
use vstd::prelude::*;

use crate::accuracy;
use crate::binary64;
use crate::config::{BenchmarkCase, Operation};
use crate::elapsed::Elapsed;
use crate::metrics;
use crate::metrics::{BenchmarkResult, Call};
use crate::percentiles;
use crate::rounding;
use crate::run;
use crate::run::{Outcome, RequestRecord};
use crate::worth;

verus! {

/// The requests of a run: each transfers the file of the case.
pub open spec fn calls_of(case: BenchmarkCase, outcomes: Seq<Outcome>) -> Seq<Call> {
    outcomes.map_values(
        |o: Outcome| Call::Request(o.0, (case.file_size_mib * 1_048_576) as u64, o.1),
    )
}

/// What a run gathers is what its requests and its one sample of the load give.
pub proof fn lemma_run_calls(
    case: BenchmarkCase,
    outcomes: Seq<Outcome>,
    usages: Seq<(nat, int)>,
    used_memory: u64,
)
    ensures
        run::gathered(run::case_bytes(case), outcomes).with_sample(usages, used_memory)
            == metrics::gathered_by(
            calls_of(case, outcomes).push(Call::Sample(usages, used_memory)),
        ),
{
    let calls = calls_of(case, outcomes);
    lemma_gathered_calls(case, outcomes);
    assert(calls.push(Call::Sample(usages, used_memory)).drop_last() =~= calls);
}

proof fn lemma_gathered_calls(case: BenchmarkCase, outcomes: Seq<Outcome>)
    ensures
        run::gathered(run::case_bytes(case), outcomes) == metrics::gathered_by(
            calls_of(case, outcomes),
        ),
    decreases outcomes.len(),
{
    let calls = calls_of(case, outcomes);
    if outcomes.len() > 0 {
        lemma_gathered_calls(case, outcomes.drop_last());
        assert(calls.drop_last() =~= calls_of(case, outcomes.drop_last()));
    }
}

/// The record of a request names its operation and its sizes and whether it succeeded. Its latency
/// is how long it took, in milliseconds; its throughput is the bits of the file over that time, in
/// megabits per second, or 0 if it took no time.
pub proof fn lemma_record_means(record: RequestRecord, case: BenchmarkCase, outcome: Outcome)
    requires
        run::records(record, case, outcome),
        outcome.0.valid(),
        case.file_size_mib * 1_048_576 <= u64::MAX,
    ensures
        record.0@ == (match case.operation {
            Operation::Upload => "Upload"@,
            Operation::Download => "Download"@,
        }),
        record.1 == case.file_size_mib,
        record.2 == case.chunk_size_mib,
        record.5 == outcome.1,
        worth::nearly(worth::worth(record.3@), accuracy::time(outcome.0) * 1000nat as real, 20),
        accuracy::nanoseconds(outcome.0) > 0 ==> worth::nearly(
            worth::worth(record.4@),
            worth::over(
                worth::over(
                    (8 * (case.file_size_mib as nat * 1_048_576)) as real,
                    accuracy::time(outcome.0),
                ),
                1_000_000nat as real,
            ),
            30,
        ),
        accuracy::nanoseconds(outcome.0) == 0 ==> worth::worth(record.4@) == 0 as real,
{
    accuracy::lemma_milliseconds_accurate(outcome.0);
    accuracy::lemma_megabit_rate_accurate(outcome.0, run::case_bytes(case));
    assert(run::case_bytes(case) as nat == case.file_size_mib as nat * 1_048_576);
}

/// The error rate is the failed requests over all of them, in percent.
pub proof fn lemma_error_rate_means(failed: nat, total: nat)
    requires
        failed <= total <= u64::MAX,
        total > 0,
    ensures
        worth::nearly(
            worth::worth(metrics::error_rate(failed, total)),
            worth::ratio(failed, total) * 100nat as real,
            20,
        ),
{
    accuracy::lemma_tiny();
    worth::lemma_count_worth(failed);
    worth::lemma_count_worth(total);
    worth::lemma_count_worth(100);
    let (f, t) = (binary64::double(failed, 1), binary64::double(total, 1));
    let (x, y, h, m) = (failed as real, total as real, 100nat as real, worth::tiny());
    let q = worth::over(x, y);
    worth::lemma_over_sign(x, y);
    if failed > 0 {
        assert((2 as real * m) * y <= x) by (nonlinear_arith)
            requires
                x >= 1 as real,
                y <= 0x1_0000_0000_0000_0000nat as real,
                y > 0 as real,
                m > 0 as real,
                m * 0x1_0000_0000_0000_0000nat as real * 0x10_0000_0000nat as real == 1 as real,
        ;
        worth::lemma_over_at_least(x, y, 2 as real * m);
        assert(q * h >= 2 as real * m);
    }
    worth::lemma_divided(f, t, x, y, 1, 1);
    worth::lemma_multiplied(binary64::quotient(f, t), binary64::double(100, 1), q, h, 5, 1);
    worth::lemma_nearly_weaken(worth::worth(metrics::error_rate(failed, total)), q * h, 9, 20);
}

/// The sum of the memory samples, whole, and their mean and greatest.
pub proof fn lemma_memory_means(a: Seq<u64>, b: Seq<u64>, x: u64)
    ensures
        metrics::total_mem(a + b) == metrics::total_mem(a) + metrics::total_mem(b),
        metrics::total_mem(seq![x]) == x,
        a.len() > 0 ==> metrics::average_mem(a) * a.len() <= metrics::total_mem(a),
        a.len() > 0 ==> metrics::total_mem(a) < (metrics::average_mem(a) + 1) * a.len(),
        metrics::average_mem(seq![x]) == x,
        metrics::peak_mem(seq![x]) == x,
        metrics::average_mem(Seq::empty()) == 0,
        metrics::peak_mem(Seq::empty()) == 0,
    decreases b.len(),
{
    assert(seq![x].drop_last() =~= seq![]);
    reveal_with_fuel(metrics::total_mem, 2);
    reveal_with_fuel(metrics::peak_mem, 2);
    vstd::arithmetic::div_mod::lemma_div_basics(x as int);
    if b.len() == 0 {
        assert(a + b =~= a);
    } else {
        lemma_memory_means(a, b.drop_last(), x);
        assert((a + b).drop_last() =~= a + b.drop_last());
        assert((a + b).last() == b.last());
    }
    if a.len() > 0 {
        let (n, s) = (a.len() as int, metrics::total_mem(a) as int);
        vstd::arithmetic::div_mod::lemma_fundamental_div_mod(s, n);
        let q = s / n;
        assert(q * n <= s && s < (q + 1) * n) by (nonlinear_arith)
            requires
                s == n * q + s % n,
                0 <= s % n < n,
        ;
    }
}

/// A number that a share of a hundred may be: nothing, or at least `2^-80`.
pub open spec fn is_percentage(v: (nat, int)) -> bool {
    v.0 == 0 || worth::worth(v) >= worth::ratio(1, vstd::arithmetic::power2::pow2(80))
}

/// The sum of what numbers are worth.
pub open spec fn sum_worth(usages: Seq<(nat, int)>) -> real
    decreases usages.len(),
{
    if usages.len() == 0 {
        0 as real
    } else {
        sum_worth(usages.drop_last()) + worth::worth(usages.last())
    }
}

/// What so many roundings to single precision may do.
pub open spec fn steps_single(k: nat) -> real {
    k as real * worth::ulp_single()
}

/// `x` is the mean of what the numbers are worth, but for two roundings to single precision for each
/// of them and a few more.
pub open spec fn is_mean(x: real, usages: Seq<(nat, int)>) -> bool {
    worth::near(
        x,
        worth::over(sum_worth(usages), usages.len() as real),
        steps_single(2 * usages.len() + 10),
    )
}

/// `2^-80` and `2^-100`.
proof fn lemma_small()
    ensures
        ({
            let (a, t) = (worth::ratio(1, vstd::arithmetic::power2::pow2(80)), worth::tiny());
            a > 0 as real && a == 0x10_0000nat as real * t
        }),
{
    accuracy::lemma_tiny();
    vstd::arithmetic::power2::lemma2_to64();
    vstd::arithmetic::power2::lemma_pow2_adds(80, 20);
    let (p, q) = (vstd::arithmetic::power2::pow2(80), vstd::arithmetic::power2::pow2(100));
    vstd::arithmetic::power2::lemma_pow2_pos(80);
    vstd::arithmetic::power2::lemma_pow2_pos(100);
    assert(q == p * 0x10_0000nat);
    worth::lemma_real_mul(p, 0x10_0000nat);
    reveal(worth::over);
    let (pr, qr, k) = (p as real, q as real, 0x10_0000nat as real);
    let (a, t) = (worth::ratio(1, p), worth::tiny());
    assert(a == 1nat as real / pr && t == 1nat as real / qr);
    assert(a > 0 as real && a == k * t) by (nonlinear_arith)
        requires
            a == 1 as real / pr,
            t == 1 as real / qr,
            qr == pr * k,
            pr > 0 as real,
            k == 0x10_0000nat as real,
    ;
}

proof fn lemma_steps_single(k: nat, l: nat)
    requires
        k * l <= 0x40_0000,
    ensures
        steps_single(k) >= 0 as real,
        steps_single(l) >= 0 as real,
        steps_single(k) + steps_single(l) + steps_single(k) * steps_single(l) <= steps_single(
            k + l + 1,
        ),
{
    let (a, b, u) = (k as real, l as real, worth::ulp_single());
    worth::lemma_real_mul(k, l);
    assert(u > 0 as real && u * 0x40_0000nat as real == 1 as real);
    assert(a * u >= 0 as real && b * u >= 0 as real) by (nonlinear_arith)
        requires
            a >= 0 as real,
            b >= 0 as real,
            u > 0 as real,
    ;
    assert((a * b) * u <= 1 as real) by (nonlinear_arith)
        requires
            a * b <= 0x40_0000nat as real,
            u > 0 as real,
            u * 0x40_0000nat as real == 1 as real,
    ;
    assert(a * u + b * u + (a * u) * (b * u) <= (a + b + 1 as real) * u) by (nonlinear_arith)
        requires
            (a * b) * u <= 1 as real,
            u > 0 as real,
    ;
}

/// What is within a few single-precision roundings is within twice.
proof fn lemma_half_single(x: real, y: real, k: nat)
    requires
        worth::near(x, y, steps_single(k)),
        k <= 0x40_0000,
        x >= 0 as real,
        y >= 0 as real,
    ensures
        y <= 2 as real * x,
{
    reveal(worth::near);
    let (a, u, e) = (k as real, worth::ulp_single(), steps_single(k));
    assert(u > 0 as real && u * 0x40_0000nat as real == 1 as real);
    assert(a * u <= 1 as real) by (nonlinear_arith)
        requires
            a <= 0x40_0000nat as real,
            u > 0 as real,
            u * 0x40_0000nat as real == 1 as real,
    ;
    assert(y <= 2 as real * x) by (nonlinear_arith)
        requires
            y <= x * (1 as real + e),
            e <= 1 as real,
            x >= 0 as real,
    ;
}

proof fn lemma_sum_worth_small(usages: Seq<(nat, int)>)
    requires
        forall|i: int| 0 <= i < usages.len() ==> is_percentage(#[trigger] usages[i]),
    ensures
        sum_worth(usages) == 0 as real || sum_worth(usages) >= worth::ratio(
            1,
            vstd::arithmetic::power2::pow2(80),
        ),
        sum_worth(usages) >= 0 as real,
    decreases usages.len(),
{
    if usages.len() > 0 {
        let earlier = usages.drop_last();
        assert forall|i: int| 0 <= i < earlier.len() implies is_percentage(
            #[trigger] earlier[i],
        ) by {
            assert(earlier[i] == usages[i]);
        }
        lemma_sum_worth_small(earlier);
        assert(usages.last() == usages[usages.len() - 1]);
        worth::lemma_worth_order(usages.last(), usages.last());
        lemma_small();
    }
}

/// The sum of usages, as it is reckoned.
proof fn lemma_total(usages: Seq<(nat, int)>)
    requires
        metrics::sum_is_finite(usages),
        usages.len() <= 65536,
        forall|i: int| 0 <= i < usages.len() ==> is_percentage(#[trigger] usages[i]),
    ensures
        worth::near(
            worth::worth(metrics::total_usage(usages)),
            sum_worth(usages),
            steps_single(2 * usages.len()),
        ),
        worth::worth(metrics::total_usage(usages)) >= 0 as real,
        sum_worth(usages) == 0 as real ==> worth::worth(metrics::total_usage(usages)) == 0 as real,
    decreases usages.len(),
{
    lemma_small();
    lemma_sum_worth_small(usages);
    if usages.len() == 0 {
        worth::lemma_count_worth(0);
        lemma_steps_single(0, 0);
        worth::lemma_near_refl(0 as real, steps_single(0));
    } else {
        let earlier = usages.drop_last();
        let n = earlier.len();
        assert forall|i: int| 0 <= i < earlier.len() implies is_percentage(
            #[trigger] earlier[i],
        ) by {
            assert(earlier[i] == usages[i]);
        }
        assert forall|i: int| 0 <= i < earlier.len() implies binary64::finite_single(
            binary64::sum_single(metrics::total_usage(earlier.take(i)), #[trigger] earlier[i]),
        ) by {
            assert(earlier.take(i) =~= usages.take(i));
            assert(earlier[i] == usages[i]);
        }
        lemma_total(earlier);
        let (t, u) = (metrics::total_usage(earlier), usages.last());
        assert(usages[n as int] == u);
        assert(usages.take(n as int) =~= earlier);
        let (p, q) = binary64::exact_sum(t, u);
        worth::lemma_exact_parts(t, u);
        worth::lemma_worth_order(u, u);
        worth::lemma_worth_order(t, t);
        let (x, s) = (worth::worth(t) + worth::worth(u), sum_worth(usages));
        lemma_steps_single(2 * n, 0);
        worth::lemma_near_refl(worth::worth(u), steps_single(2 * n));
        worth::lemma_near_sum(
            worth::worth(t),
            sum_worth(earlier),
            worth::worth(u),
            worth::worth(u),
            steps_single(2 * n),
        );
        assert(worth::near(x, s, steps_single(2 * n)));
        lemma_sum_worth_small(earlier);
        lemma_half_single(x, s, 2 * n);
        worth::lemma_ratio_positive(p, q);
        if s == 0 as real {
            assert(sum_worth(earlier) == 0 as real && worth::worth(u) == 0 as real);
        } else {
            assert(x >= worth::tiny());
        }
        worth::lemma_single_not_tiny(p, q);
        let w = worth::worth(metrics::total_usage(usages));
        lemma_steps_single(2 * n, 1);
        assert(steps_single(1) == worth::ulp_single());
        lemma_steps_single(1, 2 * n);
        assert(1 + 2 * n + 1 == 2 * usages.len());
        worth::lemma_near_trans(
            w,
            x,
            s,
            steps_single(1),
            steps_single(2 * n),
            steps_single(2 * usages.len()),
        );
    }
}

/// The mean of usages, as it is reckoned, is the mean.
pub proof fn lemma_mean(usages: Seq<(nat, int)>)
    requires
        0 < usages.len() <= 65536,
        metrics::sum_is_finite(usages),
        forall|i: int| 0 <= i < usages.len() ==> is_percentage(#[trigger] usages[i]),
    ensures
        worth::near(
            worth::worth(metrics::average_usage(usages)),
            worth::over(sum_worth(usages), usages.len() as real),
            steps_single(2 * usages.len() + 6),
        ),
        worth::worth(metrics::average_usage(usages)) >= 0 as real,
        worth::worth(metrics::average_usage(usages)) == 0 as real || worth::worth(
            metrics::average_usage(usages),
        ) >= 2 as real * worth::tiny(),
{
    lemma_small();
    accuracy::lemma_tiny();
    lemma_total(usages);
    lemma_sum_worth_small(usages);
    let n = usages.len();
    let c = binary64::widened(binary64::single(n, 1));
    let t = metrics::total_usage(usages);
    // The divisor.
    vstd::arithmetic::power2::lemma2_to64();
    assert(binary64::ratio_at_most(n, 1, 16));
    binary64::lemma_single_bounds(n, 1, 16);
    assert(binary64::ratio_at_least(n, 1, 0));
    binary64::lemma_single_bounds(n, 1, 0);
    binary64::lemma_above_nonzero(c, 0);
    worth::lemma_ratio_whole(n);
    let (nr, m) = (n as real, worth::tiny());
    assert(nr >= m) by (nonlinear_arith)
        requires
            nr >= 1 as real,
            m > 0 as real,
            m * 0x1_0000_0000_0000_0000nat as real * 0x10_0000_0000nat as real == 1 as real,
    ;
    worth::lemma_single_not_tiny(n, 1);
    // The quotient.
    let (x, y) = (worth::worth(t), worth::worth(c));
    let s = sum_worth(usages);
    lemma_steps_single(2 * n, 1);
    assert(steps_single(1) == worth::ulp_single());
    worth::lemma_near_quotient(
        x,
        s,
        y,
        nr,
        steps_single(2 * n),
        steps_single(1),
        steps_single(2 * n + 2),
    );
    let (exact, mean) = (worth::over(x, y), worth::over(s, nr));
    worth::lemma_over_sign(x, y);
    worth::lemma_over_sign(s, nr);
    lemma_half_single(exact, mean, 2 * n + 2);
    let (p, q) = binary64::exact_quotient(t, c);
    worth::lemma_exact_parts(t, c);
    binary64::lemma_den_positive(t, c);
    worth::lemma_ratio_positive(p, q);
    if s > 0 as real {
        let low = 16nat as real * m;
        assert(low * nr <= s) by (nonlinear_arith)
            requires
                s >= 0x10_0000nat as real * m,
                nr <= 65536nat as real,
                m > 0 as real,
                low == 16nat as real * m,
        ;
        worth::lemma_over_at_least(s, nr, low);
    } else {
        assert(x == 0 as real);
    }
    // Its rounding.
    let last = (n - 1) as int;
    assert(usages.take(last) =~= usages.drop_last());
    assert(usages[last] == usages.last());
    let (a, b) = binary64::exact_sum(metrics::total_usage(usages.drop_last()), usages.last());
    worth::lemma_exact_parts(metrics::total_usage(usages.drop_last()), usages.last());
    binary64::lemma_finite_single(a, b);
    binary64::lemma_single_quotient(binary64::single(a, b), c);
    worth::lemma_single_not_tiny(p, q);
    let w = worth::worth(metrics::average_usage(usages));
    lemma_steps_single(1, 2 * n + 2);
    worth::lemma_near_trans(
        w,
        exact,
        mean,
        steps_single(1),
        steps_single(2 * n + 2),
        steps_single(2 * n + 4),
    );
    lemma_weaken_single(w, mean, 2 * n + 4, 2 * n + 6);
    lemma_half_single(w, mean, 2 * n + 6);
    if s == 0 as real {
        assert(p == 0);
    }
}

proof fn lemma_weaken_single(x: real, y: real, k: nat, l: nat)
    requires
        worth::near(x, y, steps_single(k)),
        k <= l,
        x >= 0 as real,
        y >= 0 as real,
    ensures
        worth::near(x, y, steps_single(l)),
{
    let (a, b, u) = (k as real, l as real, worth::ulp_single());
    assert(u > 0 as real);
    assert(a * u <= b * u) by (nonlinear_arith)
        requires
            a <= b,
            u > 0 as real,
    ;
    worth::lemma_near_weaken(x, y, a * u, b * u);
}

/// The mean and the greatest of one sample are the sample.
proof fn lemma_one_sample(v: (nat, int))
    requires
        worth::worth(v) == 0 as real || worth::worth(v) >= 2 as real * worth::tiny(),
    ensures
        worth::nearly(worth::worth(metrics::average_cpu(seq![v])), worth::worth(v), 10),
        worth::worth(metrics::average_cpu(seq![v])) >= 0 as real,
        metrics::peak_cpu(seq![v]) == v,
{
    accuracy::lemma_tiny();
    let one = seq![v];
    assert(one.drop_last() =~= seq![]);
    reveal_with_fuel(metrics::total_cpu, 2);
    reveal_with_fuel(metrics::peak_cpu, 2);
    let zero = binary64::double(0, 1);
    worth::lemma_count_worth(0);
    worth::lemma_count_worth(1);
    worth::lemma_worth_order(zero, v);
    worth::lemma_worth_order(v, v);
    let (x, y) = (worth::worth(v), 1nat as real);
    worth::lemma_sum_worth(zero, v);
    let total = binary64::sum(zero, v);
    worth::lemma_over_sign(x, y);
    assert(worth::over(x, y) == x) by (nonlinear_arith)
        requires
            worth::over(x, y) * y == x,
            y == 1 as real,
    ;
    worth::lemma_divided(total, binary64::double(1, 1), x, y, 1, 1);
    worth::lemma_nearly_weaken(worth::worth(metrics::average_cpu(one)), x, 5, 10);
}

proof fn lemma_double_in_single(x: real, y: real)
    requires
        worth::nearly(x, y, 10),
        x >= 0 as real,
        y >= 0 as real,
    ensures
        worth::near(x, y, steps_single(1)),
{
    let (u, v) = (worth::ulp(), worth::ulp_single());
    assert(u * 0x4_0000_0000_0000nat as real == 1 as real);
    assert(v * 0x40_0000nat as real == 1 as real);
    assert(steps_single(1) == v);
    assert(10nat as real * u <= v);
    worth::lemma_near_weaken(x, y, 10nat as real * worth::ulp(), steps_single(1));
}

/// The mean of usages, as it is reckoned, is the mean, or 0 if there are none.
pub proof fn lemma_mean_of(usages: Seq<(nat, int)>)
    requires
        usages.len() <= 65536,
        metrics::sum_is_finite(usages),
        forall|i: int| 0 <= i < usages.len() ==> is_percentage(#[trigger] usages[i]),
    ensures
        usages.len() > 0 ==> is_mean(worth::worth(metrics::average_usage(usages)), usages),
        usages.len() == 0 ==> worth::worth(metrics::average_usage(usages)) == 0 as real,
{
    let w = worth::worth(metrics::average_usage(usages));
    let n = usages.len();
    if n > 0 {
        lemma_mean(usages);
        lemma_sum_worth_small(usages);
        worth::lemma_over_sign(sum_worth(usages), n as real);
        lemma_weaken_single(
            w,
            worth::over(sum_worth(usages), n as real),
            2 * n + 6,
            2 * n + 10,
        );
    } else {
        lemma_no_usages();
        assert(usages =~= seq![]);
    }
}

proof fn lemma_no_usages()
    ensures
        worth::worth(metrics::average_usage(seq![])) == 0 as real,
{
    let zero = binary64::double(0, 1);
    let c = binary64::widened(binary64::single(1, 1));
    vstd::arithmetic::power2::lemma2_to64();
    assert(binary64::ratio_at_most(1, 1, 0));
    binary64::lemma_single_bounds(1, 1, 0);
    binary64::lemma_above_nonzero(c, 0);
    worth::lemma_count_worth(0);
    worth::lemma_worth_order(zero, zero);
    worth::lemma_exact_parts(zero, c);
    binary64::lemma_den_positive(zero, c);
    let (n, d) = binary64::exact_quotient(zero, c);
    worth::lemma_worth_order(c, c);
    worth::lemma_over_sign(worth::worth(zero), worth::worth(c));
    worth::lemma_ratio_positive(n, d);
    rounding::lemma_nearest_form(24, -149, n, d);
    let q = binary64::single(n, d);
    assert(q == (0nat, -149int));
    worth::lemma_widened_worth(q);
    worth::lemma_worth_order(q, q);
}

/// The mean and the greatest of one sample are the mean of the usages it was made of.
proof fn lemma_mean_of_one(usages: Seq<(nat, int)>)
    requires
        0 < usages.len() <= 65536,
        metrics::sum_is_finite(usages),
        forall|i: int| 0 <= i < usages.len() ==> is_percentage(#[trigger] usages[i]),
    ensures
        is_mean(
            worth::worth(metrics::average_cpu(seq![metrics::average_usage(usages)])),
            usages,
        ),
        is_mean(worth::worth(metrics::peak_cpu(seq![metrics::average_usage(usages)])), usages),
{
    let mean = metrics::average_usage(usages);
    lemma_mean(usages);
    lemma_one_sample(mean);
    let n = usages.len();
    let (x, w) = (worth::worth(metrics::average_cpu(seq![mean])), worth::worth(mean));
    let exact = worth::over(sum_worth(usages), n as real);
    lemma_sum_worth_small(usages);
    worth::lemma_over_sign(sum_worth(usages), n as real);
    lemma_double_in_single(x, w);
    lemma_steps_single(1, 2 * n + 6);
    worth::lemma_near_trans(
        x,
        w,
        exact,
        steps_single(1),
        steps_single(2 * n + 6),
        steps_single(2 * n + 8),
    );
    lemma_weaken_single(x, exact, 2 * n + 8, 2 * n + 10);
    lemma_weaken_single(w, exact, 2 * n + 6, 2 * n + 10);
}

/// A run has one sample.
proof fn lemma_sample_of_run(
    case: BenchmarkCase,
    outcomes: Seq<Outcome>,
    usages: Seq<(nat, int)>,
    used_memory: u64,
)
    ensures
        ({
            let g = run::gathered(run::case_bytes(case), outcomes).with_sample(usages, used_memory);
            g.mem == seq![used_memory] && g.cpu == seq![metrics::average_usage(usages)]
        }),
{
    run::lemma_gathered_counts(run::case_bytes(case), outcomes);
    let g = run::gathered(run::case_bytes(case), outcomes);
    assert(g.mem.push(used_memory) =~= seq![used_memory]);
    assert(g.cpu.push(metrics::average_usage(usages)) =~= seq![metrics::average_usage(usages)]);
}

/// The memory of a run is that of its one sample.
pub proof fn lemma_memory_of_run(
    case: BenchmarkCase,
    outcomes: Seq<Outcome>,
    usages: Seq<(nat, int)>,
    used_memory: u64,
    r: BenchmarkResult,
)
    requires
        r.sums_up(
            run::gathered(run::case_bytes(case), outcomes).with_sample(usages, used_memory),
        ),
    ensures
        r.resources.avg_mem_bytes == used_memory,
        r.resources.peak_mem_bytes == used_memory,
{
    lemma_sample_of_run(case, outcomes, usages, used_memory);
    lemma_memory_means(seq![], seq![], used_memory);
}

/// The load of a run is that of its one sample: the memory as it was found, and the mean of the
/// processors' usages.
pub proof fn lemma_load_of_run(
    case: BenchmarkCase,
    outcomes: Seq<Outcome>,
    usages: Seq<(nat, int)>,
    used_memory: u64,
    r: BenchmarkResult,
)
    requires
        r.sums_up(
            run::gathered(run::case_bytes(case), outcomes).with_sample(usages, used_memory),
        ),
        0 < usages.len() <= 65536,
        metrics::sum_is_finite(usages),
        forall|i: int| 0 <= i < usages.len() ==> is_percentage(#[trigger] usages[i]),
    ensures
        r.resources.avg_mem_bytes == used_memory,
        r.resources.peak_mem_bytes == used_memory,
        is_mean(worth::worth(r.resources.avg_cpu_percent@), usages),
        is_mean(worth::worth(r.resources.peak_cpu_percent@), usages),
{
    let g = run::gathered(run::case_bytes(case), outcomes).with_sample(usages, used_memory);
    lemma_sample_of_run(case, outcomes, usages, used_memory);
    assert(r.resources.avg_cpu_percent@ == metrics::average_cpu(g.cpu));
    lemma_memory_means(seq![], seq![], used_memory);
    lemma_mean_of_one(usages);
}

/// The memory in use at the samples, in order.
pub open spec fn memories(calls: Seq<Call>) -> Seq<u64>
    decreases calls.len(),
{
    if calls.len() == 0 {
        seq![]
    } else {
        match calls.last() {
            Call::Sample(_, used) => memories(calls.drop_last()).push(used),
            Call::Request(_, _, _) => memories(calls.drop_last()),
        }
    }
}

/// The mean of the usages at the samples, in order.
pub open spec fn usages_of(calls: Seq<Call>) -> Seq<(nat, int)>
    decreases calls.len(),
{
    if calls.len() == 0 {
        seq![]
    } else {
        match calls.last() {
            Call::Sample(usages, _) => usages_of(calls.drop_last()).push(
                metrics::average_usage(usages),
            ),
            Call::Request(_, _, _) => usages_of(calls.drop_last()),
        }
    }
}

/// The sum of integers.
pub open spec fn sum_of(s: Seq<u64>) -> nat
    decreases s.len(),
{
    if s.len() == 0 {
        0
    } else {
        sum_of(s.drop_last()) + s.last() as nat
    }
}

proof fn lemma_samples(calls: Seq<Call>)
    ensures
        metrics::gathered_by(calls).mem == memories(calls),
        metrics::gathered_by(calls).cpu == usages_of(calls),
    decreases calls.len(),
{
    if calls.len() > 0 {
        lemma_samples(calls.drop_last());
    }
}

proof fn lemma_sum_of(s: Seq<u64>)
    ensures
        metrics::total_mem(s) == sum_of(s),
    decreases s.len(),
{
    if s.len() > 0 {
        lemma_sum_of(s.drop_last());
    }
}

/// Memory on average is the sum over the samples, shared out and rounded down; at its peak it is the
/// greatest of the samples. Both are 0 without samples.
pub proof fn lemma_memory_of_calls(calls: Seq<Call>, r: BenchmarkResult)
    requires
        r.sums_up(metrics::gathered_by(calls)),
    ensures
        is_memory_load(
            r.resources.avg_mem_bytes as nat,
            r.resources.peak_mem_bytes as nat,
            memories(calls),
        ),
{
    lemma_samples(calls);
    lemma_memory_load(memories(calls));
}

/// The mean, rounded down, and the greatest of integers; 0 and 0 if there are none.
pub open spec fn is_memory_load(avg: nat, peak: nat, s: Seq<u64>) -> bool {
    &&& avg * s.len() <= sum_of(s)
    &&& s.len() > 0 ==> sum_of(s) < (avg + 1) * s.len()
    &&& s.len() == 0 ==> avg == 0 && peak == 0
    &&& s.len() > 0 ==> exists|k: int| 0 <= k < s.len() && #[trigger] s[k] == peak
    &&& forall|k: int| 0 <= k < s.len() ==> #[trigger] s[k] <= peak
}

/// The load of memory, as it is reckoned, is the mean and the greatest of the samples.
pub proof fn lemma_memory_load(s: Seq<u64>)
    ensures
        is_memory_load(metrics::average_mem(s), metrics::peak_mem(s), s),
{
    lemma_sum_of(s);
    lemma_memory_means(s, seq![], 0);
    metrics::lemma_peak_mem(s);
    let (n, avg) = (s.len(), metrics::average_mem(s));
    if n == 0 {
        assert(avg * n == 0) by (nonlinear_arith)
            requires
                n == 0,
        ;
    }
}

/// The usage at its peak is the greatest of the samples' means; it is 0 without samples.
pub proof fn lemma_peak_usage_of_calls(calls: Seq<Call>, r: BenchmarkResult)
    requires
        r.sums_up(metrics::gathered_by(calls)),
    ensures
        usages_of(calls).len() > 0 ==> usages_of(calls).contains(r.resources.peak_cpu_percent@),
        usages_of(calls).len() == 0 ==> worth::worth(r.resources.peak_cpu_percent@) == 0 as real,
        forall|k: int|
            0 <= k < usages_of(calls).len() ==> worth::worth(#[trigger] usages_of(calls)[k])
                <= worth::worth(r.resources.peak_cpu_percent@),
{
    let cpu = usages_of(calls);
    lemma_samples(calls);
    metrics::lemma_peak_cpu(cpu);
    let top = metrics::peak_cpu(cpu);
    worth::lemma_count_worth(0);
    assert forall|k: int| 0 <= k < cpu.len() implies worth::worth(#[trigger] cpu[k])
        <= worth::worth(top) by {
        assert(binary64::at_most(cpu[k], top));
        worth::lemma_worth_order(cpu[k], top);
    }
}

/// What the sum of doubles, taken in order, is worth.
proof fn lemma_total_cpu(samples: Seq<(nat, int)>)
    requires
        samples.len() <= 1_000_000,
        forall|i: int|
            0 <= i < samples.len() ==> worth::worth(#[trigger] samples[i]) == 0 as real
                || worth::worth(samples[i]) >= 0x1000_0000nat as real * worth::tiny(),
    ensures
        worth::nearly(
            worth::worth(metrics::total_cpu(samples)),
            sum_worth(samples),
            2 * samples.len(),
        ),
        worth::worth(metrics::total_cpu(samples)) >= 0 as real,
        sum_worth(samples) >= 0 as real,
        sum_worth(samples) == 0 as real ==> worth::worth(metrics::total_cpu(samples)) == 0 as real,
        sum_worth(samples) == 0 as real || sum_worth(samples) >= 0x1000_0000nat as real
            * worth::tiny(),
    decreases samples.len(),
{
    accuracy::lemma_tiny();
    if samples.len() == 0 {
        worth::lemma_count_worth(0);
        worth::lemma_nearly_same(0 as real, 0);
    } else {
        let earlier = samples.drop_last();
        let n = earlier.len();
        assert forall|i: int| 0 <= i < earlier.len() implies worth::worth(#[trigger] earlier[i])
            == 0 as real || worth::worth(earlier[i]) >= 0x1000_0000nat as real * worth::tiny() by {
            assert(earlier[i] == samples[i]);
        }
        lemma_total_cpu(earlier);
        let (t, u) = (metrics::total_cpu(earlier), samples.last());
        assert(samples[n as int] == u);
        worth::lemma_worth_order(u, u);
        let (x, s) = (worth::worth(t) + worth::worth(u), sum_worth(samples));
        worth::lemma_nearly_same(worth::worth(u), 2 * n);
        worth::lemma_near_sum(
            worth::worth(t),
            sum_worth(earlier),
            worth::worth(u),
            worth::worth(u),
            (2 * n) as real * worth::ulp(),
        );
        assert(worth::nearly(x, s, 2 * n));
        worth::lemma_nearly_half(x, s, 2 * n);
        worth::lemma_sum_worth(t, u);
        worth::lemma_nearly_trans(worth::worth(metrics::total_cpu(samples)), x, s, 1, 2 * n);
    }
}

/// The usage on average is the mean of the samples' means; it is 0 without samples.
pub proof fn lemma_mean_usage_of_calls(calls: Seq<Call>, r: BenchmarkResult)
    requires
        r.sums_up(metrics::gathered_by(calls)),
        usages_of(calls).len() <= 1_000_000,
        forall|k: int|
            0 <= k < usages_of(calls).len() ==> worth::worth(#[trigger] usages_of(calls)[k])
                == 0 as real || worth::worth(usages_of(calls)[k]) >= 0x1000_0000nat as real
                * worth::tiny(),
    ensures
        ({
            let s = usages_of(calls);
            let x = worth::worth(r.resources.avg_cpu_percent@);
            if s.len() == 0 {
                x == 0 as real
            } else {
                worth::nearly(x, worth::over(sum_worth(s), s.len() as real), 2 * s.len() + 10)
            }
        }),
{
    lemma_samples(calls);
    lemma_average_cpu(usages_of(calls));
}

proof fn lemma_average_cpu(cpu: Seq<(nat, int)>)
    requires
        cpu.len() <= 1_000_000,
        forall|k: int|
            0 <= k < cpu.len() ==> worth::worth(#[trigger] cpu[k]) == 0 as real || worth::worth(
                cpu[k],
            ) >= 0x1000_0000nat as real * worth::tiny(),
    ensures
        cpu.len() == 0 ==> worth::worth(metrics::average_cpu(cpu)) == 0 as real,
        cpu.len() > 0 ==> worth::nearly(
            worth::worth(metrics::average_cpu(cpu)),
            worth::over(sum_worth(cpu), cpu.len() as real),
            2 * cpu.len() + 10,
        ),
{
    accuracy::lemma_tiny();
    let n = cpu.len();
    if n == 0 {
        worth::lemma_count_worth(0);
    } else {
        lemma_total_cpu(cpu);
        worth::lemma_count_worth(n);
        let (s, nr, m) = (sum_worth(cpu), n as real, worth::tiny());
        let t = metrics::total_cpu(cpu);
        let c = binary64::double(n, 1);
        if s > 0 as real {
            assert((4 as real * m) * nr <= s) by (nonlinear_arith)
                requires
                    s >= 0x1000_0000nat as real * m,
                    nr <= 1_000_000nat as real,
                    nr > 0 as real,
                    m > 0 as real,
            ;
            worth::lemma_over_at_least(s, nr, 4 as real * m);
        }
        let (p, q) = (worth::worth(t), worth::worth(c));
        worth::lemma_over_sign(p, q);
        worth::lemma_over_sign(s, nr);
        worth::lemma_nearly_quotient(p, s, q, nr, 2 * n, 1);
        worth::lemma_nearly_half(worth::over(p, q), worth::over(s, nr), 2 * n + 2);
        worth::lemma_quotient_worth(t, c);
        let x = worth::worth(metrics::average_cpu(cpu));
        worth::lemma_nearly_trans(x, worth::over(p, q), worth::over(s, nr), 1, 2 * n + 2);
        worth::lemma_nearly_weaken(x, worth::over(s, nr), 2 * n + 4, 2 * n + 10);
    }
}

/// The error rate of a result is the failed requests over all of them, in percent; it is 0 without
/// requests.
pub proof fn lemma_error_rate_of_calls(calls: Seq<Call>, r: BenchmarkResult)
    requires
        r.sums_up(metrics::gathered_by(calls)),
    ensures
        ({
            let n = percentiles::count(calls, |c: Call| c is Request);
            let f = percentiles::count(calls, |c: Call| c is Request && !c->Request_2);
            let x = worth::worth(r.resources.error_rate_percent@);
            if n == 0 {
                x == 0 as real
            } else {
                worth::nearly(x, worth::ratio(f, n) * 100nat as real, 20)
            }
        }),
{
    percentiles::lemma_counts_mean(calls, r);
    metrics::lemma_calls_counted(calls);
    let g = metrics::gathered_by(calls);
    if g.total > 0 {
        lemma_error_rate_means(g.failed, g.total);
    } else {
        worth::lemma_count_worth(0);
    }
}

} // verus!
