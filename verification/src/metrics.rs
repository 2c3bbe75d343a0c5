//! What a run measures, and what is made of it.
use vstd::arithmetic::power2::*;
use vstd::multiset::Multiset;
use vstd::prelude::*;

use crate::binary64;
use crate::binary64::Binary64;
use crate::config::{BenchmarkCase, MIB};
use crate::elapsed::Elapsed;
use crate::histogram;
use crate::histogram::LevelHistogram;
use crate::order;
use crate::rounding;
use crate::text;

verus! {

/// The highest latency tracked, in microseconds: 10 minutes.
pub const MAX_LATENCY_US: u64 = 600_000_000;

/// The highest throughput tracked, in kilobits per second: 100 gigabits.
pub const MAX_THROUGHPUT_KBPS: u64 = 100_000_000;

/// Latencies in milliseconds.
#[derive(Debug, Clone, Copy)]
pub struct LatencyPercentiles {
    pub p50_ms: Binary64,
    pub p95_ms: Binary64,
    pub p99_ms: Binary64,
    pub p999_ms: Binary64,
}

/// Throughputs in megabits per second.
#[derive(Debug, Clone, Copy)]
pub struct ThroughputPercentiles {
    pub p50_mbps: Binary64,
    pub p95_mbps: Binary64,
    pub p99_mbps: Binary64,
    pub p999_mbps: Binary64,
}

/// The load of the machine, and the share of failed requests.
#[derive(Debug, Clone, Copy)]
pub struct ResourceMetrics {
    pub avg_cpu_percent: Binary64,
    pub peak_cpu_percent: Binary64,
    pub avg_mem_bytes: u64,
    pub peak_mem_bytes: u64,
    pub error_rate_percent: Binary64,
}

/// The outcome of one case.
#[derive(Debug, Clone, Copy)]
pub struct BenchmarkResult {
    pub case: BenchmarkCase,
    pub warmup_complete: bool,
    pub total_requests: u64,
    pub successful_requests: u64,
    pub failed_requests: u64,
    pub latency: LatencyPercentiles,
    pub throughput: ThroughputPercentiles,
    pub resources: ResourceMetrics,
}

/// Gathers the measurements of one case.
pub struct MetricsCollector {
    latency_hist: LevelHistogram,
    throughput_hist: LevelHistogram,
    total_requests: u64,
    failed_requests: u64,
    cpu_samples: Vec<Binary64>,
    mem_samples: Vec<u64>,
}

/// What a collector has gathered.
#[verifier::ext_equal]
pub struct Gathered {
    /// Latencies of the requests that succeeded, in microseconds.
    pub latencies: Multiset<u64>,
    /// Throughputs of the requests that succeeded, in kilobits per second.
    pub throughputs: Multiset<u64>,
    pub total: nat,
    pub failed: nat,
    pub cpu: Seq<(nat, int)>,
    pub mem: Seq<u64>,
}

/// The value, or 1 in place of 0.
pub open spec fn at_least_one(v: nat) -> u64 {
    if v == 0 {
        1
    } else {
        v as u64
    }
}

impl Gathered {
    /// Nothing gathered.
    pub open spec fn nothing() -> Gathered {
        Gathered {
            latencies: Multiset::empty(),
            throughputs: Multiset::empty(),
            total: 0,
            failed: 0,
            cpu: seq![],
            mem: seq![],
        }
    }

    /// With one more request: one that failed is only counted; one that succeeded leaves its
    /// latency, and its throughput if it took any time.
    pub open spec fn with_request(self, latency: Elapsed, bytes: u64, success: bool) -> Gathered {
        if success {
            Gathered {
                latencies: histogram::with_recorded(
                    self.latencies,
                    MAX_LATENCY_US,
                    at_least_one(latency.microseconds()),
                ),
                throughputs: if latency.positive() {
                    histogram::with_recorded(
                        self.throughputs,
                        MAX_THROUGHPUT_KBPS,
                        at_least_one(latency.kilobit_rate(bytes)),
                    )
                } else {
                    self.throughputs
                },
                total: self.total + 1,
                ..self
            }
        } else {
            Gathered { total: self.total + 1, failed: self.failed + 1, ..self }
        }
    }

    /// With one more sample of the machine's load.
    pub open spec fn with_sample(self, usages: Seq<(nat, int)>, used_memory: u64) -> Gathered {
        Gathered {
            cpu: self.cpu.push(average_usage(usages)),
            mem: self.mem.push(used_memory),
            ..self
        }
    }
}

/// The numbers that a sequence of doubles stands for.
pub open spec fn numbers(xs: Seq<Binary64>) -> Seq<(nat, int)> {
    xs.map_values(|x: Binary64| x@)
}

/// The sum of single-precision numbers, taken in order.
pub open spec fn total_usage(usages: Seq<(nat, int)>) -> (nat, int)
    decreases usages.len(),
{
    if usages.len() == 0 {
        binary64::double(0, 1)
    } else {
        binary64::widened(binary64::sum_single(total_usage(usages.drop_last()), usages.last()))
    }
}

/// The mean of single-precision numbers; 0 if there are none.
pub open spec fn average_usage(usages: Seq<(nat, int)>) -> (nat, int) {
    let count = if usages.len() == 0 {
        1
    } else {
        usages.len()
    };
    binary64::widened(
        binary64::quotient_single(
            total_usage(usages),
            binary64::widened(binary64::single(count, 1)),
        ),
    )
}

/// The sum of doubles, taken in order.
pub open spec fn total_cpu(samples: Seq<(nat, int)>) -> (nat, int)
    decreases samples.len(),
{
    if samples.len() == 0 {
        binary64::double(0, 1)
    } else {
        binary64::sum(total_cpu(samples.drop_last()), samples.last())
    }
}

/// The mean of doubles; 0 if there are none.
pub open spec fn average_cpu(samples: Seq<(nat, int)>) -> (nat, int) {
    if samples.len() == 0 {
        binary64::double(0, 1)
    } else {
        binary64::quotient(total_cpu(samples), binary64::double(samples.len(), 1))
    }
}

/// The greatest of doubles; 0 if there are none.
pub open spec fn peak_cpu(samples: Seq<(nat, int)>) -> (nat, int)
    decreases samples.len(),
{
    if samples.len() == 0 {
        binary64::double(0, 1)
    } else {
        let before = peak_cpu(samples.drop_last());
        if binary64::at_most(before, samples.last()) {
            samples.last()
        } else {
            before
        }
    }
}

/// The sum of integers.
pub open spec fn total_mem(samples: Seq<u64>) -> nat
    decreases samples.len(),
{
    if samples.len() == 0 {
        0
    } else {
        total_mem(samples.drop_last()) + samples.last() as nat
    }
}

/// The mean of integers, rounded down; 0 if there are none.
pub open spec fn average_mem(samples: Seq<u64>) -> nat {
    if samples.len() == 0 {
        0
    } else {
        total_mem(samples) / samples.len()
    }
}

/// The greatest of integers; 0 if there are none.
pub open spec fn peak_mem(samples: Seq<u64>) -> nat
    decreases samples.len(),
{
    if samples.len() == 0 {
        0
    } else {
        let before = peak_mem(samples.drop_last());
        if before <= samples.last() {
            samples.last() as nat
        } else {
            before
        }
    }
}

/// A thousandth of the value at a percentile, given in tenths of a percent; 0 if nothing is held.
pub open spec fn thousandth_at(held: Multiset<u64>, tenths: nat) -> (nat, int) {
    if held.len() == 0 {
        binary64::double(0, 1)
    } else {
        binary64::quotient(
            binary64::double(histogram::percentile(held, tenths) as nat, 1),
            binary64::double(1000, 1),
        )
    }
}

/// The share of failed requests, in percent; 0 if there were none at all.
pub open spec fn error_rate(failed: nat, total: nat) -> (nat, int) {
    if total == 0 {
        binary64::double(0, 1)
    } else {
        binary64::product(
            binary64::quotient(binary64::double(failed, 1), binary64::double(total, 1)),
            binary64::double(100, 1),
        )
    }
}

impl BenchmarkResult {
    /// The result sums up what was gathered.
    pub open spec fn sums_up(self, g: Gathered) -> bool {
        &&& self.total_requests == g.total
        &&& self.failed_requests == g.failed
        &&& self.successful_requests == g.total - g.failed
        &&& self.latency.p50_ms@ == thousandth_at(g.latencies, 500)
        &&& self.latency.p95_ms@ == thousandth_at(g.latencies, 950)
        &&& self.latency.p99_ms@ == thousandth_at(g.latencies, 990)
        &&& self.latency.p999_ms@ == thousandth_at(g.latencies, 999)
        &&& self.throughput.p50_mbps@ == thousandth_at(g.throughputs, 500)
        &&& self.throughput.p95_mbps@ == thousandth_at(g.throughputs, 950)
        &&& self.throughput.p99_mbps@ == thousandth_at(g.throughputs, 990)
        &&& self.throughput.p999_mbps@ == thousandth_at(g.throughputs, 999)
        &&& self.resources.avg_cpu_percent@ == average_cpu(g.cpu)
        &&& self.resources.peak_cpu_percent@ == peak_cpu(g.cpu)
        &&& self.resources.avg_mem_bytes == average_mem(g.mem)
        &&& self.resources.peak_mem_bytes == peak_mem(g.mem)
        &&& self.resources.error_rate_percent@ == error_rate(g.failed, g.total)
    }
}

/// The numbers are finite doubles, none less than the one before it.
pub open spec fn ascending(a: (nat, int), b: (nat, int), c: (nat, int), d: (nat, int)) -> bool {
    &&& binary64::is_double(a) && binary64::is_double(b)
    &&& binary64::is_double(c) && binary64::is_double(d)
    &&& binary64::at_most(a, b) && binary64::at_most(b, c) && binary64::at_most(c, d)
}

impl BenchmarkResult {
    /// The percentiles are finite, and a higher one has no lower value.
    pub open spec fn in_order(self) -> bool {
        &&& ascending(
            self.latency.p50_ms@,
            self.latency.p95_ms@,
            self.latency.p99_ms@,
            self.latency.p999_ms@,
        )
        &&& ascending(
            self.throughput.p50_mbps@,
            self.throughput.p95_mbps@,
            self.throughput.p99_mbps@,
            self.throughput.p999_mbps@,
        )
    }
}

/// A call that adds to what a collector has gathered.
pub enum Call {
    /// A request: its latency, the bytes it transferred, and whether it succeeded.
    Request(Elapsed, u64, bool),
    /// A sample: the usage of each processor, and the memory in use.
    Sample(Seq<(nat, int)>, u64),
}

impl Gathered {
    /// With what one more call adds.
    pub open spec fn after(self, call: Call) -> Gathered {
        match call {
            Call::Request(latency, bytes, success) => self.with_request(latency, bytes, success),
            Call::Sample(usages, used_memory) => self.with_sample(usages, used_memory),
        }
    }
}

/// What a new collector has gathered after a sequence of calls.
pub open spec fn gathered_by(calls: Seq<Call>) -> Gathered
    decreases calls.len(),
{
    if calls.len() == 0 {
        Gathered::nothing()
    } else {
        gathered_by(calls.drop_last()).after(calls.last())
    }
}

impl View for MetricsCollector {
    type V = Gathered;

    closed spec fn view(&self) -> Gathered {
        Gathered {
            latencies: histogram::levels(self.latency_hist),
            throughputs: histogram::levels(self.throughput_hist),
            total: self.total_requests as nat,
            failed: self.failed_requests as nat,
            cpu: numbers(self.cpu_samples@),
            mem: self.mem_samples@,
        }
    }
}

impl MetricsCollector {
    /// The counts agree, and the histograms track what they should.
    pub closed spec fn valid(self) -> bool {
        &&& self.failed_requests <= self.total_requests
        &&& histogram::levels(self.latency_hist).len() + self.failed_requests
            <= self.total_requests
        &&& histogram::levels(self.throughput_hist).len() + self.failed_requests
            <= self.total_requests
        &&& histogram::highest_trackable(self.latency_hist) == MAX_LATENCY_US
        &&& histogram::highest_trackable(self.throughput_hist) == MAX_THROUGHPUT_KBPS
        &&& forall|i: int|
            0 <= i < self.cpu_samples@.len() ==> binary64::below(
                (#[trigger] self.cpu_samples@[i])@,
                128,
            )
    }

    /// A collector that has gathered nothing.
    pub fn new() -> (c: MetricsCollector)
        ensures
            c.valid(),
            c@ == Gathered::nothing(),
    {
        let c = MetricsCollector {
            latency_hist: histogram::new_histogram(1, MAX_LATENCY_US, 3),
            throughput_hist: histogram::new_histogram(1, MAX_THROUGHPUT_KBPS, 3),
            total_requests: 0,
            failed_requests: 0,
            cpu_samples: Vec::new(),
            mem_samples: Vec::new(),
        };
        assert(c@ =~= Gathered::nothing());
        c
    }

    /// Records a finished request.
    pub fn record_request(&mut self, latency: Elapsed, bytes_transferred: u64, success: bool)
        requires
            old(self).valid(),
            old(self)@.total < u64::MAX,
            latency.valid(),
        ensures
            final(self).valid(),
            final(self)@ == old(self)@.with_request(latency, bytes_transferred, success),
    {
        self.total_requests = self.total_requests + 1;
        if !success {
            self.failed_requests = self.failed_requests + 1;
            assert(self@ =~= old(self)@.with_request(latency, bytes_transferred, success));
            return;
        }
        let latency_us: u64 = latency.as_microseconds();
        let _ = histogram::record(
            &mut self.latency_hist,
            if latency_us == 0 {
                1
            } else {
                latency_us
            },
        );
        match latency.as_kilobit_rate(bytes_transferred) {
            Some(kbps) => {
                let _ = histogram::record(
                    &mut self.throughput_hist,
                    if kbps == 0 {
                        1
                    } else {
                        kbps
                    },
                );
            },
            None => {},
        }
        assert(self@ =~= old(self)@.with_request(latency, bytes_transferred, success));
    }
}

/// The usages add up in single precision without going beyond its largest number.
pub open spec fn sum_is_finite(usages: Seq<(nat, int)>) -> bool {
    forall|i: int|
        0 <= i < usages.len() ==> binary64::finite_single(
            binary64::sum_single(total_usage(usages.take(i)), #[trigger] usages[i]),
        )
}

/// The mean of the usages of the processors, as single-precision numbers.
fn mean_usage(usages: &Vec<Binary64>) -> (mean: Binary64)
    requires
        sum_is_finite(numbers(usages@)),
    ensures
        mean@ == average_usage(numbers(usages@)),
        binary64::below(mean@, 128),
{
    let mut total: Binary64 = Binary64::from_u64(0);
    let mut i: usize = 0;
    let ghost mut sum: (nat, int) = (0, -149);
    proof {
        lemma_single_zero();
        assert(numbers(usages@).take(0) =~= seq![]);
    }
    while i < usages.len()
        invariant
            i <= usages@.len(),
            sum_is_finite(numbers(usages@)),
            total@ == total_usage(numbers(usages@).take(i as int)),
            total@ == binary64::widened(sum),
            binary64::is_single(sum),
        decreases usages@.len() - i,
    {
        let usage: Binary64 = usages[i];
        proof {
            let next = numbers(usages@).take(i + 1);
            assert(next.drop_last() =~= numbers(usages@).take(i as int));
            assert(numbers(usages@)[i as int] == usage@);
            assert(next.last() == usage@);
            let (n, d) = binary64::exact_sum(total@, usage@);
            binary64::lemma_den_positive(total@, usage@);
            binary64::lemma_finite_single(n, d);
            sum = binary64::sum_single(total@, usage@);
        }
        total = total.plus_single(usage);
        i = i + 1;
    }
    proof {
        assert(numbers(usages@).take(i as int) =~= numbers(usages@));
    }
    let count: u64 = if usages.len() == 0 {
        1
    } else {
        usages.len() as u64
    };
    let divisor: Binary64 = Binary64::single_from_u64(count);
    proof {
        lemma2_to64();
        lemma2_to64_rest();
        binary64::lemma_single_bounds(count as nat, 1, 64);
        binary64::lemma_single_bounds(count as nat, 1, 0);
        binary64::lemma_above_nonzero(divisor@, 0);
        binary64::lemma_single_quotient(sum, divisor@);
        binary64::lemma_single_range(binary64::quotient_single(total@, divisor@));
    }
    total.divided_by_single(divisor)
}

proof fn lemma_single_zero()
    ensures
        binary64::widened((0, -149)) == binary64::double(0, 1),
{
    let v = (0nat, -149int);
    binary64::lemma_den_positive(v, v);
    assert(binary64::num(v) == 0) by (nonlinear_arith)
        requires
            binary64::num(v) == 0 * rounding::up(-149),
    ;
    rounding::lemma_nearest_form(53, -1074, 0, binary64::den(v));
    rounding::lemma_nearest_form(53, -1074, 0, 1);
}

proof fn lemma_total_usage_bound(usages: Seq<(nat, int)>)
    requires
        forall|i: int| 0 <= i < usages.len() ==> binary64::below(#[trigger] usages[i], 61),
    ensures
        binary64::below(total_usage(usages), 100),
    decreases usages.len(),
{
    if usages.len() == 0 {
        lemma_zero_below(100);
    } else {
        assert forall|i: int| 0 <= i < usages.drop_last().len() implies binary64::below(
            #[trigger] usages.drop_last()[i],
            61,
        ) by {
            assert(usages.drop_last()[i] == usages[i]);
        }
        lemma_total_usage_bound(usages.drop_last());
        assert(usages.last() == usages[usages.len() - 1]);
        binary64::lemma_running_total(total_usage(usages.drop_last()), usages.last());
    }
}

/// Usages of at most `2^61` each, which no percentage exceeds, have a finite sum, however many they
/// are.
pub proof fn lemma_percentages_add_up(usages: Seq<(nat, int)>)
    requires
        forall|i: int| 0 <= i < usages.len() ==> binary64::below(#[trigger] usages[i], 61),
    ensures
        sum_is_finite(usages),
{
    assert forall|i: int| 0 <= i < usages.len() implies binary64::finite_single(
        binary64::sum_single(total_usage(usages.take(i)), #[trigger] usages[i]),
    ) by {
        assert forall|j: int| 0 <= j < usages.take(i).len() implies binary64::below(
            #[trigger] usages.take(i)[j],
            61,
        ) by {
            assert(usages.take(i)[j] == usages[j]);
        }
        lemma_total_usage_bound(usages.take(i));
        binary64::lemma_running_total(total_usage(usages.take(i)), usages[i]);
    }
}

proof fn lemma_zero_below(k: nat)
    requires
        k <= 1000,
    ensures
        binary64::below(binary64::double(0, 1), k as int),
{
    lemma_pow2_pos(k);
    binary64::lemma_integer_bounds(0, k);
}

impl MetricsCollector {
    /// Records a sample of the machine's load: how far each processor is used, in percent, and how
    /// much memory.
    pub fn record_resource_sample(&mut self, cpu_usages: &Vec<Binary64>, used_memory: u64)
        requires
            old(self).valid(),
            sum_is_finite(numbers(cpu_usages@)),
        ensures
            final(self).valid(),
            final(self)@ == old(self)@.with_sample(numbers(cpu_usages@), used_memory),
    {
        let mean: Binary64 = mean_usage(cpu_usages);
        self.cpu_samples.push(mean);
        self.mem_samples.push(used_memory);
        proof {
            assert(numbers(self.cpu_samples@) =~= numbers(old(self).cpu_samples@).push(mean@));
            assert(self@ =~= old(self)@.with_sample(numbers(cpu_usages@), used_memory));
        }
    }

    /// Sums up what was gathered.
    pub fn finalize(self, case: &BenchmarkCase, warmup_complete: bool) -> (r: BenchmarkResult)
        requires
            self.valid(),
            total_mem(self@.mem) <= u64::MAX,
        ensures
            r.case == *case,
            r.warmup_complete == warmup_complete,
            r.sums_up(self@),
            r.successful_requests + r.failed_requests == r.total_requests,
            r.in_order(),
    {
        let latency = LatencyPercentiles {
            p50_ms: thousandth(&self.latency_hist, 50, 0),
            p95_ms: thousandth(&self.latency_hist, 95, 0),
            p99_ms: thousandth(&self.latency_hist, 99, 0),
            p999_ms: thousandth(&self.latency_hist, 99, 9),
        };
        let throughput = ThroughputPercentiles {
            p50_mbps: thousandth(&self.throughput_hist, 50, 0),
            p95_mbps: thousandth(&self.throughput_hist, 95, 0),
            p99_mbps: thousandth(&self.throughput_hist, 99, 0),
            p999_mbps: thousandth(&self.throughput_hist, 99, 9),
        };
        let (avg_cpu, peak_cpu): (Binary64, Binary64) = summarize_cpu(&self.cpu_samples);
        let (avg_mem, peak_mem): (u64, u64) = summarize_mem(&self.mem_samples);
        let r = BenchmarkResult {
            case: *case,
            warmup_complete,
            total_requests: self.total_requests,
            successful_requests: self.total_requests - self.failed_requests,
            failed_requests: self.failed_requests,
            latency,
            throughput,
            resources: ResourceMetrics {
                avg_cpu_percent: avg_cpu,
                peak_cpu_percent: peak_cpu,
                avg_mem_bytes: avg_mem,
                peak_mem_bytes: peak_mem,
                error_rate_percent: share_of_failed(self.failed_requests, self.total_requests),
            },
        };
        proof {
            lemma_percentiles_ordered(r, self@);
        }
        r
    }

    /// No more requests have failed than there were, and the histograms hold no more values than
    /// requests have succeeded.
    pub proof fn lemma_valid(self)
        requires
            self.valid(),
        ensures
            self@.failed <= self@.total <= u64::MAX,
            self@.latencies.len() <= self@.total - self@.failed,
            self@.throughputs.len() <= self@.total - self@.failed,
    {
    }
}

/// A thousandth of the value at the percentile `whole.tenth`.
fn thousandth(h: &LevelHistogram, whole: u32, tenth: u32) -> (x: Binary64)
    requires
        tenth < 10,
        0 < 10 * whole + tenth <= 1000,
        histogram::levels(*h).len() <= u64::MAX,
    ensures
        x@ == thousandth_at(histogram::levels(*h), (10 * whole + tenth) as nat),
{
    if histogram::held_count(h) == 0 {
        return Binary64::from_u64(0);
    }
    let v: u64 = histogram::value_at_percentile(h, whole, tenth);
    proof {
        let held = histogram::levels(*h);
        let r = histogram::rank(held.len(), (10 * whole + tenth) as nat);
        if r <= held.len() {
            histogram::lemma_rank_unique(held, r, v, histogram::at_rank(held, r));
        }
        lemma2_to64();
        lemma2_to64_rest();
        binary64::lemma_integer_bounds(v as nat, 64);
        binary64::lemma_integer_bounds(1000, 9);
        binary64::lemma_quotient_bounds(
            binary64::double(v as nat, 1),
            64,
            binary64::double(1000, 1),
            9,
        );
    }
    Binary64::from_u64(v).divided_by(Binary64::from_u64(1000))
}

/// The mean and the greatest of the samples.
fn summarize_cpu(samples: &Vec<Binary64>) -> (r: (Binary64, Binary64))
    requires
        forall|i: int| 0 <= i < samples@.len() ==> binary64::below((#[trigger] samples@[i])@, 128),
    ensures
        r.0@ == average_cpu(numbers(samples@)),
        r.1@ == peak_cpu(numbers(samples@)),
{
    let mut total: Binary64 = Binary64::from_u64(0);
    let mut peak: Binary64 = Binary64::from_u64(0);
    let mut i: usize = 0;
    proof {
        lemma_zero_below(200);
        assert(numbers(samples@).take(0) =~= seq![]);
    }
    while i < samples.len()
        invariant
            i <= samples@.len(),
            forall|j: int|
                0 <= j < samples@.len() ==> binary64::below((#[trigger] samples@[j])@, 128),
            total@ == total_cpu(numbers(samples@).take(i as int)),
            peak@ == peak_cpu(numbers(samples@).take(i as int)),
            binary64::below(total@, 200),
        decreases samples@.len() - i,
    {
        let sample: Binary64 = samples[i];
        proof {
            let next = numbers(samples@).take(i + 1);
            assert(next.drop_last() =~= numbers(samples@).take(i as int));
            assert(next.last() == samples@[i as int]@);
            binary64::lemma_running_total(total@, sample@);
        }
        total = total.plus(sample);
        if peak.is_at_most(&sample) {
            peak = sample;
        }
        i = i + 1;
    }
    proof {
        assert(numbers(samples@).take(i as int) =~= numbers(samples@));
    }
    if samples.len() == 0 {
        return (Binary64::from_u64(0), peak);
    }
    let count: u64 = samples.len() as u64;
    proof {
        lemma2_to64();
        binary64::lemma_integer_bounds(count as nat, 0);
        binary64::lemma_quotient_bounds(total@, 200, binary64::double(count as nat, 1), 0);
    }
    (total.divided_by(Binary64::from_u64(count)), peak)
}

proof fn lemma_total_mem_monotone(samples: Seq<u64>, i: int)
    requires
        0 <= i <= samples.len(),
    ensures
        total_mem(samples.take(i)) <= total_mem(samples),
    decreases samples.len() - i,
{
    if i < samples.len() {
        lemma_total_mem_monotone(samples, i + 1);
        assert(samples.take(i + 1).drop_last() =~= samples.take(i));
    } else {
        assert(samples.take(i) =~= samples);
    }
}

/// The mean and the greatest of the samples.
fn summarize_mem(samples: &Vec<u64>) -> (r: (u64, u64))
    requires
        total_mem(samples@) <= u64::MAX,
    ensures
        r.0 == average_mem(samples@),
        r.1 == peak_mem(samples@),
{
    let mut total: u64 = 0;
    let mut peak: u64 = 0;
    let mut i: usize = 0;
    assert(samples@.take(0) =~= seq![]);
    while i < samples.len()
        invariant
            i <= samples@.len(),
            total_mem(samples@) <= u64::MAX,
            total == total_mem(samples@.take(i as int)),
            peak == peak_mem(samples@.take(i as int)),
        decreases samples@.len() - i,
    {
        proof {
            lemma_total_mem_monotone(samples@, i + 1);
            assert(samples@.take(i + 1).drop_last() =~= samples@.take(i as int));
        }
        total = total + samples[i];
        if peak <= samples[i] {
            peak = samples[i];
        }
        i = i + 1;
    }
    assert(samples@.take(i as int) =~= samples@);
    if samples.len() == 0 {
        (0, peak)
    } else {
        (total / samples.len() as u64, peak)
    }
}

/// The share of failed requests, in percent.
fn share_of_failed(failed: u64, total: u64) -> (x: Binary64)
    requires
        failed <= total,
    ensures
        x@ == error_rate(failed as nat, total as nat),
{
    if total == 0 {
        return Binary64::from_u64(0);
    }
    proof {
        lemma2_to64();
        lemma2_to64_rest();
        let (f, t) = (binary64::double(failed as nat, 1), binary64::double(total as nat, 1));
        binary64::lemma_integer_bounds(failed as nat, 64);
        binary64::lemma_integer_bounds(total as nat, 0);
        binary64::lemma_integer_bounds(100, 7);
        binary64::lemma_quotient_bounds(f, 64, t, 0);
        binary64::lemma_product_bounds(binary64::quotient(f, t), 64, binary64::double(100, 1), 7);
    }
    Binary64::from_u64(failed).divided_by(Binary64::from_u64(total)).times(Binary64::from_u64(100))
}

/// How a size in bytes is written: in GiB, MiB or KiB with one decimal, or in bytes.
pub open spec fn bytes_text(bytes: u64) -> Seq<char> {
    if bytes >= 1024 * MIB {
        size_in(bytes, (1024 * MIB) as nat) + " GiB"@
    } else if bytes >= MIB {
        size_in(bytes, MIB as nat) + " MiB"@
    } else if bytes >= 1024 {
        size_in(bytes, 1024) + " KiB"@
    } else {
        text::decimal(bytes as nat) + " B"@
    }
}

/// A size in bytes in a larger unit, with one decimal.
pub open spec fn size_in(bytes: u64, unit: nat) -> Seq<char> {
    text::fixed(
        binary64::quotient(binary64::double(bytes as nat, 1), binary64::double(unit, 1)),
        1,
    )
}

/// Appends a size in bytes in a larger unit.
fn push_size_in(out: &mut String, bytes: u64, unit: u64)
    requires
        unit >= 1,
    ensures
        final(out)@ == old(out)@ + size_in(bytes, unit as nat),
{
    proof {
        lemma2_to64();
        lemma2_to64_rest();
        binary64::lemma_integer_bounds(bytes as nat, 64);
        binary64::lemma_integer_bounds(unit as nat, 0);
        binary64::lemma_quotient_bounds(
            binary64::double(bytes as nat, 1),
            64,
            binary64::double(unit as nat, 1),
            0,
        );
    }
    let x: Binary64 = Binary64::from_u64(bytes).divided_by(Binary64::from_u64(unit));
    text::push_fixed(out, &x, 1);
}

/// Writes a size in bytes for people to read.
pub fn format_bytes(bytes: u64) -> (s: String)
    ensures
        s@ == bytes_text(bytes),
{
    let mut s: String = String::new();
    if bytes >= 1024 * MIB {
        push_size_in(&mut s, bytes, 1024 * MIB);
        s.append(" GiB");
    } else if bytes >= MIB {
        push_size_in(&mut s, bytes, MIB);
        s.append(" MiB");
    } else if bytes >= 1024 {
        push_size_in(&mut s, bytes, 1024);
        s.append(" KiB");
    } else {
        text::push_decimal(&mut s, bytes);
        s.append(" B");
    }
    assert(s@ =~= bytes_text(bytes));
    s
}

proof fn lemma_thousandth_monotone(held: Multiset<u64>, low: nat, high: nat)
    requires
        low <= high <= 999,
        held.len() <= u64::MAX,
    ensures
        binary64::at_most(thousandth_at(held, low), thousandth_at(held, high)),
{
    let zero = binary64::double(0, 1);
    let (a, b) = (histogram::percentile(held, low) as nat, histogram::percentile(held, high) as nat);
    lemma2_to64();
    binary64::lemma_integer_bounds(1000, 0);
    histogram::lemma_percentile_monotone(held, low, high);
    order::lemma_double_monotone(a, 1, b, 1);
    order::lemma_quotient_monotone(
        binary64::double(a, 1),
        binary64::double(b, 1),
        binary64::double(1000, 1),
    );
    order::lemma_at_most(zero, zero, zero);
}

proof fn lemma_thousandth_finite(held: Multiset<u64>, tenths: nat)
    ensures
        binary64::is_double(thousandth_at(held, tenths)),
{
    lemma2_to64();
    lemma2_to64_rest();
    let v = histogram::percentile(held, tenths) as nat;
    let (x, k) = (binary64::double(v, 1), binary64::double(1000, 1));
    binary64::lemma_integer_bounds(0, 0);
    binary64::lemma_finite_double(0, 1);
    binary64::lemma_integer_bounds(v, 64);
    binary64::lemma_integer_bounds(1000, 9);
    binary64::lemma_quotient_bounds(x, 64, k, 9);
    binary64::lemma_den_positive(x, k);
    let (n, d) = binary64::exact_quotient(x, k);
    binary64::lemma_finite_double(n, d);
}

/// The percentiles of a result are finite and in order.
pub proof fn lemma_percentiles_ordered(r: BenchmarkResult, g: Gathered)
    requires
        r.sums_up(g),
        g.latencies.len() <= u64::MAX,
        g.throughputs.len() <= u64::MAX,
    ensures
        r.in_order(),
{
    lemma_thousandth_monotone(g.latencies, 500, 950);
    lemma_thousandth_monotone(g.latencies, 950, 990);
    lemma_thousandth_monotone(g.latencies, 990, 999);
    lemma_thousandth_monotone(g.throughputs, 500, 950);
    lemma_thousandth_monotone(g.throughputs, 950, 990);
    lemma_thousandth_monotone(g.throughputs, 990, 999);
    lemma_thousandth_finite(g.latencies, 500);
    lemma_thousandth_finite(g.latencies, 950);
    lemma_thousandth_finite(g.latencies, 990);
    lemma_thousandth_finite(g.latencies, 999);
    lemma_thousandth_finite(g.throughputs, 500);
    lemma_thousandth_finite(g.throughputs, 950);
    lemma_thousandth_finite(g.throughputs, 990);
    lemma_thousandth_finite(g.throughputs, 999);
}

/// After any calls, no more requests have failed than there were, and no more values are held than
/// requests have succeeded.
pub proof fn lemma_calls_counted(calls: Seq<Call>)
    ensures
        gathered_by(calls).failed <= gathered_by(calls).total <= calls.len(),
        gathered_by(calls).latencies.len() <= gathered_by(calls).total - gathered_by(calls).failed,
        gathered_by(calls).throughputs.len() <= gathered_by(calls).total - gathered_by(
            calls,
        ).failed,
    decreases calls.len(),
{
    if calls.len() > 0 {
        lemma_calls_counted(calls.drop_last());
    }
}

/// After any calls, the percentiles of the result are finite and in order.
pub proof fn lemma_calls_in_order(calls: Seq<Call>, r: BenchmarkResult)
    requires
        r.sums_up(gathered_by(calls)),
    ensures
        r.in_order(),
{
    lemma_calls_counted(calls);
    lemma_percentiles_ordered(r, gathered_by(calls));
}

/// The requests among calls.
pub open spec fn requests(calls: Seq<Call>) -> Seq<Call> {
    calls.filter(|call: Call| call is Request)
}

/// The samples among calls.
pub open spec fn samples(calls: Seq<Call>) -> Seq<Call> {
    calls.filter(|call: Call| call is Sample)
}

/// With what a call adds, if it is a request.
spec fn counting(g: Gathered, call: Call) -> Gathered {
    match call {
        Call::Request(latency, bytes, success) => g.with_request(latency, bytes, success),
        Call::Sample(_, _) => g,
    }
}

proof fn lemma_requests_fold(calls: Seq<Call>, f: spec_fn(Gathered, Call) -> Gathered)
    requires
        forall|i: int| 0 <= i < calls.len() ==> (#[trigger] calls[i]) is Request,
        f == (|g: Gathered, call: Call| counting(g, call)),
    ensures
        gathered_by(calls) == calls.fold_left(Gathered::nothing(), f),
    decreases calls.len(),
{
    if calls.len() > 0 {
        let earlier = calls.drop_last();
        assert forall|i: int| 0 <= i < earlier.len() implies (#[trigger] earlier[i]) is Request by {
            assert(earlier[i] == calls[i]);
        }
        lemma_requests_fold(earlier, f);
        assert(calls.last() == calls[calls.len() - 1]);
    }
}

/// The order of requests, whatever they transferred and however they ended, makes no difference.
pub proof fn lemma_request_order_irrelevant(a: Seq<Call>, b: Seq<Call>)
    requires
        forall|i: int| 0 <= i < a.len() ==> (#[trigger] a[i]) is Request,
        forall|i: int| 0 <= i < b.len() ==> (#[trigger] b[i]) is Request,
        a.to_multiset() == b.to_multiset(),
    ensures
        gathered_by(a) == gathered_by(b),
{
    let f = |g: Gathered, call: Call| counting(g, call);
    assert forall|x: Call, y: Call, g: Gathered| #[trigger] f(f(g, x), y) == f(f(g, y), x) by {
        assert(f(f(g, x), y) =~= f(f(g, y), x));
    }
    lemma_requests_fold(a, f);
    lemma_requests_fold(b, f);
    vstd::seq_lib::lemma_fold_left_permutation(a, b, f, Gathered::nothing());
}

/// Counts, latencies and throughputs come from the requests, the load from the samples.
proof fn lemma_calls_apart(calls: Seq<Call>)
    ensures
        ({
            let (g, r, s) = (
                gathered_by(calls),
                gathered_by(requests(calls)),
                gathered_by(samples(calls)),
            );
            &&& g.latencies == r.latencies && g.throughputs == r.throughputs
            &&& g.total == r.total && g.failed == r.failed
            &&& g.cpu == s.cpu && g.mem == s.mem
        }),
        forall|i: int| 0 <= i < requests(calls).len() ==> (#[trigger] requests(calls)[i]) is Request,
    decreases calls.len(),
{
    reveal(Seq::filter);
    if calls.len() > 0 {
        let earlier = calls.drop_last();
        let last = calls.last();
        lemma_calls_apart(earlier);
        if last is Request {
            assert(requests(calls) == requests(earlier).push(last));
            assert(requests(earlier).push(last).drop_last() =~= requests(earlier));
        } else {
            assert(samples(calls) == samples(earlier).push(last));
            assert(samples(earlier).push(last).drop_last() =~= samples(earlier));
        }
    }
}

/// How requests and samples are mixed makes no difference, nor does the order of the requests.
pub proof fn lemma_mixing_irrelevant(a: Seq<Call>, b: Seq<Call>)
    requires
        requests(a).to_multiset() == requests(b).to_multiset(),
        samples(a) == samples(b),
    ensures
        gathered_by(a) == gathered_by(b),
{
    lemma_calls_apart(a);
    lemma_calls_apart(b);
    lemma_request_order_irrelevant(requests(a), requests(b));
    assert(gathered_by(a) =~= gathered_by(b));
}

/// When a request failed, before or after which other calls, makes no difference.
pub proof fn lemma_failure_anywhere(calls: Seq<Call>, i: int, latency: Elapsed, bytes: u64)
    requires
        0 <= i <= calls.len(),
    ensures
        gathered_by(calls.insert(i, Call::Request(latency, bytes, false))) == gathered_by(
            calls,
        ).with_request(latency, bytes, false),
    decreases calls.len(),
{
    let failure = Call::Request(latency, bytes, false);
    let more = calls.insert(i, failure);
    if i == calls.len() {
        assert(more.drop_last() =~= calls);
    } else {
        let earlier = calls.drop_last();
        lemma_failure_anywhere(earlier, i, latency, bytes);
        assert(more.drop_last() =~= earlier.insert(i, failure));
        assert(more.last() == calls.last());
        let g = gathered_by(earlier);
        assert(g.with_request(latency, bytes, false).after(calls.last()) =~= g.after(
            calls.last(),
        ).with_request(latency, bytes, false));
    }
}

/// The peak is one of the samples, if there are any, and none exceeds it.
pub proof fn lemma_peak_cpu(samples: Seq<(nat, int)>)
    ensures
        samples.len() > 0 ==> samples.contains(peak_cpu(samples)),
        forall|i: int|
            0 <= i < samples.len() ==> binary64::at_most(#[trigger] samples[i], peak_cpu(samples)),
    decreases samples.len(),
{
    if samples.len() > 0 {
        let earlier = samples.drop_last();
        let before = peak_cpu(earlier);
        lemma_peak_cpu(earlier);
        assert(samples.last() == samples[samples.len() - 1]);
        assert forall|i: int| 0 <= i < samples.len() implies binary64::at_most(
            #[trigger] samples[i],
            peak_cpu(samples),
        ) by {
            order::lemma_at_most(samples[i], before, samples.last());
            order::lemma_at_most(before, samples.last(), samples.last());
            order::lemma_at_most(samples.last(), samples.last(), samples.last());
            if i < earlier.len() {
                assert(earlier[i] == samples[i]);
            }
        }
        if earlier.len() == 0 {
            let zero = binary64::double(0, 1);
            rounding::lemma_nearest_form(53, -1074, 0, 1);
            assert(0 * rounding::up(zero.1) * binary64::den(samples.last()) == 0)
                by (nonlinear_arith);
        } else if peak_cpu(samples) == before {
            let i = choose|i: int| 0 <= i < earlier.len() && earlier[i] == before;
            assert(samples[i] == before);
        }
    }
}

/// The peak is one of the samples, if there are any, none exceeds it, and neither does the mean.
pub proof fn lemma_peak_mem(samples: Seq<u64>)
    ensures
        samples.len() > 0 ==> exists|i: int|
            0 <= i < samples.len() && #[trigger] samples[i] == peak_mem(samples),
        forall|i: int| 0 <= i < samples.len() ==> #[trigger] samples[i] <= peak_mem(samples),
        total_mem(samples) <= samples.len() * peak_mem(samples),
        average_mem(samples) <= peak_mem(samples),
    decreases samples.len(),
{
    if samples.len() > 0 {
        let earlier = samples.drop_last();
        let (before, after) = (peak_mem(earlier), peak_mem(samples));
        lemma_peak_mem(earlier);
        assert(samples.last() == samples[samples.len() - 1]);
        assert forall|i: int| 0 <= i < samples.len() implies #[trigger] samples[i] <= after by {
            if i < earlier.len() {
                assert(earlier[i] == samples[i]);
            }
        }
        if earlier.len() > 0 && after == before {
            let i = choose|i: int| 0 <= i < earlier.len() && #[trigger] earlier[i] == before;
            assert(samples[i] == after);
        } else {
            assert(samples[samples.len() - 1] == after);
        }
        assert(total_mem(samples) <= samples.len() * after) by (nonlinear_arith)
            requires
                total_mem(samples) == total_mem(earlier) + samples.last(),
                total_mem(earlier) <= earlier.len() * before,
                earlier.len() == samples.len() - 1,
                before <= after,
                samples.last() <= after,
        ;
        vstd::arithmetic::div_mod::lemma_div_is_ordered(
            total_mem(samples) as int,
            (samples.len() * after) as int,
            samples.len() as int,
        );
        vstd::arithmetic::div_mod::lemma_div_multiples_vanish(after as int, samples.len() as int);
    }
}

/// `v` is 100.
pub open spec fn is_hundred(v: (nat, int)) -> bool {
    binary64::num(v) == 100 * binary64::den(v)
}

/// What an integer of at most `2^53 + 1` is as a double.
pub open spec fn as_counted(k: nat) -> nat {
    if k == 0x20_0000_0000_0001 {
        0x20_0000_0000_0000
    } else {
        k
    }
}

/// The first integer that is not a double lies between two of them, and goes to the lower.
#[verifier::spinoff_prover]
proof fn lemma_first_not_counted()
    ensures
        binary64::double(0x20_0000_0000_0001, 1) == (0x10_0000_0000_0000nat, 1int),
{
    lemma2_to64();
    lemma2_to64_rest();
    let k = 0x20_0000_0000_0001nat;
    assert(rounding::up(53) == 0x20_0000_0000_0000 && rounding::down(53) == 1);
    assert(rounding::up(54) == 0x40_0000_0000_0000 && rounding::down(54) == 1);
    rounding::lemma_magnitude_unique(k, 1, 53);
    assert(rounding::last_place(53, -1074, k, 1) == 1);
    assert(rounding::up(1) == 2 && rounding::down(1) == 1);
    assert(rounding::half_even(k * 1, 1 * 2) == 0x10_0000_0000_0000);
}

#[verifier::spinoff_prover]
proof fn lemma_as_counted(k: nat)
    requires
        k <= 0x20_0000_0000_0001,
    ensures
        binary64::num(binary64::double(k, 1)) == as_counted(k) * binary64::den(
            binary64::double(k, 1),
        ),
        k > 0 ==> binary64::double(k, 1).0 > 0,
{
    lemma2_to64();
    lemma2_to64_rest();
    let v = binary64::double(k, 1);
    if k < 0x20_0000_0000_0000 {
        order::lemma_integer_exact(k, 0);
        assert(k * pow2(0) == k) by (nonlinear_arith)
            requires
                pow2(0) == 1,
        ;
    } else if k == 0x20_0000_0000_0000 {
        order::lemma_integer_exact(1, 53);
        assert(1 * pow2(53) == k);
    } else {
        lemma_first_not_counted();
        assert(rounding::up(1) == 2 && rounding::down(1) == 1);
        assert(binary64::num(v) == 0x10_0000_0000_0000 * 2);
        assert(binary64::den(v) == 1);
    }
    if k > 0 {
        binary64::lemma_integer_bounds(k, 0);
    }
}

/// The double nearest to a hundred times the last number before 1.
#[verifier::spinoff_prover]
proof fn lemma_nearly_hundred()
    ensures
        binary64::double(100 * 0x1f_ffff_ffff_ffff, 0x20_0000_0000_0000) == (
            7036874417766399nat,
            -46int,
        ),
{
    lemma2_to64();
    lemma2_to64_rest();
    let (n, d) = (900719925474099100nat, 0x20_0000_0000_0000nat);
    assert(rounding::up(6) == 64 && rounding::up(7) == 128);
    rounding::lemma_magnitude_unique(n, d, 6);
    assert(rounding::last_place(53, -1074, n, d) == -46);
    assert(rounding::up(-46) == 1 && rounding::down(-46) == 0x4000_0000_0000);
    rounding::lemma_half_even_ratio(n * 0x4000_0000_0000, d * 1, n, 128);
    assert(rounding::half_even(n, 128) == 7036874417766399);
}

/// The share of failed requests, before it is made a percentage.
#[verifier::spinoff_prover]
proof fn lemma_share(failed: nat, total: nat)
    requires
        failed <= total,
        0 < total,
    ensures
        ({
            let q = binary64::quotient(binary64::double(failed, 1), binary64::double(total, 1));
            &&& binary64::num(q) <= binary64::den(q)
            &&& failed == total ==> binary64::num(q) == binary64::den(q)
            &&& failed == 0 ==> q.0 == 0
            &&& 0 < failed && total <= u64::MAX ==> binary64::above(q, -64)
            &&& failed < total <= 0x20_0000_0000_0000 ==> binary64::num(q) * 0x20_0000_0000_0000
                <= 0x1f_ffff_ffff_ffff * binary64::den(q)
        }),
{
    lemma2_to64();
    lemma2_to64_rest();
    let (f, t) = (binary64::double(failed, 1), binary64::double(total, 1));
    let q = binary64::quotient(f, t);
    let (f_n, f_d) = (binary64::num(f), binary64::den(f));
    let (t_n, t_d) = (binary64::num(t), binary64::den(t));
    let (q_n, q_d) = (binary64::num(q), binary64::den(q));
    order::lemma_double_monotone(failed, 1, total, 1);
    binary64::lemma_integer_bounds(total, 0);
    binary64::lemma_den_positive(f, t);
    binary64::lemma_den_positive(t, f);
    let (n, d) = (f_n * t_d, f_d * t_n);
    assert(n * 1 <= 1 * 1 * d) by (nonlinear_arith)
        requires
            f_n * t_d <= t_n * f_d,
            n == f_n * t_d,
            d == f_d * t_n,
    ;
    assert(rounding::up(0) == 1 && rounding::down(0) == 1);
    order::lemma_nothing_between(53, -1074, n, d, 1, 0);
    assert(rounding::dyadic_le(q, (1, 0)));
    assert(q_n <= q_d) by (nonlinear_arith)
        requires
            q_n * 1 <= 1 * 1 * q_d,
    ;
    if failed == total {
        assert(n * 1 == 1 * 1 * d) by (nonlinear_arith)
            requires
                n == f_n * t_d,
                d == f_d * t_n,
                f_n == t_n,
                f_d == t_d,
        ;
        order::lemma_nothing_between(53, -1074, n, d, 1, 0);
        assert(rounding::dyadic_le((1, 0), q));
        assert(q_d <= q_n) by (nonlinear_arith)
            requires
                1 * 1 * q_d <= q_n * 1,
        ;
    }
    if failed == 0 {
        rounding::lemma_nearest_form(53, -1074, 0, 1);
        assert(n == 0) by (nonlinear_arith)
            requires
                n == (0 * rounding::up(f.1)) * t_d,
        ;
        rounding::lemma_nearest_form(53, -1074, n, d);
    }
    if 0 < failed && total <= u64::MAX {
        binary64::lemma_integer_bounds(failed, 0);
        binary64::lemma_integer_bounds(total, 64);
        binary64::lemma_quotient_lower(f, 0, t, 64);
    }
    if failed < total <= 0x20_0000_0000_0000 {
        lemma_as_counted(failed);
        lemma_as_counted(total);
        let w = f_d * t_d;
        let (one, below_one) = (0x20_0000_0000_0000nat, 0x1f_ffff_ffff_ffffnat);
        assert(n == failed * w) by (nonlinear_arith)
            requires
                n == f_n * t_d,
                f_n == failed * f_d,
                w == f_d * t_d,
        ;
        assert(d == total * w) by (nonlinear_arith)
            requires
                d == f_d * t_n,
                t_n == total * t_d,
                w == f_d * t_d,
        ;
        assert(failed * one <= below_one * total);
        assert(n * one <= below_one * 1 * d) by (nonlinear_arith)
            requires
                n == failed * w,
                d == total * w,
                failed * one <= below_one * total,
        ;
        assert(rounding::up(-53) == 1 && rounding::down(-53) == one);
        order::lemma_nothing_between(53, -1074, n, d, below_one, -53);
        assert(rounding::dyadic_le(q, (below_one, -53)));
        assert(q_n * one <= below_one * q_d) by (nonlinear_arith)
            requires
                q_n * one <= below_one * 1 * q_d,
        ;
    }
}

/// The error rate as the share of failed requests, times 100.
#[verifier::spinoff_prover]
proof fn lemma_hundredfold(q: (nat, int))
    requires
        binary64::num(q) <= binary64::den(q),
    ensures
        ({
            let r = binary64::product(q, binary64::double(100, 1));
            &&& binary64::num(r) <= 100 * binary64::den(r)
            &&& q.0 == 0 ==> r.0 == 0
            &&& binary64::above(q, -64) ==> r.0 > 0
            &&& binary64::num(q) == binary64::den(q) ==> is_hundred(r)
            &&& binary64::num(q) * 0x20_0000_0000_0000 <= 0x1f_ffff_ffff_ffff * binary64::den(q)
                ==> !is_hundred(r)
        }),
{
    lemma2_to64();
    lemma2_to64_rest();
    let h = binary64::double(100, 1);
    let r = binary64::product(q, h);
    let (q_n, q_d) = (binary64::num(q), binary64::den(q));
    let (h_n, h_d) = (binary64::num(h), binary64::den(h));
    let (r_n, r_d) = (binary64::num(r), binary64::den(r));
    let (n, d) = (q_n * h_n, q_d * h_d);
    lemma_as_counted(100);
    binary64::lemma_den_positive(q, h);
    binary64::lemma_den_positive(h, q);
    binary64::lemma_den_positive(r, r);
    assert(rounding::up(0) == 1 && rounding::down(0) == 1);
    assert(n == 100 * (q_n * h_d)) by (nonlinear_arith)
        requires
            n == q_n * h_n,
            h_n == 100 * h_d,
    ;
    assert(n * 1 <= 100 * 1 * d) by (nonlinear_arith)
        requires
            q_n <= q_d,
            n == 100 * (q_n * h_d),
            d == q_d * h_d,
    ;
    order::lemma_nothing_between(53, -1074, n, d, 100, 0);
    assert(rounding::dyadic_le(r, (100, 0)));
    assert(r_n <= 100 * r_d) by (nonlinear_arith)
        requires
            r_n * 1 <= 100 * 1 * r_d,
    ;
    if q.0 == 0 {
        assert(n == 0) by (nonlinear_arith)
            requires
                n == (0 * rounding::up(q.1)) * h_n,
        ;
        rounding::lemma_nearest_form(53, -1074, n, d);
    }
    if binary64::above(q, -64) {
        let (p, w) = (rounding::up(-64), rounding::down(-64));
        assert(n * w >= d * p) by (nonlinear_arith)
            requires
                q_n * w >= q_d * p,
                n == 100 * (q_n * h_d),
                d == q_d * h_d,
        ;
        binary64::lemma_double_bounds(n, d, -64);
        binary64::lemma_above_nonzero(r, -64);
    }
    if q_n == q_d {
        assert(n * 1 >= 100 * 1 * d) by (nonlinear_arith)
            requires
                q_n == q_d,
                n == 100 * (q_n * h_d),
                d == q_d * h_d,
        ;
        assert(rounding::dyadic_le((100, 0), r));
        assert(r_n >= 100 * r_d) by (nonlinear_arith)
            requires
                r_n * 1 >= 100 * 1 * r_d,
        ;
    }
    let (one, below_one) = (0x20_0000_0000_0000nat, 0x1f_ffff_ffff_ffffnat);
    if q_n * one <= below_one * q_d {
        assert(n * one <= (100 * below_one) * d) by (nonlinear_arith)
            requires
                q_n * one <= below_one * q_d,
                n == 100 * (q_n * h_d),
                d == q_d * h_d,
        ;
        order::lemma_double_monotone(n, d, 100 * below_one, one);
        lemma_nearly_hundred();
        assert(rounding::up(-46) == 1 && rounding::down(-46) == 0x4000_0000_0000);
        assert(binary64::at_most(r, (7036874417766399, -46)));
        assert(r_n != 100 * r_d) by (nonlinear_arith)
            requires
                r_n * 0x4000_0000_0000 <= (7036874417766399 * 1) * r_d,
                r_d > 0,
        ;
    }
}

/// The error rate is at most 100. It is 0 exactly where nothing failed, as far as 64 bits count
/// requests, and 100 exactly where there were requests and all failed, as far as doubles do.
#[verifier::spinoff_prover]
pub proof fn lemma_error_rate(failed: nat, total: nat)
    requires
        failed <= total,
    ensures
        binary64::at_most(error_rate(failed, total), (100, 0)),
        failed == 0 ==> error_rate(failed, total).0 == 0,
        total <= u64::MAX && error_rate(failed, total).0 == 0 ==> failed == 0,
        0 < failed && failed == total ==> is_hundred(error_rate(failed, total)),
        total <= 0x20_0000_0000_0000 && is_hundred(error_rate(failed, total)) ==> 0 < failed
            && failed == total,
{
    lemma2_to64();
    let r = error_rate(failed, total);
    let (r_n, r_d) = (binary64::num(r), binary64::den(r));
    binary64::lemma_den_positive(r, r);
    if total == 0 {
        rounding::lemma_nearest_form(53, -1074, 0, 1);
        assert(r_n == 0) by (nonlinear_arith)
            requires
                r_n == 0 * rounding::up(r.1),
        ;
    } else {
        lemma_share(failed, total);
        lemma_hundredfold(
            binary64::quotient(binary64::double(failed, 1), binary64::double(total, 1)),
        );
    }
    assert(rounding::up(0) == 1 && rounding::down(0) == 1);
    assert(r_n * 1 <= (100 * 1) * r_d);
}

/// One more failure does not lower the error rate, as far as doubles count requests.
#[verifier::spinoff_prover]
proof fn lemma_error_rate_grows(failed: nat, total: nat)
    requires
        failed <= total <= 0x20_0000_0000_0000,
    ensures
        binary64::at_most(error_rate(failed, total), error_rate(failed + 1, total + 1)),
{
    let after = error_rate(failed + 1, total + 1);
    if total == 0 {
        let zero = binary64::double(0, 1);
        rounding::lemma_nearest_form(53, -1074, 0, 1);
        assert(0 * rounding::up(zero.1) * binary64::den(after) == 0) by (nonlinear_arith);
    } else {
        let (f, t) = (binary64::double(failed, 1), binary64::double(total, 1));
        let (g, u) = (binary64::double(failed + 1, 1), binary64::double(total + 1, 1));
        let (f_n, f_d) = (binary64::num(f), binary64::den(f));
        let (t_n, t_d) = (binary64::num(t), binary64::den(t));
        let (g_n, g_d) = (binary64::num(g), binary64::den(g));
        let (u_n, u_d) = (binary64::num(u), binary64::den(u));
        lemma_as_counted(failed);
        lemma_as_counted(total);
        lemma_as_counted(failed + 1);
        lemma_as_counted(total + 1);
        let (k, l) = (as_counted(failed + 1), as_counted(total + 1));
        binary64::lemma_den_positive(f, t);
        binary64::lemma_den_positive(g, u);
        assert(failed * l <= k * total) by (nonlinear_arith)
            requires
                failed <= total,
                (k == failed + 1 && l == total + 1) || (l <= total && k >= failed),
        ;
        let (n, d) = (f_n * t_d, f_d * t_n);
        let (n2, d2) = (g_n * u_d, g_d * u_n);
        let (x, y) = (f_d * t_d, g_d * u_d);
        let w = x * y;
        assert((failed * f_d) * t_d == failed * x) by (nonlinear_arith)
            requires
                x == f_d * t_d,
        ;
        assert(f_d * (total * t_d) == total * x) by (nonlinear_arith)
            requires
                x == f_d * t_d,
        ;
        assert((k * g_d) * u_d == k * y) by (nonlinear_arith)
            requires
                y == g_d * u_d,
        ;
        assert(g_d * (l * u_d) == l * y) by (nonlinear_arith)
            requires
                y == g_d * u_d,
        ;
        assert((failed * x) * (l * y) == (failed * l) * (x * y)) by (nonlinear_arith);
        assert((k * y) * (total * x) == (k * total) * (x * y)) by (nonlinear_arith);
        assert(n * d2 == (failed * l) * w);
        assert(n2 * d == (k * total) * w);
        assert((failed * l) * w <= (k * total) * w) by (nonlinear_arith)
            requires
                failed * l <= k * total,
        ;
        order::lemma_double_monotone(n, d, n2, d2);
        order::lemma_product_monotone(
            binary64::quotient(f, t),
            binary64::quotient(g, u),
            binary64::double(100, 1),
        );
    }
}

impl BenchmarkResult {
    /// One more request failed, and all else but the error rate is as it was before.
    pub open spec fn has_one_more_failure(self, before: BenchmarkResult) -> bool {
        &&& self.latency == before.latency
        &&& self.throughput == before.throughput
        &&& self.successful_requests == before.successful_requests
        &&& self.total_requests == before.total_requests + 1
        &&& self.failed_requests == before.failed_requests + 1
        &&& self.resources.avg_cpu_percent == before.resources.avg_cpu_percent
        &&& self.resources.peak_cpu_percent == before.resources.peak_cpu_percent
        &&& self.resources.avg_mem_bytes == before.resources.avg_mem_bytes
        &&& self.resources.peak_mem_bytes == before.resources.peak_mem_bytes
    }
}

/// One more failed request is counted and leaves all else of the result as it was. It does not
/// lower the error rate, as far as doubles count requests.
pub proof fn lemma_one_more_failure(
    g: Gathered,
    latency: Elapsed,
    bytes: u64,
    before: BenchmarkResult,
    after: BenchmarkResult,
)
    requires
        g.failed <= g.total,
        before.sums_up(g),
        after.sums_up(g.with_request(latency, bytes, false)),
    ensures
        after.has_one_more_failure(before),
        g.total <= 0x20_0000_0000_0000 ==> binary64::at_most(
            before.resources.error_rate_percent@,
            after.resources.error_rate_percent@,
        ),
{
    let (a, b) = (before.latency, after.latency);
    Binary64::lemma_same_number(a.p50_ms, b.p50_ms);
    Binary64::lemma_same_number(a.p95_ms, b.p95_ms);
    Binary64::lemma_same_number(a.p99_ms, b.p99_ms);
    Binary64::lemma_same_number(a.p999_ms, b.p999_ms);
    let (a, b) = (before.throughput, after.throughput);
    Binary64::lemma_same_number(a.p50_mbps, b.p50_mbps);
    Binary64::lemma_same_number(a.p95_mbps, b.p95_mbps);
    Binary64::lemma_same_number(a.p99_mbps, b.p99_mbps);
    Binary64::lemma_same_number(a.p999_mbps, b.p999_mbps);
    let (a, b) = (before.resources, after.resources);
    Binary64::lemma_same_number(a.avg_cpu_percent, b.avg_cpu_percent);
    Binary64::lemma_same_number(a.peak_cpu_percent, b.peak_cpu_percent);
    if g.total <= 0x20_0000_0000_0000 {
        lemma_error_rate_grows(g.failed, g.total);
    }
}

/// The same calls with one more failed request among them are counted as such, and leave all else
/// of the result as it was. They do not lower the error rate, as far as doubles count requests.
pub proof fn lemma_one_more_failed_call(
    calls: Seq<Call>,
    i: int,
    latency: Elapsed,
    bytes: u64,
    before: BenchmarkResult,
    after: BenchmarkResult,
)
    requires
        0 <= i <= calls.len(),
        before.sums_up(gathered_by(calls)),
        after.sums_up(gathered_by(calls.insert(i, Call::Request(latency, bytes, false)))),
    ensures
        after.has_one_more_failure(before),
        before.total_requests <= 0x20_0000_0000_0000 ==> binary64::at_most(
            before.resources.error_rate_percent@,
            after.resources.error_rate_percent@,
        ),
{
    lemma_calls_counted(calls);
    lemma_failure_anywhere(calls, i, latency, bytes);
    lemma_one_more_failure(gathered_by(calls), latency, bytes, before, after);
}

/// A size of at most 53 bits is written as the exact quotient, with one decimal.
#[verifier::spinoff_prover]
pub proof fn lemma_size_exact(bytes: u64, k: nat)
    requires
        bytes < 0x20_0000_0000_0000,
        k <= 1000,
    ensures
        size_in(bytes, pow2(k)) == text::fixed((bytes as nat, -k), 1),
{
    lemma2_to64();
    lemma2_to64_rest();
    let unit = pow2(k);
    let size = bytes as nat;
    lemma_pow2_pos(k);
    order::lemma_integer_exact(size, 0);
    order::lemma_integer_exact(1, k);
    assert(size * pow2(0) == size);
    assert(1 * pow2(k) == unit);
    let (a, u) = (binary64::double(size, 1), binary64::double(unit, 1));
    let v = binary64::quotient(a, u);
    let (an, ad) = (binary64::num(a), binary64::den(a));
    let (un, ud) = (binary64::num(u), binary64::den(u));
    let (vn, vd) = (binary64::num(v), binary64::den(v));
    binary64::lemma_den_positive(a, u);
    binary64::lemma_den_positive(u, v);
    binary64::lemma_den_positive(v, v);
    let (n, d) = (an * ud, ad * un);
    let w = ad * ud;
    assert(n == size * w) by (nonlinear_arith)
        requires
            n == an * ud,
            an == size * ad,
            w == ad * ud,
    ;
    assert(d == unit * w) by (nonlinear_arith)
        requires
            d == ad * un,
            un == unit * ud,
            w == ad * ud,
    ;
    assert(d > 0) by (nonlinear_arith)
        requires
            d == unit * w,
            unit > 0,
            w > 0,
    ;
    let exact = (size, -k);
    assert(rounding::up(-k) == 1);
    assert(rounding::down(-k) == unit);
    assert(n * unit == size * 1 * d) by (nonlinear_arith)
        requires
            n == size * w,
            d == unit * w,
    ;
    order::lemma_representable(53, -1074, n, d, size, -k);
    assert(vn * d == n * vd);
    assert((vn * 10) * unit == (size * 10) * vd) by {
        assert(w * ((vn * 10) * unit) == 10 * (vn * (unit * w))) by (nonlinear_arith);
        assert(w * ((size * 10) * vd) == 10 * ((size * w) * vd)) by (nonlinear_arith);
        vstd::arithmetic::mul::lemma_mul_equality_converse(
            w as int,
            ((vn * 10) * unit) as int,
            ((size * 10) * vd) as int,
        );
    }
    assert(binary64::num(exact) == size && binary64::den(exact) == unit);
    reveal_with_fuel(text::pow10, 2);
    rounding::lemma_half_even_ratio(vn * 10, vd, size * 10, unit);
}

} // verus!
