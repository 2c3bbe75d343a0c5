//! The measured run of a case: requests start at every tick until the time is up, and the run ends
//! when the last of them has ended.
use vstd::prelude::*;

use crate::binary64::Binary64;
use crate::config::{BenchmarkCase, MIB};
use crate::elapsed::Elapsed;
use crate::metrics;
use crate::metrics::{BenchmarkResult, MetricsCollector};

verus! {

/// One request: operation, file size and chunk size in MiB, latency in milliseconds, throughput in
/// megabits per second, success.
pub type RequestRecord = (String, u64, u64, Binary64, Binary64, bool);

/// How a request ended: how long it took, and whether it succeeded.
pub type Outcome = (Elapsed, bool);

/// The bytes that a request of the case transfers.
pub open spec fn case_bytes(case: BenchmarkCase) -> u64 {
    (case.file_size_mib * MIB) as u64
}

/// The record tells how a request of the case ended.
pub open spec fn records(record: RequestRecord, case: BenchmarkCase, outcome: Outcome) -> bool {
    &&& record.0@ == case.operation.name()
    &&& record.1 == case.file_size_mib
    &&& record.2 == case.chunk_size_mib
    &&& record.3@ == outcome.0.milliseconds()
    &&& record.4@ == outcome.0.megabit_rate(case_bytes(case))
    &&& record.5 == outcome.1
}

/// What is gathered from the outcomes of requests that transfer `bytes` each.
pub open spec fn gathered(bytes: u64, outcomes: Seq<Outcome>) -> metrics::Gathered
    decreases outcomes.len(),
{
    if outcomes.len() == 0 {
        metrics::Gathered::nothing()
    } else {
        gathered(bytes, outcomes.drop_last()).with_request(
            outcomes.last().0,
            bytes,
            outcomes.last().1,
        )
    }
}

/// Where a measured run stands.
#[verifier::ext_equal]
pub struct RunState {
    pub case: BenchmarkCase,
    /// The length of the run in seconds.
    pub duration: nat,
    /// The requests that have ended, in the order in which they did.
    pub outcomes: Seq<Outcome>,
    /// The number of requests that have started and not ended.
    pub pending: nat,
}

impl RunState {
    /// The time is up.
    pub open spec fn time_is_up(self, elapsed: Elapsed) -> bool {
        elapsed.secs >= self.duration
    }

    /// Nothing is left to do.
    pub open spec fn finished(self, elapsed: Elapsed) -> bool {
        self.time_is_up(elapsed) && self.pending == 0
    }
}

/// A measured run.
pub struct MeasuredRun {
    case: BenchmarkCase,
    duration: u64,
    collector: MetricsCollector,
    records: Vec<RequestRecord>,
    pending: u64,
    completed: u64,
    outcomes: Ghost<Seq<Outcome>>,
}

impl View for MeasuredRun {
    type V = RunState;

    closed spec fn view(&self) -> RunState {
        RunState {
            case: self.case,
            duration: self.duration as nat,
            outcomes: self.outcomes@,
            pending: self.pending as nat,
        }
    }
}

impl MeasuredRun {
    /// Every request that has ended is counted, gathered and recorded.
    pub closed spec fn valid(self) -> bool {
        &&& self.case.file_size_mib * MIB <= u64::MAX
        &&& self.collector.valid()
        &&& self.collector@ == gathered(case_bytes(self.case), self.outcomes@)
        &&& self.completed == self.outcomes@.len()
        &&& self.records@.len() == self.outcomes@.len()
        &&& forall|i: int|
            0 <= i < self.records@.len() ==> records(
                #[trigger] self.records@[i],
                self.case,
                self.outcomes@[i],
            )
    }

    /// A run of which nothing has started.
    pub fn new(case: BenchmarkCase, duration: u64) -> (r: MeasuredRun)
        requires
            case.file_size_mib * MIB <= u64::MAX,
        ensures
            r.valid(),
            r@ == (RunState { case, duration: duration as nat, outcomes: seq![], pending: 0 }),
    {
        MeasuredRun {
            case,
            duration,
            collector: MetricsCollector::new(),
            records: Vec::new(),
            pending: 0,
            completed: 0,
            outcomes: Ghost(Seq::empty()),
        }
    }

    /// At a tick: whether a request starts, which it does until the time is up.
    pub fn tick(&mut self, elapsed: Elapsed) -> (starts: bool)
        requires
            old(self).valid(),
            old(self)@.pending < u64::MAX,
        ensures
            final(self).valid(),
            starts == !old(self)@.time_is_up(elapsed),
            final(self)@ == (RunState {
                pending: if starts {
                    old(self)@.pending + 1
                } else {
                    old(self)@.pending
                },
                ..old(self)@
            }),
    {
        let starts: bool = elapsed.secs < self.duration;
        if starts {
            self.pending = self.pending + 1;
        }
        starts
    }

    /// At the end of a request: takes down how it ended, and returns the number of those that have
    /// ended, if that is to be reported, which it is at every hundredth.
    pub fn complete(&mut self, latency: Elapsed, success: bool) -> (report: Option<u64>)
        requires
            old(self).valid(),
            old(self)@.pending > 0,
            old(self)@.outcomes.len() < u64::MAX,
            latency.valid(),
        ensures
            final(self).valid(),
            final(self)@ == (RunState {
                outcomes: old(self)@.outcomes.push((latency, success)),
                pending: (old(self)@.pending - 1) as nat,
                ..old(self)@
            }),
            report is Some <==> (old(self)@.outcomes.len() + 1) % 100 == 0,
            report matches Some(n) ==> n == old(self)@.outcomes.len() + 1,
    {
        let bytes: u64 = self.case.file_size_bytes();
        let ghost before = self.outcomes@;
        proof {
            lemma_gathered_counts(bytes, before);
            assert(before.push((latency, success)).drop_last() =~= before);
        }
        self.collector.record_request(latency, bytes, success);
        let record: RequestRecord = (
            self.case.operation.to_string(),
            self.case.file_size_mib,
            self.case.chunk_size_mib,
            latency.as_milliseconds(),
            latency.as_megabit_rate(bytes),
            success,
        );
        self.records.push(record);
        self.pending = self.pending - 1;
        self.completed = self.completed + 1;
        self.outcomes = Ghost(before.push((latency, success)));
        if self.completed % 100 == 0 {
            Some(self.completed)
        } else {
            None
        }
    }

    /// At the end of a request of which nothing came back.
    pub fn lose(&mut self)
        requires
            old(self).valid(),
            old(self)@.pending > 0,
        ensures
            final(self).valid(),
            final(self)@ == (RunState { pending: (old(self)@.pending - 1) as nat, ..old(self)@ }),
    {
        self.pending = self.pending - 1;
    }

    /// Whether the run is over: the time is up and no request is under way.
    pub fn is_finished(&self, elapsed: Elapsed) -> (r: bool)
        ensures
            r == self@.finished(elapsed),
    {
        elapsed.secs >= self.duration && self.pending == 0
    }

    /// The result of the run, with one sample of the machine's load, and the record of every
    /// request.
    pub fn finish(self, cpu_usages: &Vec<Binary64>, used_memory: u64, warmup_complete: bool) -> (r: (
        BenchmarkResult,
        Vec<RequestRecord>,
    ))
        requires
            self.valid(),
            metrics::sum_is_finite(metrics::numbers(cpu_usages@)),
        ensures
            r.0.case == self@.case,
            r.0.warmup_complete == warmup_complete,
            r.0.sums_up(
                gathered(case_bytes(self@.case), self@.outcomes).with_sample(
                    metrics::numbers(cpu_usages@),
                    used_memory,
                ),
            ),
            r.0.in_order(),
            r.0.total_requests == r.1@.len(),
            r.0.failed_requests == failures(self@.outcomes),
            r.0.successful_requests + r.0.failed_requests == r.0.total_requests,
            r.1@.len() == self@.outcomes.len(),
            forall|i: int|
                0 <= i < r.1@.len() ==> records(
                    #[trigger] r.1@[i],
                    self@.case,
                    self@.outcomes[i],
                ),
    {
        proof {
            lemma_gathered_counts(case_bytes(self.case), self.outcomes@);
            let mem = seq![used_memory];
            assert(mem.drop_last() =~= seq![]);
            reveal_with_fuel(metrics::total_mem, 2);
            assert(metrics::total_mem(mem) == used_memory);
            assert(Seq::<u64>::empty().push(used_memory) =~= mem);
        }
        let mut collector = self.collector;
        collector.record_resource_sample(cpu_usages, used_memory);
        (collector.finalize(&self.case, warmup_complete), self.records)
    }
}

/// The number of outcomes that are failures.
pub open spec fn failures(outcomes: Seq<Outcome>) -> nat
    decreases outcomes.len(),
{
    if outcomes.len() == 0 {
        0
    } else {
        failures(outcomes.drop_last()) + if outcomes.last().1 {
            0nat
        } else {
            1nat
        }
    }
}

/// Every request is counted, and every failure as one; only those that succeeded leave a latency
/// or a throughput.
pub proof fn lemma_gathered_counts(bytes: u64, outcomes: Seq<Outcome>)
    ensures
        gathered(bytes, outcomes).total == outcomes.len(),
        gathered(bytes, outcomes).failed == failures(outcomes),
        failures(outcomes) <= outcomes.len(),
        gathered(bytes, outcomes).latencies.len() + failures(outcomes) <= outcomes.len(),
        gathered(bytes, outcomes).throughputs.len() + failures(outcomes) <= outcomes.len(),
        gathered(bytes, outcomes).cpu.len() == 0,
        gathered(bytes, outcomes).mem.len() == 0,
    decreases outcomes.len(),
{
    if outcomes.len() > 0 {
        lemma_gathered_counts(bytes, outcomes.drop_last());
    }
}

proof fn lemma_requests_commute(g: metrics::Gathered, bytes: u64, a: Outcome, b: Outcome)
    ensures
        g.with_request(a.0, bytes, a.1).with_request(b.0, bytes, b.1) == g.with_request(
            b.0,
            bytes,
            b.1,
        ).with_request(a.0, bytes, a.1),
{
    assert(g.with_request(a.0, bytes, a.1).with_request(b.0, bytes, b.1) =~= g.with_request(
        b.0,
        bytes,
        b.1,
    ).with_request(a.0, bytes, a.1));
}

proof fn lemma_gathered_is_fold(
    bytes: u64,
    outcomes: Seq<Outcome>,
    f: spec_fn(metrics::Gathered, Outcome) -> metrics::Gathered,
)
    requires
        f == (|g: metrics::Gathered, o: Outcome| g.with_request(o.0, bytes, o.1)),
    ensures
        gathered(bytes, outcomes) == outcomes.fold_left(metrics::Gathered::nothing(), f),
    decreases outcomes.len(),
{
    if outcomes.len() > 0 {
        lemma_gathered_is_fold(bytes, outcomes.drop_last(), f);
    }
}

/// The order in which requests end makes no difference to what is gathered.
pub proof fn lemma_order_irrelevant(bytes: u64, a: Seq<Outcome>, b: Seq<Outcome>)
    requires
        a.to_multiset() == b.to_multiset(),
    ensures
        gathered(bytes, a) == gathered(bytes, b),
{
    let f = |g: metrics::Gathered, o: Outcome| g.with_request(o.0, bytes, o.1);
    assert forall|x: Outcome, y: Outcome, g: metrics::Gathered| #[trigger]
        f(f(g, x), y) == f(f(g, y), x) by {
        lemma_requests_commute(g, bytes, x, y);
    }
    lemma_gathered_is_fold(bytes, a, f);
    lemma_gathered_is_fold(bytes, b, f);
    vstd::seq_lib::lemma_fold_left_permutation(a, b, f, metrics::Gathered::nothing());
}

/// A run that is finished starts no request afterwards.
pub proof fn lemma_finished_stays(state: RunState, elapsed: Elapsed, later: Elapsed)
    requires
        state.finished(elapsed),
        elapsed.secs <= later.secs,
    ensures
        state.time_is_up(later),
        state.finished(later),
{
}

} // verus!
