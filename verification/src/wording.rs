//! What the client's messages tell: the numbers in them are those of the run.
use vstd::prelude::*;

use crate::accuracy;
use crate::config::{BenchmarkCase, Operation};
use crate::elapsed::Elapsed;
use crate::messages;
use crate::metrics::BenchmarkResult;
use crate::reading;
use crate::selection::RunSettings;
use crate::text;
use crate::worth;

verus! {

/// The text of an integer.
proof fn lemma_said(n: nat) -> (s: Seq<char>)
    ensures
        s == text::decimal(n),
        reading::says(s, n),
{
    reading::lemma_decimal_says(n);
    text::decimal(n)
}

/// The banner names the server, the load, the times, and how much is to be run.
pub proof fn lemma_banner(
    server: &str,
    settings: RunSettings,
    cases: usize,
    rng_threads: usize,
    s: String,
) -> (t: (Seq<char>, Seq<char>, Seq<char>, Seq<char>, Seq<char>))
    requires
        call_ensures(messages::banner, (server, &settings, cases, rng_threads), s),
    ensures
        s@ == "=== Streaming Benchmark Client ===\nServer: "@ + server@ + "\nRPS: "@ + t.0
            + ", Duration: "@ + t.1 + "s, Warmup: "@ + t.2 + "s\nTotal cases to run: "@ + t.3
            + "\nClient read-ahead: "@ + text::decimal(2) + " chunks, RNG threads: "@ + t.4 + "\n"@,
        reading::says(t.0, settings.rps as nat),
        reading::says(t.1, settings.duration as nat),
        reading::says(t.2, settings.warmup as nat),
        reading::says(t.3, cases as nat),
        reading::says(t.4, rng_threads as nat),
{
    (
        lemma_said(settings.rps as nat),
        lemma_said(settings.duration as nat),
        lemma_said(settings.warmup as nat),
        lemma_said(cases as nat),
        lemma_said(rng_threads as nat),
    )
}

/// The heading of a case tells its number, its operation and its sizes.
pub proof fn lemma_case_heading(number: usize, cases: usize, case: BenchmarkCase, s: String) -> (t: (
    Seq<char>,
    Seq<char>,
    Seq<char>,
    Seq<char>,
))
    requires
        call_ensures(messages::case_heading, (number, cases, &case), s),
    ensures
        s@ == "\n["@ + t.0 + "/"@ + t.1 + "] "@ + (match case.operation {
            Operation::Upload => "Upload"@,
            Operation::Download => "Download"@,
        }) + " - File: "@ + t.2 + " MiB, Chunk: "@ + t.3 + " MiB"@,
        reading::says(t.0, number as nat),
        reading::says(t.1, cases as nat),
        reading::says(t.2, case.file_size_mib as nat),
        reading::says(t.3, case.chunk_size_mib as nat),
{
    (
        lemma_said(number as nat),
        lemma_said(cases as nat),
        lemma_said(case.file_size_mib as nat),
        lemma_said(case.chunk_size_mib as nat),
    )
}

/// The warm-up is announced with its time and its least number of operations.
pub proof fn lemma_warmup_starts(settings: RunSettings, s: String) -> (t: (Seq<char>, Seq<char>))
    requires
        call_ensures(messages::warmup_starts, (&settings,), s),
    ensures
        s@ == "  Warming up ("@ + t.0 + " seconds or "@ + t.1 + " ops)..."@,
        reading::says(t.0, settings.warmup as nat),
        reading::says(t.1, settings.warmup_min_ops as nat),
{
    (lemma_said(settings.warmup as nat), lemma_said(settings.warmup_min_ops as nat))
}

/// The progress of a warm-up is told in operations and seconds.
pub proof fn lemma_warmup_progress(ops: u64, elapsed_secs: u64, s: String) -> (t: (
    Seq<char>,
    Seq<char>,
))
    requires
        call_ensures(messages::warmup_progress, (ops, elapsed_secs), s),
    ensures
        s@ == "    Warmup: "@ + t.0 + " ops, "@ + t.1 + "s elapsed"@,
        reading::says(t.0, ops as nat),
        reading::says(t.1, elapsed_secs as nat),
{
    (lemma_said(ops as nat), lemma_said(elapsed_secs as nat))
}

/// The text shows the span in seconds, with one decimal.
pub open spec fn tells_time(s: Seq<char>, e: Elapsed) -> bool {
    exists|x: real| #[trigger] worth::nearly(x, accuracy::time(e), 10) && reading::shows(s, x, 1)
}

proof fn lemma_time_told(e: Elapsed) -> (s: Seq<char>)
    requires
        e.valid(),
    ensures
        s == text::fixed(e.seconds(), 1),
        tells_time(s, e),
{
    accuracy::lemma_seconds_accurate(e);
    reading::lemma_fixed_shows(e.seconds(), 1);
    text::fixed(e.seconds(), 1)
}

/// The end of a warm-up is told with its operations and its time.
pub proof fn lemma_warmup_ends(ops: u64, e: Elapsed, s: String) -> (t: (Seq<char>, Seq<char>))
    requires
        call_ensures(messages::warmup_ends, (ops, e), s),
        e.valid(),
    ensures
        s@ == "  Warmup complete: "@ + t.0 + " ops in "@ + t.1 + "s"@,
        reading::says(t.0, ops as nat),
        tells_time(t.1, e),
{
    (lemma_said(ops as nat), lemma_time_told(e))
}

/// The measured run is announced with its length and its load.
pub proof fn lemma_run_starts(settings: RunSettings, s: String) -> (t: (Seq<char>, Seq<char>))
    requires
        call_ensures(messages::run_starts, (&settings,), s),
    ensures
        s@ == "  Running measured phase ("@ + t.0 + " seconds at "@ + t.1 + " RPS)..."@,
        reading::says(t.0, settings.duration as nat),
        reading::says(t.1, settings.rps as nat),
{
    (lemma_said(settings.duration as nat), lemma_said(settings.rps as nat))
}

/// The progress of a run is told in requests and time.
pub proof fn lemma_run_progress(completed: u64, e: Elapsed, s: String) -> (t: (
    Seq<char>,
    Seq<char>,
))
    requires
        call_ensures(messages::run_progress, (completed, e), s),
        e.valid(),
    ensures
        s@ == "    Completed: "@ + t.0 + " requests, "@ + t.1 + "s elapsed"@,
        reading::says(t.0, completed as nat),
        tells_time(t.1, e),
{
    (lemma_said(completed as nat), lemma_time_told(e))
}

/// The end of a run is told with its requests, two of its latencies, two of its throughputs, and its
/// error rate.
pub proof fn lemma_run_ends(r: BenchmarkResult, s: String) -> (t: (
    Seq<char>,
    Seq<char>,
    Seq<char>,
    Seq<char>,
    Seq<char>,
    Seq<char>,
))
    requires
        call_ensures(messages::run_ends, (&r,), s),
    ensures
        s@ == "  Done: "@ + t.0 + " requests | p50="@ + t.1 + "ms p99="@ + t.2 + "ms | p50 tp="@
            + t.3 + " Mbps p99 tp="@ + t.4 + " Mbps | err="@ + t.5 + "%"@,
        reading::says(t.0, r.total_requests as nat),
        reading::shows(t.1, worth::worth(r.latency.p50_ms@), 1),
        reading::shows(t.2, worth::worth(r.latency.p99_ms@), 1),
        reading::shows(t.3, worth::worth(r.throughput.p50_mbps@), 1),
        reading::shows(t.4, worth::worth(r.throughput.p99_mbps@), 1),
        reading::shows(t.5, worth::worth(r.resources.error_rate_percent@), 1),
{
    reading::lemma_fixed_shows(r.latency.p50_ms@, 1);
    reading::lemma_fixed_shows(r.latency.p99_ms@, 1);
    reading::lemma_fixed_shows(r.throughput.p50_mbps@, 1);
    reading::lemma_fixed_shows(r.throughput.p99_mbps@, 1);
    reading::lemma_fixed_shows(r.resources.error_rate_percent@, 1);
    (
        lemma_said(r.total_requests as nat),
        text::fixed(r.latency.p50_ms@, 1),
        text::fixed(r.latency.p99_ms@, 1),
        text::fixed(r.throughput.p50_mbps@, 1),
        text::fixed(r.throughput.p99_mbps@, 1),
        text::fixed(r.resources.error_rate_percent@, 1),
    )
}

} // verus!
