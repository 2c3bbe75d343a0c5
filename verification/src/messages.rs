//! What the client says while it runs.
use vstd::prelude::*;

use crate::config::BenchmarkCase;
use crate::elapsed::Elapsed;
use crate::metrics::BenchmarkResult;
use crate::request::CLIENT_READ_AHEAD;
use crate::selection::RunSettings;
use crate::text;

verus! {

/// What a run is about to do.
pub fn banner(server: &str, settings: &RunSettings, cases: usize, rng_threads: usize) -> (s: String)
    ensures
        s@ == "=== Streaming Benchmark Client ===\nServer: "@ + server@ + "\nRPS: "@
            + text::decimal(settings.rps as nat) + ", Duration: "@ + text::decimal(
            settings.duration as nat,
        ) + "s, Warmup: "@ + text::decimal(settings.warmup as nat)
            + "s\nTotal cases to run: "@ + text::decimal(cases as nat)
            + "\nClient read-ahead: "@ + text::decimal(CLIENT_READ_AHEAD as nat)
            + " chunks, RNG threads: "@ + text::decimal(rng_threads as nat) + "\n"@,
{
    let mut s: String = "=== Streaming Benchmark Client ===\nServer: ".to_owned();
    s.append(server);
    s.append("\nRPS: ");
    text::push_decimal(&mut s, settings.rps);
    s.append(", Duration: ");
    text::push_decimal(&mut s, settings.duration);
    s.append("s, Warmup: ");
    text::push_decimal(&mut s, settings.warmup);
    s.append("s\nTotal cases to run: ");
    text::push_decimal(&mut s, cases as u64);
    s.append("\nClient read-ahead: ");
    text::push_decimal(&mut s, CLIENT_READ_AHEAD as u64);
    s.append(" chunks, RNG threads: ");
    text::push_decimal(&mut s, rng_threads as u64);
    s.append("\n");
    s
}

/// Which case comes next, counted from 1.
pub fn case_heading(number: usize, cases: usize, case: &BenchmarkCase) -> (s: String)
    ensures
        s@ == "\n["@ + text::decimal(number as nat) + "/"@ + text::decimal(cases as nat) + "] "@
            + case.operation.name() + " - File: "@ + text::decimal(case.file_size_mib as nat)
            + " MiB, Chunk: "@ + text::decimal(case.chunk_size_mib as nat) + " MiB"@,
{
    let mut s: String = "\n[".to_owned();
    text::push_decimal(&mut s, number as u64);
    s.append("/");
    text::push_decimal(&mut s, cases as u64);
    s.append("] ");
    s.append(case.operation.as_str());
    s.append(" - File: ");
    text::push_decimal(&mut s, case.file_size_mib);
    s.append(" MiB, Chunk: ");
    text::push_decimal(&mut s, case.chunk_size_mib);
    s.append(" MiB");
    s
}

/// The warm-up starts.
pub fn warmup_starts(settings: &RunSettings) -> (s: String)
    ensures
        s@ == "  Warming up ("@ + text::decimal(settings.warmup as nat) + " seconds or "@
            + text::decimal(settings.warmup_min_ops as nat) + " ops)..."@,
{
    let mut s: String = "  Warming up (".to_owned();
    text::push_decimal(&mut s, settings.warmup);
    s.append(" seconds or ");
    text::push_decimal(&mut s, settings.warmup_min_ops);
    s.append(" ops)...");
    s
}

/// How far the warm-up has come.
pub fn warmup_progress(ops: u64, elapsed_secs: u64) -> (s: String)
    ensures
        s@ == "    Warmup: "@ + text::decimal(ops as nat) + " ops, "@ + text::decimal(
            elapsed_secs as nat,
        ) + "s elapsed"@,
{
    let mut s: String = "    Warmup: ".to_owned();
    text::push_decimal(&mut s, ops);
    s.append(" ops, ");
    text::push_decimal(&mut s, elapsed_secs);
    s.append("s elapsed");
    s
}

/// The warm-up has ended.
pub fn warmup_ends(ops: u64, elapsed: Elapsed) -> (s: String)
    requires
        elapsed.valid(),
    ensures
        s@ == "  Warmup complete: "@ + text::decimal(ops as nat) + " ops in "@ + text::fixed(
            elapsed.seconds(),
            1,
        ) + "s"@,
{
    let mut s: String = "  Warmup complete: ".to_owned();
    text::push_decimal(&mut s, ops);
    s.append(" ops in ");
    text::push_fixed(&mut s, &elapsed.as_seconds(), 1);
    s.append("s");
    s
}

/// The measured run starts.
pub fn run_starts(settings: &RunSettings) -> (s: String)
    ensures
        s@ == "  Running measured phase ("@ + text::decimal(settings.duration as nat)
            + " seconds at "@ + text::decimal(settings.rps as nat) + " RPS)..."@,
{
    let mut s: String = "  Running measured phase (".to_owned();
    text::push_decimal(&mut s, settings.duration);
    s.append(" seconds at ");
    text::push_decimal(&mut s, settings.rps);
    s.append(" RPS)...");
    s
}

/// How far the measured run has come.
pub fn run_progress(completed: u64, elapsed: Elapsed) -> (s: String)
    requires
        elapsed.valid(),
    ensures
        s@ == "    Completed: "@ + text::decimal(completed as nat) + " requests, "@ + text::fixed(
            elapsed.seconds(),
            1,
        ) + "s elapsed"@,
{
    let mut s: String = "    Completed: ".to_owned();
    text::push_decimal(&mut s, completed);
    s.append(" requests, ");
    text::push_fixed(&mut s, &elapsed.as_seconds(), 1);
    s.append("s elapsed");
    s
}

/// The measured run has ended.
pub fn run_ends(r: &BenchmarkResult) -> (s: String)
    ensures
        s@ == "  Done: "@ + text::decimal(r.total_requests as nat) + " requests | p50="@
            + text::fixed(r.latency.p50_ms@, 1) + "ms p99="@ + text::fixed(r.latency.p99_ms@, 1)
            + "ms | p50 tp="@ + text::fixed(r.throughput.p50_mbps@, 1) + " Mbps p99 tp="@
            + text::fixed(r.throughput.p99_mbps@, 1) + " Mbps | err="@ + text::fixed(
            r.resources.error_rate_percent@,
            1,
        ) + "%"@,
{
    let mut s: String = "  Done: ".to_owned();
    text::push_decimal(&mut s, r.total_requests);
    s.append(" requests | p50=");
    text::push_fixed(&mut s, &r.latency.p50_ms, 1);
    s.append("ms p99=");
    text::push_fixed(&mut s, &r.latency.p99_ms, 1);
    s.append("ms | p50 tp=");
    text::push_fixed(&mut s, &r.throughput.p50_mbps, 1);
    s.append(" Mbps p99 tp=");
    text::push_fixed(&mut s, &r.throughput.p99_mbps, 1);
    s.append(" Mbps | err=");
    text::push_fixed(&mut s, &r.resources.error_rate_percent, 1);
    s.append("%");
    s
}

} // verus!
