use streaming_bench::binary64::Binary64;
use streaming_bench::config::{BenchmarkCase, Operation};
use streaming_bench::elapsed::Elapsed;
use streaming_bench::messages::{
    banner, case_heading, run_ends, run_progress, run_starts, warmup_ends, warmup_progress,
    warmup_starts,
};
use streaming_bench::request::{
    download_url, health, health_url, read_download, upload_succeeded, upload_url, ReadState,
    ResponseEvent,
};
use streaming_bench::run::MeasuredRun;
use streaming_bench::selection::RunSettings;
use streaming_bench::warmup::{is_complete, is_over, is_reported};

const SETTINGS: RunSettings =
    RunSettings { rps: 10, duration: 300, warmup: 120, warmup_min_ops: 200 };

fn case() -> BenchmarkCase {
    BenchmarkCase { operation: Operation::Download, file_size_mib: 10, chunk_size_mib: 4 }
}

fn at(secs: u64, nanos: u32) -> Elapsed {
    Elapsed { secs, nanos }
}

fn value(x: &Binary64) -> f64 {
    f64::from_bits(x.to_bits())
}

#[test]
fn warmup_ends_with_time_and_operations() {
    assert!(!is_over(&SETTINGS, 119, 1000));
    assert!(!is_over(&SETTINGS, 120, 199));
    assert!(is_over(&SETTINGS, 120, 200));
    assert!(!is_over(&SETTINGS, 239, 199));
    assert!(is_over(&SETTINGS, 240, 0));
}

#[test]
fn warmup_is_complete_with_time_or_operations() {
    assert!(!is_complete(&SETTINGS, 119, 199));
    assert!(is_complete(&SETTINGS, 120, 0));
    assert!(is_complete(&SETTINGS, 0, 200));
}

#[test]
fn a_warmup_that_is_over_is_complete_and_stays_over() {
    for secs in 0..300 {
        for ops in [0, 199, 200, 201] {
            if is_over(&SETTINGS, secs, ops) {
                assert!(is_complete(&SETTINGS, secs, ops));
                assert!(is_over(&SETTINGS, secs + 1, ops + 1));
                assert!(secs >= 120);
            }
        }
    }
}

#[test]
fn warmup_reports_every_fifty() {
    assert!(is_reported(50) && is_reported(100));
    assert!(!is_reported(49) && !is_reported(51));
}

#[test]
fn urls_name_the_sizes() {
    let server = "http://127.0.0.1:8080";
    assert_eq!(upload_url(server, &case()), "http://127.0.0.1:8080/upload?chunk_size_mib=4");
    assert_eq!(
        download_url(server, &case()),
        "http://127.0.0.1:8080/download?file_size_mib=10&chunk_size_mib=4"
    );
    assert_eq!(health_url(server), "http://127.0.0.1:8080/health");
    assert_eq!(health(), "ok");
}

fn outcome(events: &[ResponseEvent]) -> ReadState {
    let mut state = ReadState::Reading(0);
    for e in events {
        state = read_download(state, *e);
    }
    state
}

#[test]
fn a_download_succeeds_with_a_byte() {
    let ok = ResponseEvent::Head(true);
    let end = ResponseEvent::End;
    assert_eq!(outcome(&[ok, ResponseEvent::Bytes(3)]), ReadState::Reading(3));
    assert_eq!(
        outcome(&[ok, ResponseEvent::Bytes(3), ResponseEvent::Bytes(4), end]),
        ReadState::Over(true)
    );
    assert_eq!(outcome(&[ok, end]), ReadState::Over(false));
    assert_eq!(outcome(&[ok, ResponseEvent::Bytes(0), end]), ReadState::Over(false));
}

#[test]
fn a_download_that_failed_stays_failed() {
    let ok = ResponseEvent::Head(true);
    let end = ResponseEvent::End;
    assert_eq!(
        outcome(&[ok, ResponseEvent::Bytes(3), ResponseEvent::Failed, end]),
        ReadState::Over(false)
    );
    assert_eq!(
        outcome(&[ResponseEvent::Head(false), ResponseEvent::Bytes(3), end]),
        ReadState::Over(false)
    );
    assert_eq!(outcome(&[ResponseEvent::Failed]), ReadState::Over(false));
}

#[test]
fn an_upload_succeeds_with_its_status() {
    assert!(upload_succeeded(ResponseEvent::Head(true)));
    assert!(!upload_succeeded(ResponseEvent::Head(false)));
    assert!(!upload_succeeded(ResponseEvent::Failed));
}

#[test]
fn requests_start_until_the_time_is_up() {
    let mut run = MeasuredRun::new(case(), 2);
    assert!(run.tick(at(0, 0)));
    assert!(run.tick(at(1, 999_999_999)));
    assert!(!run.tick(at(2, 0)));
    assert!(!run.is_finished(at(2, 0)));
    assert_eq!(run.complete(at(0, 500_000_000), true), None);
    assert!(!run.is_finished(at(2, 0)));
    run.lose();
    assert!(run.is_finished(at(2, 0)));
    assert!(run.is_finished(at(3, 0)));
    assert!(!run.is_finished(at(1, 0)));
    let (result, records) = run.finish(&vec![Binary64::from_u64(50)], 4096, true);
    assert_eq!(result.total_requests, 1);
    assert_eq!(records.len(), 1);
}

#[test]
fn a_run_records_every_request() {
    let mut run = MeasuredRun::new(case(), 10);
    for i in 0..200 {
        assert!(run.tick(at(0, i)));
    }
    for i in 1..=200u64 {
        let report = run.complete(at(0, 250_000_000), i % 4 != 0);
        assert_eq!(report, if i % 100 == 0 { Some(i) } else { None });
    }
    let usages = vec![Binary64::from_u64(10), Binary64::from_u64(20)];
    let (result, records) = run.finish(&usages, 1 << 30, true);
    assert_eq!(result.case, case());
    assert!(result.warmup_complete);
    assert_eq!(result.total_requests, 200);
    assert_eq!(result.failed_requests, 50);
    assert_eq!(result.successful_requests, 150);
    assert_eq!(value(&result.resources.error_rate_percent), 25.0);
    assert_eq!(value(&result.resources.avg_cpu_percent), 15.0);
    assert_eq!(value(&result.resources.peak_cpu_percent), 15.0);
    assert_eq!(result.resources.avg_mem_bytes, 1 << 30);
    assert_eq!(records.len(), 200);
    let (op, file, chunk, lat, tp, success) = &records[3];
    assert_eq!((op.as_str(), *file, *chunk, *success), ("Download", 10, 4, false));
    assert_eq!(value(lat), 250.0);
    assert_eq!(value(tp), 10_485_760.0 * 8.0 / 0.25 / 1_000_000.0);
    assert!(records[0].5);
}

#[test]
fn a_request_that_took_no_time_has_no_throughput() {
    let mut run = MeasuredRun::new(case(), 1);
    assert!(run.tick(at(0, 0)));
    assert_eq!(run.complete(at(0, 0), true), None);
    let (result, records) = run.finish(&Vec::new(), 0, false);
    assert_eq!(value(&records[0].3), 0.0);
    assert_eq!(value(&records[0].4), 0.0);
    assert_eq!(value(&result.latency.p50_ms), 0.001);
    assert_eq!(value(&result.throughput.p50_mbps), 0.0);
    assert_eq!(value(&result.resources.avg_cpu_percent), 0.0);
}

#[test]
fn the_order_of_requests_makes_no_difference() {
    let outcomes: Vec<(u32, bool)> =
        (1..40).map(|i| (i * 1_234_567, i % 5 != 0)).collect();
    let finish = |order: Vec<(u32, bool)>| {
        let mut run = MeasuredRun::new(case(), 1);
        for (nanos, ok) in order {
            assert!(run.tick(at(0, 0)));
            assert_eq!(run.complete(at(0, nanos), ok), None);
        }
        format!("{:?}", run.finish(&Vec::new(), 7, true).0)
    };
    let mut reversed = outcomes.clone();
    reversed.reverse();
    assert_eq!(finish(outcomes), finish(reversed));
}

#[test]
fn messages_read_as_expected() {
    assert_eq!(
        banner("http://h", &SETTINGS, 42, 2),
        "=== Streaming Benchmark Client ===\nServer: http://h\nRPS: 10, Duration: 300s, Warmup: 120s\nTotal cases to run: 42\nClient read-ahead: 2 chunks, RNG threads: 2\n"
    );
    assert_eq!(case_heading(1, 42, &case()), "\n[1/42] Download - File: 10 MiB, Chunk: 4 MiB");
    assert_eq!(warmup_starts(&SETTINGS), "  Warming up (120 seconds or 200 ops)...");
    assert_eq!(warmup_progress(50, 7), "    Warmup: 50 ops, 7s elapsed");
    assert_eq!(warmup_ends(200, at(120, 260_000_000)), "  Warmup complete: 200 ops in 120.3s");
    assert_eq!(run_starts(&SETTINGS), "  Running measured phase (300 seconds at 10 RPS)...");
    assert_eq!(
        run_progress(100, at(9, 949_000_000)),
        "    Completed: 100 requests, 9.9s elapsed"
    );
    let mut run = MeasuredRun::new(case(), 1);
    assert!(run.tick(at(0, 0)));
    assert_eq!(run.complete(at(0, 1_500_000), true), None);
    let (r, _) = run.finish(&Vec::new(), 0, true);
    assert_eq!(
        run_ends(&r),
        "  Done: 1 requests | p50=1.5ms p99=1.5ms | p50 tp=55935.0 Mbps p99 tp=55935.0 Mbps | err=0.0%"
    );
}
