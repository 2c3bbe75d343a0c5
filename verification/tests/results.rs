use hdrhistogram::Histogram;
use std::time::Duration;
use streaming_bench::binary64::Binary64;
use streaming_bench::config::{BenchmarkCase, Operation};
use streaming_bench::elapsed::Elapsed;
use streaming_bench::markdown::{best_result, markdown_report};
use streaming_bench::metrics::{
    format_bytes, BenchmarkResult, LatencyPercentiles, MetricsCollector, ResourceMetrics,
    ThroughputPercentiles,
};
use streaming_bench::report::{csv_report, per_request_csv};

fn case(operation: Operation, file_size_mib: u64, chunk_size_mib: u64) -> BenchmarkCase {
    BenchmarkCase { operation, file_size_mib, chunk_size_mib }
}

fn value(x: &Binary64) -> f64 {
    f64::from_bits(x.to_bits())
}

fn number(x: f64) -> Binary64 {
    Binary64::from_bits(x.to_bits()).unwrap()
}

fn span(d: Duration) -> Elapsed {
    Elapsed { secs: d.as_secs(), nanos: d.subsec_nanos() }
}

/// Latencies from next to nothing up to beyond what is tracked.
fn latencies() -> Vec<Duration> {
    let mut v: Vec<Duration> = Vec::new();
    let mut state = 12345u64;
    for i in 0..5000u64 {
        state = state.wrapping_mul(6364136223846793005).wrapping_add(1442695040888963407);
        let nanos = (state >> 33) % (1 << (10 + i % 30));
        v.push(Duration::from_nanos(nanos));
    }
    v.push(Duration::from_secs(599));
    v.push(Duration::from_secs(900));
    v.push(Duration::from_secs(5000));
    v.push(Duration::from_nanos(0));
    v
}

#[test]
fn percentiles_are_those_of_the_histograms() {
    let bytes = 10 * 1024 * 1024u64;
    let mut lat: Histogram<u64> = Histogram::new_with_bounds(1, 600_000_000, 3).unwrap();
    let mut tp: Histogram<u64> = Histogram::new_with_bounds(1, 100_000_000, 3).unwrap();
    let mut c = MetricsCollector::new();
    for (i, d) in latencies().into_iter().enumerate() {
        let ok = i % 7 != 3;
        c.record_request(span(d), bytes, ok);
        if ok {
            let _ = lat.record((d.as_micros() as u64).max(1));
            let secs = d.as_secs_f64();
            if secs > 0.0 {
                let _ = tp.record((((bytes as f64 * 8.0) / secs / 1000.0) as u64).max(1));
            }
        }
    }
    let r = c.finalize(&case(Operation::Upload, 10, 1), true);
    assert_eq!(value(&r.latency.p50_ms), lat.value_at_percentile(50.0) as f64 / 1000.0);
    assert_eq!(value(&r.latency.p95_ms), lat.value_at_percentile(95.0) as f64 / 1000.0);
    assert_eq!(value(&r.latency.p99_ms), lat.value_at_percentile(99.0) as f64 / 1000.0);
    assert_eq!(value(&r.latency.p999_ms), lat.value_at_percentile(99.9) as f64 / 1000.0);
    assert_eq!(value(&r.throughput.p50_mbps), tp.value_at_percentile(50.0) as f64 / 1000.0);
    assert_eq!(value(&r.throughput.p95_mbps), tp.value_at_percentile(95.0) as f64 / 1000.0);
    assert_eq!(value(&r.throughput.p99_mbps), tp.value_at_percentile(99.0) as f64 / 1000.0);
    assert_eq!(value(&r.throughput.p999_mbps), tp.value_at_percentile(99.9) as f64 / 1000.0);
    assert_eq!(r.total_requests, 5004);
    assert_eq!(r.failed_requests, 715);
    assert_eq!(r.successful_requests, 4289);
    assert_eq!(value(&r.resources.error_rate_percent), 715.0 / 5004.0 * 100.0);
}

#[test]
fn percentiles_are_in_order() {
    let mut c = MetricsCollector::new();
    for d in latencies() {
        c.record_request(span(d), 1 << 20, true);
    }
    let r = c.finalize(&case(Operation::Upload, 10, 1), true);
    assert!(value(&r.latency.p50_ms) <= value(&r.latency.p95_ms));
    assert!(value(&r.latency.p95_ms) <= value(&r.latency.p99_ms));
    assert!(value(&r.latency.p99_ms) <= value(&r.latency.p999_ms));
    assert!(value(&r.throughput.p50_mbps) <= value(&r.throughput.p95_mbps));
    assert!(value(&r.throughput.p95_mbps) <= value(&r.throughput.p99_mbps));
    assert!(value(&r.throughput.p99_mbps) <= value(&r.throughput.p999_mbps));
}

#[test]
fn ranks_of_few_values() {
    let mut c = MetricsCollector::new();
    for us in 1..=1000u64 {
        c.record_request(span(Duration::from_micros(us)), 0, true);
    }
    let r = c.finalize(&case(Operation::Upload, 10, 1), false);
    assert_eq!(value(&r.latency.p50_ms), 0.5);
    assert_eq!(value(&r.latency.p95_ms), 0.95);
    assert_eq!(value(&r.latency.p99_ms), 0.99);
    // In double precision 99.9 / 100 is a little more than 0.999.
    assert_eq!(value(&r.latency.p999_ms), 1.0);
    assert_eq!(value(&r.throughput.p50_mbps), 0.001);
    assert!(!r.warmup_complete);
}

#[test]
fn values_counted_together_are_given_by_the_highest() {
    let one = |us: u64| {
        let mut c = MetricsCollector::new();
        c.record_request(span(Duration::from_micros(us)), 0, true);
        value(&c.finalize(&case(Operation::Upload, 10, 1), true).latency.p50_ms)
    };
    assert_eq!(one(2047), 2.047);
    assert_eq!(one(2048), 2.049);
    assert_eq!(one(2049), 2.049);
    assert_eq!(one(613_500), 613.887);
    assert_eq!(one(1_073_741_823), 1073741.823);
    assert_eq!(one(1_073_741_824), 0.0);
}

#[test]
fn nothing_gathered_gives_zeros() {
    let r = MetricsCollector::new().finalize(&case(Operation::Download, 100, 8), true);
    assert_eq!(r.case, case(Operation::Download, 100, 8));
    assert_eq!((r.total_requests, r.successful_requests, r.failed_requests), (0, 0, 0));
    assert_eq!(value(&r.latency.p999_ms), 0.0);
    assert_eq!(value(&r.throughput.p999_mbps), 0.0);
    assert_eq!(value(&r.resources.avg_cpu_percent), 0.0);
    assert_eq!(value(&r.resources.peak_cpu_percent), 0.0);
    assert_eq!((r.resources.avg_mem_bytes, r.resources.peak_mem_bytes), (0, 0));
    assert_eq!(value(&r.resources.error_rate_percent), 0.0);
}

#[test]
fn failures_are_only_counted() {
    let mut c = MetricsCollector::new();
    c.record_request(span(Duration::from_secs(1)), 1, false);
    let r = c.finalize(&case(Operation::Upload, 10, 1), true);
    assert_eq!((r.total_requests, r.successful_requests, r.failed_requests), (1, 0, 1));
    assert_eq!(value(&r.latency.p50_ms), 0.0);
    assert_eq!(value(&r.resources.error_rate_percent), 100.0);
}

#[test]
fn the_error_rate_is_nothing_or_all_only_where_it_should_be() {
    let rate = |failed: u64, total: u64| {
        let mut c = MetricsCollector::new();
        for i in 0..total {
            c.record_request(span(Duration::from_micros(5)), 1, i >= failed);
        }
        value(&c.finalize(&case(Operation::Upload, 10, 1), true).resources.error_rate_percent)
    };
    for total in [1, 2, 3, 7, 1000, 30_000] {
        assert_eq!(rate(0, total), 0.0);
        assert_eq!(rate(total, total), 100.0);
        if total > 1 {
            assert!(rate(1, total) > 0.0);
            assert!(rate(total - 1, total) < 100.0);
        }
    }
    assert_eq!(rate(1, 3), 1.0 / 3.0 * 100.0);
}

#[test]
fn one_more_failure_leaves_all_but_the_counts_and_the_rate() {
    let run = |failure_at: Option<usize>| {
        let mut c = MetricsCollector::new();
        for (i, d) in latencies().into_iter().take(300).enumerate() {
            if failure_at == Some(i) {
                c.record_request(span(Duration::from_secs(3)), 77, false);
            }
            c.record_request(span(d), 1 << 20, i % 9 != 0);
            if i == 150 {
                c.record_resource_sample(&vec![number(12.5)], 4096);
            }
        }
        c.finalize(&case(Operation::Upload, 10, 1), true)
    };
    let before = run(None);
    for at in [0, 150, 151, 299] {
        let after = run(Some(at));
        assert_eq!(format!("{:?}", after.latency), format!("{:?}", before.latency));
        assert_eq!(format!("{:?}", after.throughput), format!("{:?}", before.throughput));
        assert_eq!(after.successful_requests, before.successful_requests);
        assert_eq!(after.total_requests, before.total_requests + 1);
        assert_eq!(after.failed_requests, before.failed_requests + 1);
        assert_eq!(after.resources.avg_cpu_percent, before.resources.avg_cpu_percent);
        assert_eq!(after.resources.peak_cpu_percent, before.resources.peak_cpu_percent);
        assert_eq!(after.resources.avg_mem_bytes, before.resources.avg_mem_bytes);
        assert_eq!(after.resources.peak_mem_bytes, before.resources.peak_mem_bytes);
        let (a, b) = (before.resources.error_rate_percent, after.resources.error_rate_percent);
        assert!(value(&a) < value(&b));
    }
}

#[test]
fn samples_are_averaged_in_single_and_summed_in_double_precision() {
    let samples: [&[f32]; 3] = [&[0.1, 33.3, 99.7], &[1.5, 2.25, 7.125, 100.0], &[12.345678]];
    let mut c = MetricsCollector::new();
    let mut expected: Vec<f64> = Vec::new();
    for (i, s) in samples.iter().enumerate() {
        let usages: Vec<Binary64> = s.iter().map(|&x| number(f64::from(x))).collect();
        c.record_resource_sample(&usages, [1000, 5000, 3001][i]);
        let total: f32 = s.iter().sum();
        expected.push((total / s.len() as f32) as f64);
    }
    let r = c.finalize(&case(Operation::Upload, 10, 1), true);
    let sum: f64 = expected.iter().sum();
    assert_eq!(value(&r.resources.avg_cpu_percent), sum / 3.0);
    assert_eq!(
        value(&r.resources.peak_cpu_percent),
        expected.iter().cloned().fold(0.0, f64::max)
    );
    assert_eq!(r.resources.avg_mem_bytes, 3000);
    assert_eq!(r.resources.peak_mem_bytes, 5000);
}

#[test]
fn samples_up_to_the_largest_single_precision_number() {
    for s in [vec![f32::MAX], vec![1e38, 2e38], vec![f32::MAX / 2.0, f32::MAX / 2.0, 1.0], vec![]] {
        let mut c = MetricsCollector::new();
        let usages: Vec<Binary64> = s.iter().map(|&x: &f32| number(f64::from(x))).collect();
        c.record_resource_sample(&usages, 1);
        c.record_resource_sample(&usages, 2);
        let r = c.finalize(&case(Operation::Upload, 10, 1), true);
        let mut total = 0.0f32;
        for x in &s {
            total += x;
        }
        let mean = f64::from(total / s.len().max(1) as f32);
        assert_eq!(value(&r.resources.avg_cpu_percent), mean);
        assert_eq!(value(&r.resources.peak_cpu_percent), mean);
    }
}

#[test]
fn requests_of_any_kind_may_come_in_any_order() {
    let requests: Vec<(Duration, u64, bool)> = latencies()
        .into_iter()
        .take(500)
        .enumerate()
        .map(|(i, d)| (d, (i as u64 * 7919) << (i % 20), i % 6 != 1))
        .collect();
    let finish = |order: &Vec<(Duration, u64, bool)>, sample_at: usize| {
        let mut c = MetricsCollector::new();
        for (i, (d, bytes, ok)) in order.iter().enumerate() {
            if i == sample_at {
                c.record_resource_sample(&vec![number(12.5), number(50.0)], 4096);
            }
            c.record_request(span(*d), *bytes, *ok);
        }
        format!("{:?}", c.finalize(&case(Operation::Upload, 10, 1), true))
    };
    let mut other = requests.clone();
    other.reverse();
    other.rotate_left(123);
    assert_eq!(finish(&requests, 0), finish(&other, 321));
}

#[test]
fn exact_sizes_are_rounded_to_even_tenths() {
    assert_eq!(format_bytes(1024 + 256), "1.2 KiB");
    assert_eq!(format_bytes(1024 + 768), "1.8 KiB");
    assert_eq!(format_bytes(1023), "1023 B");
    assert_eq!(format_bytes(3 << 29), "1.5 GiB");
    assert_eq!(format_bytes(u64::MAX), "17179869184.0 GiB");
}

fn result(operation: Operation, file: u64, chunk: u64, p50: f64) -> BenchmarkResult {
    BenchmarkResult {
        case: case(operation, file, chunk),
        warmup_complete: true,
        total_requests: 120,
        successful_requests: 119,
        failed_requests: 1,
        latency: LatencyPercentiles {
            p50_ms: number(613.887),
            p95_ms: number(620.0),
            p99_ms: number(645.631),
            p999_ms: number(700.125),
        },
        throughput: ThroughputPercentiles {
            p50_mbps: number(p50),
            p95_mbps: number(1400.0),
            p99_mbps: number(1412.095),
            p999_mbps: number(1500.5),
        },
        resources: ResourceMetrics {
            avg_cpu_percent: number(42.25),
            peak_cpu_percent: number(42.35),
            avg_mem_bytes: 8_589_934_592,
            peak_mem_bytes: 524_288,
            error_rate_percent: number(0.8333333333333334),
        },
    }
}

#[test]
fn results_separated_by_commas() {
    let head = "Operation,File Size (MiB),Chunk Size (MiB),Warmup Complete,Requests,p50 Latency (ms),p95 Latency (ms),p99 Latency (ms),p999 Latency (ms),p50 Throughput (Mbps),p95 Throughput (Mbps),p99 Throughput (Mbps),p999 Throughput (Mbps),Avg CPU %,Peak CPU %,Avg Mem,Peak Mem,Error Rate %\n";
    assert_eq!(csv_report(&Vec::new()), head);
    let mut other = result(Operation::Download, 1000, 64, 0.0);
    other.warmup_complete = false;
    let text = csv_report(&vec![result(Operation::Upload, 100, 1, 1367.04), other]);
    let rows = "Upload,100,1,true,120,613.89,620.00,645.63,700.12,1367.04,1400.00,1412.10,1500.50,42.2,42.4,8.0 GiB,512.0 KiB,0.83\nDownload,1000,64,false,120,613.89,620.00,645.63,700.12,0.00,1400.00,1412.10,1500.50,42.2,42.4,8.0 GiB,512.0 KiB,0.83\n";
    assert_eq!(text, format!("{}{}", head, rows));
}

#[test]
fn requests_separated_by_commas() {
    let records = vec![
        ("Upload".to_string(), 10, 1, number(1.0625), number(2.0), true),
        ("a,\"b\"".to_string(), 100, 64, number(0.0), number(1367.0405), false),
        (String::new(), 1, 2, number(0.0005), number(0.0015), true),
    ];
    assert_eq!(
        per_request_csv(&records),
        "Operation,File Size (MiB),Chunk Size (MiB),Latency (ms),Throughput (Mbps),Success\n\
         Upload,10,1,1.062,2.000,true\n\
         \"a,\"\"b\"\"\",100,64,0.000,1367.041,false\n\
         ,1,2,0.001,0.002,true\n"
    );
}

#[test]
fn the_best_is_the_last_of_the_highest() {
    let up = Operation::Upload;
    let results = vec![
        result(up, 10, 1, 5.0),
        result(up, 10, 2, 9.0),
        result(up, 100, 4, 50.0),
        result(up, 10, 8, 9.0),
        result(up, 10, 16, 8.0),
        result(Operation::Download, 10, 32, 70.0),
    ];
    assert_eq!(best_result(&results, up, 10).unwrap().case.chunk_size_mib, 8);
    assert_eq!(best_result(&results, up, 100).unwrap().case.chunk_size_mib, 4);
    assert!(best_result(&results, up, 1000).is_none());
    assert!(best_result(&Vec::new(), up, 10).is_none());
}

const TABLE: &str = "| Chunk (MiB) | Requests | p50 Lat (ms) | p95 Lat (ms) | p99 Lat (ms) | p999 Lat (ms) | p50 Tp (Mbps) | p95 Tp (Mbps) | p99 Tp (Mbps) | p999 Tp (Mbps) | Avg CPU% | Peak CPU% | Avg Mem | Peak Mem | Err% |\n|---:|---:|---:|---:|---:|---:|---:|---:|---:|---:|---:|---:|---:|---:|---:|\n";
const BEST: &str =
    "| File Size (MiB) | Best Chunk (MiB) | p50 Throughput (Mbps) |\n|---:|---:|---:|\n";

#[test]
fn an_empty_summary() {
    assert_eq!(
        markdown_report(&Vec::new(), "2024-01-02 03:04:05"),
        format!("# Upload/Download Streaming Benchmark Report\n\nGenerated: 2024-01-02 03:04:05\n\n---\n\n---\n\n## Best Chunk Size Summary\n\n### Upload\n\n{}\n### Download\n\n{}\n", BEST, BEST)
    );
}

#[test]
fn a_summary_of_groups() {
    let results = vec![
        result(Operation::Download, 1000, 64, 3.0),
        result(Operation::Upload, 100, 1, 1367.04),
        result(Operation::Upload, 100, 2, 1354.75),
        result(Operation::Upload, 77, 2, 9999.0),
    ];
    let row = |chunk: &str, p50: &str| {
        format!("| {} | 120 | 613.89 | 620.00 | 645.63 | 700.12 | {} | 1400.00 | 1412.10 | 1500.50 | 42.2 | 42.4 | 8.0 GiB | 512.0 KiB | 0.83 |\n", chunk, p50)
    };
    assert_eq!(
        markdown_report(&results, "now"),
        format!("# Upload/Download Streaming Benchmark Report\n\nGenerated: now\n\n---\n\n## Upload Report - 100 MiB File\n\n{}{}{}\n## Download Report - 1000 MiB File\n\n{}{}\n---\n\n## Best Chunk Size Summary\n\n### Upload\n\n{}| 100 | 1 | 1367.04 |\n\n### Download\n\n{}| 1000 | 64 | 3.00 |\n\n", TABLE, row("1", "1367.04"), row("2", "1354.75"), TABLE, row("64", "3.00"), BEST, BEST)
    );
}
