use streaming_bench::config::{
    all_cases, BenchmarkCase, Operation, CHUNK_SIZES_MIB, DEFAULT_DURATION_SECS, DEFAULT_RPS,
    DEFAULT_SERVER_ADDR, DEFAULT_WARMUP_MIN_OPS, DEFAULT_WARMUP_SECS, FILE_SIZES_MIB, MIB,
    THEORETICAL_ESTIMATES,
};
use streaming_bench::selection::{CaseFilter, RunSettings};

fn case(operation: Operation, file_size_mib: u64, chunk_size_mib: u64) -> BenchmarkCase {
    BenchmarkCase { operation, file_size_mib, chunk_size_mib }
}

fn any() -> CaseFilter {
    CaseFilter { upload_only: false, download_only: false, file_size: None, chunk_size: None }
}

#[test]
fn the_matrix_runs_over_operations_files_and_chunks() {
    let cases = all_cases();
    assert_eq!(cases.len(), 42);
    let mut i = 0;
    for op in [Operation::Upload, Operation::Download] {
        for f in FILE_SIZES_MIB {
            for c in CHUNK_SIZES_MIB {
                assert_eq!(cases[i], case(op, f, c));
                i += 1;
            }
        }
    }
}

#[test]
fn the_matrix_has_no_case_twice() {
    let cases = all_cases();
    for i in 0..cases.len() {
        for j in 0..i {
            assert_ne!(cases[i], cases[j]);
        }
    }
}

#[test]
fn sizes_and_defaults() {
    assert_eq!(FILE_SIZES_MIB, [10, 100, 1000]);
    assert_eq!(CHUNK_SIZES_MIB, [1, 2, 4, 8, 16, 32, 64]);
    assert_eq!(MIB, 1_048_576);
    assert_eq!(DEFAULT_SERVER_ADDR, "127.0.0.1:8080");
    assert_eq!(DEFAULT_RPS, 10);
    assert_eq!(DEFAULT_DURATION_SECS, 300);
    assert_eq!(DEFAULT_WARMUP_SECS, 120);
    assert_eq!(DEFAULT_WARMUP_MIN_OPS, 200);
    let c = case(Operation::Upload, 1000, 64);
    assert_eq!(c.file_size_bytes(), 1_048_576_000);
    assert_eq!(c.chunk_size_bytes(), 67_108_864);
}

#[test]
fn operations_have_names() {
    assert_eq!(Operation::Upload.to_string(), "Upload");
    assert_eq!(Operation::Download.to_string(), "Download");
    assert_eq!(Operation::Upload.as_str(), "Upload");
}

#[test]
fn the_estimates_begin_and_end_as_shown() {
    assert!(THEORETICAL_ESTIMATES.starts_with(
        "=== Theoretical Throughput Estimates ===\n\n  Pipeline stage upper bounds"
    ));
    assert!(THEORETICAL_ESTIMATES
        .contains("\n  AES-256-GCM (AES-NI):          ~4-8 GB/s      = ~32-64 Gbps\n"));
    assert!(THEORETICAL_ESTIMATES.ends_with("---\n\n"));
    assert_eq!(THEORETICAL_ESTIMATES.lines().count(), 22);
}

#[test]
fn without_a_filter_everything_runs() {
    assert_eq!(any().selected_cases(), all_cases());
}

#[test]
fn filters_by_operation() {
    let up = CaseFilter { upload_only: true, ..any() }.selected_cases();
    assert_eq!(up, all_cases()[..21].to_vec());
    let down = CaseFilter { download_only: true, ..any() }.selected_cases();
    assert_eq!(down, all_cases()[21..].to_vec());
    let both = CaseFilter { upload_only: true, download_only: true, ..any() };
    assert!(both.selected_cases().is_empty());
}

#[test]
fn filters_by_size() {
    let f = CaseFilter {
        upload_only: true,
        download_only: false,
        file_size: Some(100),
        chunk_size: Some(4),
    };
    assert_eq!(f.selected_cases(), vec![case(Operation::Upload, 100, 4)]);
    let f = CaseFilter { chunk_size: Some(64), ..any() };
    assert_eq!(f.selected_cases().len(), 6);
    let f = CaseFilter { file_size: Some(11), ..any() };
    assert!(f.selected_cases().is_empty());
    assert!(!f.is_admitted(&case(Operation::Upload, 10, 1)));
}

#[test]
fn quick_mode_replaces_load_and_times() {
    let s = RunSettings { rps: 10, duration: 300, warmup: 120, warmup_min_ops: 200 };
    assert_eq!(s.with_quick_mode(false), s);
    let q = s.with_quick_mode(true);
    assert_eq!(q, RunSettings { rps: 5, duration: 60, warmup: 30, warmup_min_ops: 200 });
}

#[test]
fn the_interval_is_a_second_shared_out() {
    let s = |rps: u64| RunSettings { rps, duration: 1, warmup: 1, warmup_min_ops: 1 };
    assert_eq!(s(10).interval_ms(), 100);
    assert_eq!(s(3).interval_ms(), 333);
    assert_eq!(s(1001).interval_ms(), 0);
}
