//! The tables of results and of requests, separated by commas.
use vstd::prelude::*;

use crate::binary64;
use crate::comma;
use crate::config::{BenchmarkCase, MIB};
use crate::metrics;
use crate::metrics::BenchmarkResult;
use crate::rounding;
use crate::run;
use crate::run::{Outcome, RequestRecord};
use crate::text;

verus! {

/// `true` or `false`.
pub open spec fn bool_text(b: bool) -> Seq<char> {
    if b {
        "true"@
    } else {
        "false"@
    }
}

fn bool_string(b: bool) -> (s: String)
    ensures
        s@ == bool_text(b),
{
    if b {
        "true".to_owned()
    } else {
        "false".to_owned()
    }
}

/// The head of the table of results.
pub open spec fn result_head() -> Seq<Seq<char>> {
    seq![
        "Operation"@,
        "File Size (MiB)"@,
        "Chunk Size (MiB)"@,
        "Warmup Complete"@,
        "Requests"@,
        "p50 Latency (ms)"@,
        "p95 Latency (ms)"@,
        "p99 Latency (ms)"@,
        "p999 Latency (ms)"@,
        "p50 Throughput (Mbps)"@,
        "p95 Throughput (Mbps)"@,
        "p99 Throughput (Mbps)"@,
        "p999 Throughput (Mbps)"@,
        "Avg CPU %"@,
        "Peak CPU %"@,
        "Avg Mem"@,
        "Peak Mem"@,
        "Error Rate %"@,
    ]
}

/// A row of the table of results.
pub open spec fn result_fields(r: BenchmarkResult) -> Seq<Seq<char>> {
    seq![
        r.case.operation.name(),
        text::decimal(r.case.file_size_mib as nat),
        text::decimal(r.case.chunk_size_mib as nat),
        bool_text(r.warmup_complete),
        text::decimal(r.total_requests as nat),
        text::fixed(r.latency.p50_ms@, 2),
        text::fixed(r.latency.p95_ms@, 2),
        text::fixed(r.latency.p99_ms@, 2),
        text::fixed(r.latency.p999_ms@, 2),
        text::fixed(r.throughput.p50_mbps@, 2),
        text::fixed(r.throughput.p95_mbps@, 2),
        text::fixed(r.throughput.p99_mbps@, 2),
        text::fixed(r.throughput.p999_mbps@, 2),
        text::fixed(r.resources.avg_cpu_percent@, 1),
        text::fixed(r.resources.peak_cpu_percent@, 1),
        metrics::bytes_text(r.resources.avg_mem_bytes),
        metrics::bytes_text(r.resources.peak_mem_bytes),
        text::fixed(r.resources.error_rate_percent@, 2),
    ]
}

fn result_head_strings() -> (v: Vec<String>)
    ensures
        comma::texts(v@) == result_head(),
{
    let v: Vec<String> = vec![
        "Operation".to_owned(),
        "File Size (MiB)".to_owned(),
        "Chunk Size (MiB)".to_owned(),
        "Warmup Complete".to_owned(),
        "Requests".to_owned(),
        "p50 Latency (ms)".to_owned(),
        "p95 Latency (ms)".to_owned(),
        "p99 Latency (ms)".to_owned(),
        "p999 Latency (ms)".to_owned(),
        "p50 Throughput (Mbps)".to_owned(),
        "p95 Throughput (Mbps)".to_owned(),
        "p99 Throughput (Mbps)".to_owned(),
        "p999 Throughput (Mbps)".to_owned(),
        "Avg CPU %".to_owned(),
        "Peak CPU %".to_owned(),
        "Avg Mem".to_owned(),
        "Peak Mem".to_owned(),
        "Error Rate %".to_owned(),
    ];
    assert(comma::texts(v@) =~= result_head());
    v
}

fn result_strings(r: &BenchmarkResult) -> (v: Vec<String>)
    ensures
        comma::texts(v@) == result_fields(*r),
{
    let v: Vec<String> = vec![
        r.case.operation.to_string(),
        text::decimal_string(r.case.file_size_mib),
        text::decimal_string(r.case.chunk_size_mib),
        bool_string(r.warmup_complete),
        text::decimal_string(r.total_requests),
        text::fixed_string(&r.latency.p50_ms, 2),
        text::fixed_string(&r.latency.p95_ms, 2),
        text::fixed_string(&r.latency.p99_ms, 2),
        text::fixed_string(&r.latency.p999_ms, 2),
        text::fixed_string(&r.throughput.p50_mbps, 2),
        text::fixed_string(&r.throughput.p95_mbps, 2),
        text::fixed_string(&r.throughput.p99_mbps, 2),
        text::fixed_string(&r.throughput.p999_mbps, 2),
        text::fixed_string(&r.resources.avg_cpu_percent, 1),
        text::fixed_string(&r.resources.peak_cpu_percent, 1),
        metrics::format_bytes(r.resources.avg_mem_bytes),
        metrics::format_bytes(r.resources.peak_mem_bytes),
        text::fixed_string(&r.resources.error_rate_percent, 2),
    ];
    assert(comma::texts(v@) =~= result_fields(*r));
    v
}

/// The table of results: the head, and a row for each result.
pub open spec fn result_table(results: Seq<BenchmarkResult>) -> Seq<char> {
    comma::line(result_head()) + comma::lines(
        results.map_values(|r: BenchmarkResult| result_fields(r)),
    )
}

/// The results, separated by commas.
pub fn csv_report(results: &Vec<BenchmarkResult>) -> (s: String)
    ensures
        s@ == result_table(results@),
{
    let head: Vec<String> = result_head_strings();
    let mut s: String = comma::record_line(&head);
    let ghost rows = results@.map_values(|r: BenchmarkResult| result_fields(r));
    let mut i: usize = 0;
    assert(s@ + comma::lines(rows.take(0)) =~= s@);
    while i < results.len()
        invariant
            i <= results@.len(),
            rows == results@.map_values(|r: BenchmarkResult| result_fields(r)),
            s@ == comma::line(result_head()) + comma::lines(rows.take(i as int)),
        decreases results@.len() - i,
    {
        let fields: Vec<String> = result_strings(&results[i]);
        let row: String = comma::record_line(&fields);
        s.append(row.as_str());
        proof {
            assert(rows.take(i + 1).drop_last() =~= rows.take(i as int));
            assert(s@ =~= comma::line(result_head()) + comma::lines(rows.take(i + 1)));
        }
        i = i + 1;
    }
    assert(rows.take(i as int) =~= rows);
    s
}

/// The head of the table of requests.
pub open spec fn request_head() -> Seq<Seq<char>> {
    seq![
        "Operation"@,
        "File Size (MiB)"@,
        "Chunk Size (MiB)"@,
        "Latency (ms)"@,
        "Throughput (Mbps)"@,
        "Success"@,
    ]
}

/// A row of the table of requests.
pub open spec fn request_fields(r: RequestRecord) -> Seq<Seq<char>> {
    seq![
        r.0@,
        text::decimal(r.1 as nat),
        text::decimal(r.2 as nat),
        text::fixed(r.3@, 3),
        text::fixed(r.4@, 3),
        bool_text(r.5),
    ]
}

/// The table of requests: the head, and a row for each request.
pub open spec fn request_table(requests: Seq<RequestRecord>) -> Seq<char> {
    comma::line(request_head()) + comma::lines(
        requests.map_values(|r: RequestRecord| request_fields(r)),
    )
}

fn request_strings(r: &RequestRecord) -> (v: Vec<String>)
    ensures
        comma::texts(v@) == request_fields(*r),
{
    let v: Vec<String> = vec![
        r.0.as_str().to_owned(),
        text::decimal_string(r.1),
        text::decimal_string(r.2),
        text::fixed_string(&r.3, 3),
        text::fixed_string(&r.4, 3),
        bool_string(r.5),
    ];
    assert(comma::texts(v@) =~= request_fields(*r));
    v
}

/// The requests, separated by commas.
pub fn per_request_csv(requests: &Vec<RequestRecord>) -> (s: String)
    ensures
        s@ == request_table(requests@),
{
    let head: Vec<String> = vec![
        "Operation".to_owned(),
        "File Size (MiB)".to_owned(),
        "Chunk Size (MiB)".to_owned(),
        "Latency (ms)".to_owned(),
        "Throughput (Mbps)".to_owned(),
        "Success".to_owned(),
    ];
    assert(comma::texts(head@) =~= request_head());
    let mut s: String = comma::record_line(&head);
    let ghost rows = requests@.map_values(|r: RequestRecord| request_fields(r));
    let mut i: usize = 0;
    assert(s@ + comma::lines(rows.take(0)) =~= s@);
    while i < requests.len()
        invariant
            i <= requests@.len(),
            rows == requests@.map_values(|r: RequestRecord| request_fields(r)),
            s@ == comma::line(request_head()) + comma::lines(rows.take(i as int)),
        decreases requests@.len() - i,
    {
        let fields: Vec<String> = request_strings(&requests[i]);
        let row: String = comma::record_line(&fields);
        s.append(row.as_str());
        proof {
            assert(rows.take(i + 1).drop_last() =~= rows.take(i as int));
            assert(s@ =~= comma::line(request_head()) + comma::lines(rows.take(i + 1)));
        }
        i = i + 1;
    }
    assert(rows.take(i as int) =~= rows);
    s
}

/// The character stands for itself in a field.
spec fn tame(c: char) -> bool {
    c != ',' && c != '"' && c != '\n' && c != '\r'
}

spec fn all_tame(s: Seq<char>) -> bool {
    forall|i: int| 0 <= i < s.len() ==> tame(#[trigger] s[i])
}

proof fn lemma_decimal_tame(n: nat)
    ensures
        all_tame(text::decimal(n)),
    decreases n,
{
    if n >= 10 {
        lemma_decimal_tame(n / 10);
    }
}

proof fn lemma_padded_tame(n: nat, width: nat)
    ensures
        all_tame(text::padded(n, width)),
    decreases width,
{
    if width > 0 {
        lemma_padded_tame(n / 10, (width - 1) as nat);
    }
}

proof fn lemma_fixed_tame(v: (nat, int), places: nat)
    ensures
        all_tame(text::fixed(v, places)),
{
    let unit = text::pow10(places);
    let scaled = rounding::half_even(binary64::num(v) * unit, binary64::den(v));
    lemma_decimal_tame(scaled / unit);
    lemma_padded_tame(scaled % unit, places);
}

proof fn lemma_bytes_tame(bytes: u64)
    ensures
        all_tame(metrics::bytes_text(bytes)),
{
    reveal_strlit(" GiB");
    reveal_strlit(" MiB");
    reveal_strlit(" KiB");
    reveal_strlit(" B");
    lemma_decimal_tame(bytes as nat);
    let x = binary64::double(bytes as nat, 1);
    lemma_fixed_tame(binary64::quotient(x, binary64::double((1024 * MIB) as nat, 1)), 1);
    lemma_fixed_tame(binary64::quotient(x, binary64::double(MIB as nat, 1)), 1);
    lemma_fixed_tame(binary64::quotient(x, binary64::double(1024, 1)), 1);
}

/// No field of the table of results is ever quoted: a program may cut its lines at the commas.
pub proof fn lemma_results_unquoted(r: BenchmarkResult)
    ensures
        forall|i: int|
            0 <= i < result_fields(r).len() ==> comma::field(#[trigger] result_fields(r)[i])
                == result_fields(r)[i],
{
    reveal_strlit("Upload");
    reveal_strlit("Download");
    reveal_strlit("true");
    reveal_strlit("false");
    lemma_decimal_tame(r.case.file_size_mib as nat);
    lemma_decimal_tame(r.case.chunk_size_mib as nat);
    lemma_decimal_tame(r.total_requests as nat);
    lemma_fixed_tame(r.latency.p50_ms@, 2);
    lemma_fixed_tame(r.latency.p95_ms@, 2);
    lemma_fixed_tame(r.latency.p99_ms@, 2);
    lemma_fixed_tame(r.latency.p999_ms@, 2);
    lemma_fixed_tame(r.throughput.p50_mbps@, 2);
    lemma_fixed_tame(r.throughput.p95_mbps@, 2);
    lemma_fixed_tame(r.throughput.p99_mbps@, 2);
    lemma_fixed_tame(r.throughput.p999_mbps@, 2);
    lemma_fixed_tame(r.resources.avg_cpu_percent@, 1);
    lemma_fixed_tame(r.resources.peak_cpu_percent@, 1);
    lemma_bytes_tame(r.resources.avg_mem_bytes);
    lemma_bytes_tame(r.resources.peak_mem_bytes);
    lemma_fixed_tame(r.resources.error_rate_percent@, 2);
    let fields = result_fields(r);
    assert(forall|i: int| 0 <= i < fields.len() ==> all_tame(#[trigger] fields[i]));
    assert forall|i: int| 0 <= i < fields.len() implies comma::field(#[trigger] fields[i])
        == fields[i] by {
        lemma_tame_unquoted(fields[i]);
    }
}

/// No field of the table of requests is ever quoted, where the records are those of a run.
pub proof fn lemma_requests_unquoted(r: RequestRecord, case: BenchmarkCase, outcome: Outcome)
    requires
        run::records(r, case, outcome),
    ensures
        forall|i: int|
            0 <= i < request_fields(r).len() ==> comma::field(#[trigger] request_fields(r)[i])
                == request_fields(r)[i],
{
    reveal_strlit("Upload");
    reveal_strlit("Download");
    reveal_strlit("true");
    reveal_strlit("false");
    lemma_decimal_tame(r.1 as nat);
    lemma_decimal_tame(r.2 as nat);
    lemma_fixed_tame(r.3@, 3);
    lemma_fixed_tame(r.4@, 3);
    let fields = request_fields(r);
    assert(forall|i: int| 0 <= i < fields.len() ==> all_tame(#[trigger] fields[i]));
    assert forall|i: int| 0 <= i < fields.len() implies comma::field(#[trigger] fields[i])
        == fields[i] by {
        lemma_tame_unquoted(fields[i]);
    }
}

proof fn lemma_tame_unquoted(s: Seq<char>)
    requires
        all_tame(s),
    ensures
        comma::field(s) == s,
{
    if comma::needs_quotes(s) {
        let i = choose|i: int| 0 <= i < s.len() && !tame(s[i]);
        assert(tame(s[i]));
    }
}

} // verus!
