//! The summary of a benchmark in Markdown.
use vstd::prelude::*;

use crate::binary64;
use crate::binary64::Binary64;
use crate::config::{Operation, FILE_SIZES_MIB};
use crate::metrics;
use crate::metrics::BenchmarkResult;
use crate::order;
use crate::text;

verus! {

/// The result belongs to the operation and the file size.
pub open spec fn belongs(r: BenchmarkResult, op: Operation, file_size: u64) -> bool {
    r.case.operation == op && r.case.file_size_mib == file_size
}

/// The results that belong to the operation and the file size.
pub open spec fn group(
    results: Seq<BenchmarkResult>,
    op: Operation,
    file_size: u64,
) -> Seq<BenchmarkResult> {
    results.filter(|r: BenchmarkResult| belongs(r, op, file_size))
}

/// A row of the table of a group.
#[verifier::opaque]
pub open spec fn row(r: BenchmarkResult) -> Seq<char> {
    "| "@ + text::decimal(r.case.chunk_size_mib as nat) + " | "@ + text::decimal(
        r.total_requests as nat,
    ) + " | "@ + text::fixed(r.latency.p50_ms@, 2) + " | "@ + text::fixed(r.latency.p95_ms@, 2)
        + " | "@ + text::fixed(r.latency.p99_ms@, 2) + " | "@ + text::fixed(r.latency.p999_ms@, 2)
        + " | "@ + text::fixed(r.throughput.p50_mbps@, 2) + " | "@ + text::fixed(
        r.throughput.p95_mbps@,
        2,
    ) + " | "@ + text::fixed(r.throughput.p99_mbps@, 2) + " | "@ + text::fixed(
        r.throughput.p999_mbps@,
        2,
    ) + " | "@ + text::fixed(r.resources.avg_cpu_percent@, 1) + " | "@ + text::fixed(
        r.resources.peak_cpu_percent@,
        1,
    ) + " | "@ + metrics::bytes_text(r.resources.avg_mem_bytes) + " | "@ + metrics::bytes_text(
        r.resources.peak_mem_bytes,
    ) + " | "@ + text::fixed(r.resources.error_rate_percent@, 2) + " |\n"@
}

/// The rows of the table of a group.
pub open spec fn rows(results: Seq<BenchmarkResult>) -> Seq<char>
    decreases results.len(),
{
    if results.len() == 0 {
        seq![]
    } else {
        rows(results.drop_last()) + row(results.last())
    }
}

/// The heading of the section of a group, and the head of its table.
pub open spec fn section_head(op: Operation, file_size: u64) -> Seq<char> {
    "## "@ + op.name() + " Report - "@ + text::decimal(file_size as nat) + " MiB File\n\n"@
        + "| Chunk (MiB) | Requests | p50 Lat (ms) | p95 Lat (ms) | p99 Lat (ms) | p999 Lat (ms) | p50 Tp (Mbps) | p95 Tp (Mbps) | p99 Tp (Mbps) | p999 Tp (Mbps) | Avg CPU% | Peak CPU% | Avg Mem | Peak Mem | Err% |\n"@
        + "|---:|---:|---:|---:|---:|---:|---:|---:|---:|---:|---:|---:|---:|---:|---:|\n"@
}

/// The section of a group; nothing for a group without results.
pub open spec fn section(
    results: Seq<BenchmarkResult>,
    op: Operation,
    file_size: u64,
) -> Seq<char> {
    if group(results, op, file_size).len() == 0 {
        seq![]
    } else {
        section_head(op, file_size) + rows(group(results, op, file_size)) + "\n"@
    }
}

/// The sections of an operation for the first `k` file sizes.
pub open spec fn sections(results: Seq<BenchmarkResult>, op: Operation, k: nat) -> Seq<char>
    decreases k,
{
    if k == 0 {
        seq![]
    } else {
        sections(results, op, (k - 1) as nat) + section(results, op, FILE_SIZES_MIB@[k - 1])
    }
}

/// The result with the highest median throughput; the last of them, where several have it.
pub open spec fn best(results: Seq<BenchmarkResult>) -> BenchmarkResult
    recommends
        results.len() > 0,
    decreases results.len(),
{
    if results.len() <= 1 {
        results[0]
    } else {
        let before = best(results.drop_last());
        if binary64::at_most(before.throughput.p50_mbps@, results.last().throughput.p50_mbps@) {
            results.last()
        } else {
            before
        }
    }
}

/// The line on the best result of a group; nothing for a group without results.
pub open spec fn best_row(
    results: Seq<BenchmarkResult>,
    op: Operation,
    file_size: u64,
) -> Seq<char> {
    let members = group(results, op, file_size);
    if members.len() == 0 {
        seq![]
    } else {
        "| "@ + text::decimal(file_size as nat) + " | "@ + text::decimal(
            best(members).case.chunk_size_mib as nat,
        ) + " | "@ + text::fixed(best(members).throughput.p50_mbps@, 2) + " |\n"@
    }
}

/// The lines on the best results of an operation for the first `k` file sizes.
pub open spec fn best_rows(results: Seq<BenchmarkResult>, op: Operation, k: nat) -> Seq<char>
    decreases k,
{
    if k == 0 {
        seq![]
    } else {
        best_rows(results, op, (k - 1) as nat) + best_row(results, op, FILE_SIZES_MIB@[k - 1])
    }
}

/// The heading of an operation in the summary, and the head of its table.
pub open spec fn summary_head(op: Operation) -> Seq<char> {
    "### "@ + op.name() + "\n\n| File Size (MiB) | Best Chunk (MiB) | p50 Throughput (Mbps) |\n"@
        + "|---:|---:|---:|\n"@
}

/// The summary of an operation.
pub open spec fn summary(results: Seq<BenchmarkResult>, op: Operation) -> Seq<char> {
    summary_head(op) + best_rows(results, op, 3) + "\n"@
}

/// The whole document.
pub open spec fn document(results: Seq<BenchmarkResult>, generated: Seq<char>) -> Seq<char> {
    "# Upload/Download Streaming Benchmark Report\n\nGenerated: "@ + generated + "\n\n---\n\n"@
        + sections(results, Operation::Upload, 3) + sections(results, Operation::Download, 3)
        + "---\n\n## Best Chunk Size Summary\n\n"@ + summary(results, Operation::Upload) + summary(
        results,
        Operation::Download,
    )
}

fn push_cell(out: &mut String, x: &Binary64, places: u32)
    requires
        1 <= places <= 3,
    ensures
        final(out)@ == old(out)@ + text::fixed(x@, places as nat) + " | "@,
{
    text::push_fixed(out, x, places);
    out.append(" | ");
}

/// A row of the table of a group.
fn row_string(r: &BenchmarkResult) -> (s: String)
    ensures
        s@ == row(*r),
{
    proof {
        reveal(row);
    }
    let mut s: String = "| ".to_owned();
    text::push_decimal(&mut s, r.case.chunk_size_mib);
    s.append(" | ");
    text::push_decimal(&mut s, r.total_requests);
    s.append(" | ");
    push_cell(&mut s, &r.latency.p50_ms, 2);
    push_cell(&mut s, &r.latency.p95_ms, 2);
    push_cell(&mut s, &r.latency.p99_ms, 2);
    push_cell(&mut s, &r.latency.p999_ms, 2);
    push_cell(&mut s, &r.throughput.p50_mbps, 2);
    push_cell(&mut s, &r.throughput.p95_mbps, 2);
    push_cell(&mut s, &r.throughput.p99_mbps, 2);
    push_cell(&mut s, &r.throughput.p999_mbps, 2);
    push_cell(&mut s, &r.resources.avg_cpu_percent, 1);
    push_cell(&mut s, &r.resources.peak_cpu_percent, 1);
    s.append(metrics::format_bytes(r.resources.avg_mem_bytes).as_str());
    s.append(" | ");
    s.append(metrics::format_bytes(r.resources.peak_mem_bytes).as_str());
    s.append(" | ");
    text::push_fixed(&mut s, &r.resources.error_rate_percent, 2);
    s.append(" |\n");
    s
}

/// The heading of the section of a group, and the head of its table.
fn section_head_string(op: Operation, file_size: u64) -> (s: String)
    ensures
        s@ == section_head(op, file_size),
{
    let mut s: String = "## ".to_owned();
    s.append(op.as_str());
    s.append(" Report - ");
    text::push_decimal(&mut s, file_size);
    s.append(" MiB File\n\n");
    s.append(
        "| Chunk (MiB) | Requests | p50 Lat (ms) | p95 Lat (ms) | p99 Lat (ms) | p999 Lat (ms) | p50 Tp (Mbps) | p95 Tp (Mbps) | p99 Tp (Mbps) | p999 Tp (Mbps) | Avg CPU% | Peak CPU% | Avg Mem | Peak Mem | Err% |\n",
    );
    s.append("|---:|---:|---:|---:|---:|---:|---:|---:|---:|---:|---:|---:|---:|---:|---:|\n");
    s
}

fn is_member(r: &BenchmarkResult, op: Operation, file_size: u64) -> (b: bool)
    ensures
        b == belongs(*r, op, file_size),
{
    r.case.operation == op && r.case.file_size_mib == file_size
}

/// One more result in front of a group, or not.
proof fn lemma_group_step(results: Seq<BenchmarkResult>, i: int, op: Operation, file_size: u64)
    requires
        0 <= i < results.len(),
    ensures
        group(results.take(i + 1), op, file_size) == (if belongs(results[i], op, file_size) {
            group(results.take(i), op, file_size).push(results[i])
        } else {
            group(results.take(i), op, file_size)
        }),
{
    reveal(Seq::filter);
    assert(results.take(i + 1).drop_last() =~= results.take(i));
    assert(results.take(i + 1).last() == results[i]);
}

proof fn lemma_group_empty(op: Operation, file_size: u64)
    ensures
        group(seq![], op, file_size).len() == 0,
{
    reveal(Seq::filter);
}

/// Appends the section of a group.
#[verifier::rlimit(40)]
fn push_section(out: &mut String, results: &Vec<BenchmarkResult>, op: Operation, file_size: u64)
    ensures
        final(out)@ == old(out)@ + section(results@, op, file_size),
{
    let mut s: String = section_head_string(op, file_size);
    let mut empty: bool = true;
    let mut i: usize = 0;
    proof {
        lemma_group_empty(op, file_size);
        assert(results@.take(0) =~= seq![]);
        assert(s@ + seq![] =~= s@);
    }
    while i < results.len()
        invariant
            i <= results@.len(),
            s@ == section_head(op, file_size) + rows(
                group(results@.take(i as int), op, file_size),
            ),
            empty == (group(results@.take(i as int), op, file_size).len() == 0),
        decreases results@.len() - i,
    {
        proof {
            lemma_group_step(results@, i as int, op, file_size);
        }
        if is_member(&results[i], op, file_size) {
            let ghost members = group(results@.take(i as int), op, file_size);
            let ghost before = s@;
            s.append(row_string(&results[i]).as_str());
            empty = false;
            proof {
                assert(members.push(results@[i as int]).drop_last() =~= members);
                assert(before + row(results@[i as int]) =~= section_head(op, file_size) + (rows(
                    members,
                ) + row(results@[i as int])));
            }
        }
        i = i + 1;
    }
    assert(results@.take(i as int) =~= results@);
    if !empty {
        s.append("\n");
        out.append(s.as_str());
    } else {
        assert(out@ + seq![] =~= out@);
    }
}

/// The result with the highest median throughput of a group; the last of them, where several have
/// it; none for a group without results.
pub fn best_result(results: &Vec<BenchmarkResult>, op: Operation, file_size: u64) -> (r: Option<
    BenchmarkResult,
>)
    ensures
        r is Some <==> group(results@, op, file_size).len() > 0,
        r matches Some(b) ==> b == best(group(results@, op, file_size)),
{
    let mut found: Option<BenchmarkResult> = None;
    let mut i: usize = 0;
    proof {
        lemma_group_empty(op, file_size);
        assert(results@.take(0) =~= seq![]);
    }
    while i < results.len()
        invariant
            i <= results@.len(),
            found is Some <==> group(results@.take(i as int), op, file_size).len() > 0,
            found matches Some(b) ==> b == best(group(results@.take(i as int), op, file_size)),
        decreases results@.len() - i,
    {
        proof {
            lemma_group_step(results@, i as int, op, file_size);
            let members = group(results@.take(i as int), op, file_size);
            assert(members.push(results@[i as int]).drop_last() =~= members);
        }
        if is_member(&results[i], op, file_size) {
            let r: BenchmarkResult = results[i];
            found = match found {
                None => Some(r),
                Some(b) => if b.throughput.p50_mbps.is_at_most(&r.throughput.p50_mbps) {
                    Some(r)
                } else {
                    Some(b)
                },
            };
        }
        i = i + 1;
    }
    assert(results@.take(i as int) =~= results@);
    found
}

/// Appends the line on the best result of a group.
fn push_best_row(out: &mut String, results: &Vec<BenchmarkResult>, op: Operation, file_size: u64)
    ensures
        final(out)@ == old(out)@ + best_row(results@, op, file_size),
{
    match best_result(results, op, file_size) {
        Some(b) => {
            let mut s: String = "| ".to_owned();
            text::push_decimal(&mut s, file_size);
            s.append(" | ");
            text::push_decimal(&mut s, b.case.chunk_size_mib);
            s.append(" | ");
            text::push_fixed(&mut s, &b.throughput.p50_mbps, 2);
            s.append(" |\n");
            out.append(s.as_str());
        },
        None => {
            assert(out@ + seq![] =~= out@);
        },
    }
}

/// The sections of an operation.
fn sections_string(results: &Vec<BenchmarkResult>, op: Operation) -> (s: String)
    ensures
        s@ == sections(results@, op, 3),
{
    let mut s: String = String::new();
    let mut k: usize = 0;
    assert(s@ =~= seq![]);
    while k < 3
        invariant
            k <= 3,
            s@ == sections(results@, op, k as nat),
        decreases 3 - k,
    {
        push_section(&mut s, results, op, FILE_SIZES_MIB[k]);
        k = k + 1;
    }
    s
}

/// The summary of an operation.
fn summary_string(results: &Vec<BenchmarkResult>, op: Operation) -> (s: String)
    ensures
        s@ == summary(results@, op),
{
    let mut s: String = "### ".to_owned();
    s.append(op.as_str());
    s.append("\n\n| File Size (MiB) | Best Chunk (MiB) | p50 Throughput (Mbps) |\n");
    s.append("|---:|---:|---:|\n");
    let mut lines: String = String::new();
    let mut k: usize = 0;
    assert(lines@ =~= seq![]);
    while k < 3
        invariant
            k <= 3,
            lines@ == best_rows(results@, op, k as nat),
        decreases 3 - k,
    {
        push_best_row(&mut lines, results, op, FILE_SIZES_MIB[k]);
        k = k + 1;
    }
    s.append(lines.as_str());
    s.append("\n");
    s
}

/// The whole document, with the time at which it is made.
pub fn markdown_report(results: &Vec<BenchmarkResult>, generated: &str) -> (s: String)
    ensures
        s@ == document(results@, generated@),
{
    let mut s: String = "# Upload/Download Streaming Benchmark Report\n\nGenerated: ".to_owned();
    s.append(generated);
    s.append("\n\n---\n\n");
    s.append(sections_string(results, Operation::Upload).as_str());
    s.append(sections_string(results, Operation::Download).as_str());
    s.append("---\n\n## Best Chunk Size Summary\n\n");
    s.append(summary_string(results, Operation::Upload).as_str());
    s.append(summary_string(results, Operation::Download).as_str());
    s
}

/// The best result is one of the results; none before it has a higher median throughput, and all
/// after it have a lower one.
pub proof fn lemma_best(results: Seq<BenchmarkResult>) -> (i: int)
    requires
        results.len() > 0,
    ensures
        0 <= i < results.len(),
        best(results) == results[i],
        forall|j: int|
            0 <= j < i ==> binary64::at_most(
                (#[trigger] results[j]).throughput.p50_mbps@,
                results[i].throughput.p50_mbps@,
            ),
        forall|j: int|
            i < j < results.len() ==> !binary64::at_most(
                results[i].throughput.p50_mbps@,
                (#[trigger] results[j]).throughput.p50_mbps@,
            ),
    decreases results.len(),
{
    if results.len() == 1 {
        0
    } else {
        let earlier = results.drop_last();
        let k = lemma_best(earlier);
        let last = results.len() - 1;
        let top = results[last].throughput.p50_mbps@;
        let before = earlier[k].throughput.p50_mbps@;
        if binary64::at_most(before, top) {
            assert forall|j: int| 0 <= j < last implies binary64::at_most(
                (#[trigger] results[j]).throughput.p50_mbps@,
                top,
            ) by {
                assert(earlier[j] == results[j]);
                order::lemma_at_most(earlier[j].throughput.p50_mbps@, before, top);
                order::lemma_at_most(
                    before,
                    earlier[j].throughput.p50_mbps@,
                    earlier[j].throughput.p50_mbps@,
                );
            }
            last
        } else {
            assert forall|j: int| 0 <= j < k implies binary64::at_most(
                (#[trigger] results[j]).throughput.p50_mbps@,
                before,
            ) by {
                assert(earlier[j] == results[j]);
            }
            assert forall|j: int| k < j < results.len() implies !binary64::at_most(
                before,
                (#[trigger] results[j]).throughput.p50_mbps@,
            ) by {
                if j < last {
                    assert(earlier[j] == results[j]);
                }
            }
            k
        }
    }
}

} // verus!
