//! What a reader finds in the reports: every result in its place, and the best of each group.
use vstd::prelude::*;

use crate::comma;
use crate::config::{BenchmarkCase, Operation};
use crate::markdown;
use crate::metrics;
use crate::metrics::BenchmarkResult;
use crate::reading;
use crate::report;
use crate::run::RequestRecord;
use crate::text;
use crate::worth;

verus! {

/// The texts of a row of the table of results are what the result says, column by column.
pub open spec fn tells_result(f: Seq<Seq<char>>, r: BenchmarkResult) -> bool {
    &&& f.len() == 18
    &&& f[0] == (match r.case.operation {
        Operation::Upload => "Upload"@,
        Operation::Download => "Download"@,
    })
    &&& reading::says(f[1], r.case.file_size_mib as nat)
    &&& reading::says(f[2], r.case.chunk_size_mib as nat)
    &&& r.warmup_complete ==> f[3] == "true"@
    &&& !r.warmup_complete ==> f[3] == "false"@
    &&& reading::says(f[4], r.total_requests as nat)
    &&& reading::shows(f[5], worth::worth(r.latency.p50_ms@), 2)
    &&& reading::shows(f[6], worth::worth(r.latency.p95_ms@), 2)
    &&& reading::shows(f[7], worth::worth(r.latency.p99_ms@), 2)
    &&& reading::shows(f[8], worth::worth(r.latency.p999_ms@), 2)
    &&& reading::shows(f[9], worth::worth(r.throughput.p50_mbps@), 2)
    &&& reading::shows(f[10], worth::worth(r.throughput.p95_mbps@), 2)
    &&& reading::shows(f[11], worth::worth(r.throughput.p99_mbps@), 2)
    &&& reading::shows(f[12], worth::worth(r.throughput.p999_mbps@), 2)
    &&& reading::shows(f[13], worth::worth(r.resources.avg_cpu_percent@), 1)
    &&& reading::shows(f[14], worth::worth(r.resources.peak_cpu_percent@), 1)
    &&& f[15] == metrics::bytes_text(r.resources.avg_mem_bytes)
    &&& f[16] == metrics::bytes_text(r.resources.peak_mem_bytes)
    &&& reading::shows(f[17], worth::worth(r.resources.error_rate_percent@), 2)
}

/// The texts of a row of the table of requests are what the record says, column by column.
pub open spec fn tells_request(f: Seq<Seq<char>>, r: RequestRecord) -> bool {
    &&& f.len() == 6
    &&& f[0] == r.0@
    &&& reading::says(f[1], r.1 as nat)
    &&& reading::says(f[2], r.2 as nat)
    &&& reading::shows(f[3], worth::worth(r.3@), 3)
    &&& reading::shows(f[4], worth::worth(r.4@), 3)
    &&& r.5 ==> f[5] == "true"@
    &&& !r.5 ==> f[5] == "false"@
}

/// One more result is one more line of the table, which tells the result, and leaves the lines
/// before it as they were; without results the table is its head.
pub proof fn lemma_result_table(results: Seq<BenchmarkResult>, r: BenchmarkResult) -> (fields: Seq<
    Seq<char>,
>)
    ensures
        report::result_table(results.push(r)) == report::result_table(results) + comma::line(
            fields,
        ),
        tells_result(fields, r),
        report::result_table(Seq::empty()) == comma::line(report::result_head()),
        report::result_head().len() == 18,
{
    let of = |r: BenchmarkResult| report::result_fields(r);
    let before = results.map_values(of);
    let after = results.push(r).map_values(of);
    let fields = report::result_fields(r);
    assert(after =~= before.push(fields));
    assert(before.push(fields).drop_last() =~= before);
    let head = comma::line(report::result_head());
    assert(head + (comma::lines(before) + comma::line(fields)) =~= head + comma::lines(before)
        + comma::line(fields));
    assert(Seq::<BenchmarkResult>::empty().map_values(of) =~= seq![]);
    assert(head + Seq::<char>::empty() =~= head);
    reading::lemma_decimal_says(r.case.file_size_mib as nat);
    reading::lemma_decimal_says(r.case.chunk_size_mib as nat);
    reading::lemma_decimal_says(r.total_requests as nat);
    reading::lemma_fixed_shows(r.latency.p50_ms@, 2);
    reading::lemma_fixed_shows(r.latency.p95_ms@, 2);
    reading::lemma_fixed_shows(r.latency.p99_ms@, 2);
    reading::lemma_fixed_shows(r.latency.p999_ms@, 2);
    reading::lemma_fixed_shows(r.throughput.p50_mbps@, 2);
    reading::lemma_fixed_shows(r.throughput.p95_mbps@, 2);
    reading::lemma_fixed_shows(r.throughput.p99_mbps@, 2);
    reading::lemma_fixed_shows(r.throughput.p999_mbps@, 2);
    reading::lemma_fixed_shows(r.resources.avg_cpu_percent@, 1);
    reading::lemma_fixed_shows(r.resources.peak_cpu_percent@, 1);
    reading::lemma_fixed_shows(r.resources.error_rate_percent@, 2);
    fields
}

/// One more request is one more line of the table, which tells the request, and leaves the lines
/// before it as they were; without requests the table is its head.
pub proof fn lemma_request_table(requests: Seq<RequestRecord>, r: RequestRecord) -> (fields: Seq<
    Seq<char>,
>)
    ensures
        report::request_table(requests.push(r)) == report::request_table(requests) + comma::line(
            fields,
        ),
        tells_request(fields, r),
        report::request_table(Seq::empty()) == comma::line(report::request_head()),
        report::request_head().len() == 6,
{
    let of = |r: RequestRecord| report::request_fields(r);
    let before = requests.map_values(of);
    let after = requests.push(r).map_values(of);
    let fields = report::request_fields(r);
    assert(after =~= before.push(fields));
    assert(before.push(fields).drop_last() =~= before);
    let head = comma::line(report::request_head());
    assert(head + (comma::lines(before) + comma::line(fields)) =~= head + comma::lines(before)
        + comma::line(fields));
    assert(Seq::<RequestRecord>::empty().map_values(of) =~= seq![]);
    assert(head + Seq::<char>::empty() =~= head);
    reading::lemma_decimal_says(r.1 as nat);
    reading::lemma_decimal_says(r.2 as nat);
    reading::lemma_fixed_shows(r.3@, 3);
    reading::lemma_fixed_shows(r.4@, 3);
    fields
}

/// The result is of the operation and the file size.
pub open spec fn is_of(r: BenchmarkResult, op: Operation, file_size: u64) -> bool {
    r.case.operation == op && r.case.file_size_mib == file_size
}

/// The median throughput of a result.
pub open spec fn median(r: BenchmarkResult) -> real {
    worth::worth(r.throughput.p50_mbps@)
}

/// The `i`-th result is the best of its operation and file size: none of them has a higher median
/// throughput, and none after it as high a one.
pub open spec fn is_best(
    results: Seq<BenchmarkResult>,
    op: Operation,
    file_size: u64,
    i: int,
) -> bool {
    &&& 0 <= i < results.len()
    &&& is_of(results[i], op, file_size)
    &&& forall|j: int|
        0 <= j < results.len() && is_of(#[trigger] results[j], op, file_size) ==> median(results[j])
            <= median(results[i])
    &&& forall|j: int|
        i < j < results.len() && is_of(#[trigger] results[j], op, file_size) ==> median(results[j])
            < median(results[i])
}

/// The text is the line of the summary on a result.
pub open spec fn tells_best(s: Seq<char>, file_size: u64, r: BenchmarkResult) -> bool {
    exists|a: Seq<char>, b: Seq<char>, c: Seq<char>|
        s == "| "@ + a + " | "@ + b + " | "@ + c + " |\n"@ && #[trigger] reading::says(
            a,
            file_size as nat,
        ) && #[trigger] reading::says(b, r.case.chunk_size_mib as nat)
            && #[trigger] reading::shows(c, median(r), 2)
}

/// The text is what the summary says of an operation and a file size: the best of the results, or
/// nothing if there are none.
#[verifier::opaque]
pub open spec fn is_best_line(
    s: Seq<char>,
    results: Seq<BenchmarkResult>,
    op: Operation,
    file_size: u64,
) -> bool {
    if exists|i: int| 0 <= i < results.len() && is_of(#[trigger] results[i], op, file_size) {
        exists|i: int| #[trigger]
            is_best(results, op, file_size, i) && tells_best(s, file_size, results[i])
    } else {
        s.len() == 0
    }
}

/// The places of a group: all of them, in order.
pub open spec fn are_places(
    places: Seq<int>,
    results: Seq<BenchmarkResult>,
    op: Operation,
    file_size: u64,
) -> bool {
    &&& forall|k: int|
        0 <= k < places.len() ==> 0 <= #[trigger] places[k] < results.len() && is_of(
            results[places[k]],
            op,
            file_size,
        )
    &&& forall|k: int, l: int| 0 <= k < l < places.len() ==> #[trigger] places[k] < #[trigger] places[l]
    &&& forall|i: int|
        0 <= i < results.len() && is_of(#[trigger] results[i], op, file_size) ==> places.contains(i)
}

/// Where the members of a group come from.
proof fn lemma_places(results: Seq<BenchmarkResult>, op: Operation, file_size: u64) -> (places: Seq<
    int,
>)
    ensures
        are_places(places, results, op, file_size),
        places.len() == markdown::group(results, op, file_size).len(),
        forall|k: int|
            0 <= k < places.len() ==> markdown::group(results, op, file_size)[k]
                == results[#[trigger] places[k]],
    decreases results.len(),
{
    reveal(Seq::filter);
    if results.len() == 0 {
        seq![]
    } else {
        let earlier = results.drop_last();
        let last = results.len() - 1;
        let before = lemma_places(earlier, op, file_size);
        assert(results.last() == results[last]);
        assert forall|k: int| 0 <= k < before.len() implies earlier[#[trigger] before[k]]
            == results[before[k]] by {}
        if is_of(results[last], op, file_size) {
            let places = before.push(last);
            assert(markdown::group(results, op, file_size) == markdown::group(
                earlier,
                op,
                file_size,
            ).push(results[last]));
            assert forall|i: int|
                0 <= i < results.len() && is_of(#[trigger] results[i], op, file_size) implies
                places.contains(i) by {
                if i < last {
                    assert(earlier[i] == results[i]);
                    let k = choose|k: int| 0 <= k < before.len() && before[k] == i;
                    assert(places[k] == i);
                } else {
                    assert(places[before.len() as int] == i);
                }
            }
            places
        } else {
            assert(markdown::group(results, op, file_size) == markdown::group(
                earlier,
                op,
                file_size,
            ));
            assert forall|i: int|
                0 <= i < results.len() && is_of(#[trigger] results[i], op, file_size) implies
                before.contains(i) by {
                assert(earlier[i] == results[i]);
            }
            before
        }
    }
}

/// The best of a group is one of the results, and the best of them.
pub proof fn lemma_best_of(results: Seq<BenchmarkResult>, op: Operation, file_size: u64)
    ensures
        markdown::group(results, op, file_size).len() > 0 ==> exists|i: int| #[trigger]
            is_best(results, op, file_size, i) && results[i] == markdown::best(
                markdown::group(results, op, file_size),
            ),
        markdown::group(results, op, file_size).len() == 0 ==> forall|i: int|
            0 <= i < results.len() ==> !is_of(#[trigger] results[i], op, file_size),
{
    let members = markdown::group(results, op, file_size);
    let places = lemma_places(results, op, file_size);
    if members.len() > 0 {
        let k = markdown::lemma_best(members);
        let i = places[k];
        assert(members[k] == results[i]);
        assert forall|j: int|
            0 <= j < results.len() && is_of(#[trigger] results[j], op, file_size) implies median(
            results[j],
        ) <= median(results[i]) && (j > i ==> median(results[j]) < median(results[i])) by {
            let l = choose|l: int| 0 <= l < places.len() && places[l] == j;
            assert(members[l] == results[places[l]]);
            worth::lemma_worth_order(
                members[l].throughput.p50_mbps@,
                members[k].throughput.p50_mbps@,
            );
            worth::lemma_worth_order(
                members[k].throughput.p50_mbps@,
                members[l].throughput.p50_mbps@,
            );
        }
        assert(is_best(results, op, file_size, i));
    } else {
        assert forall|i: int| 0 <= i < results.len() implies !is_of(
            #[trigger] results[i],
            op,
            file_size,
        ) by {
            if is_of(results[i], op, file_size) {
                assert(places.contains(i));
            }
        }
    }
}

/// What the summary says of an operation and a file size.
proof fn lemma_best_line(results: Seq<BenchmarkResult>, op: Operation, file_size: u64)
    ensures
        is_best_line(markdown::best_row(results, op, file_size), results, op, file_size),
{
    reveal(is_best_line);
    let members = markdown::group(results, op, file_size);
    let s = markdown::best_row(results, op, file_size);
    lemma_best_of(results, op, file_size);
    if members.len() > 0 {
        let i = choose|i: int| #[trigger]
            is_best(results, op, file_size, i) && results[i] == markdown::best(members);
        let r = results[i];
        let (a, b, c) = (
            text::decimal(file_size as nat),
            text::decimal(r.case.chunk_size_mib as nat),
            text::fixed(r.throughput.p50_mbps@, 2),
        );
        reading::lemma_decimal_says(file_size as nat);
        reading::lemma_decimal_says(r.case.chunk_size_mib as nat);
        reading::lemma_fixed_shows(r.throughput.p50_mbps@, 2);
        assert(reading::says(a, file_size as nat) && reading::says(
            b,
            r.case.chunk_size_mib as nat,
        ) && reading::shows(c, median(r), 2));
        assert(tells_best(s, file_size, r));
        assert(is_of(results[i], op, file_size));
    }
}

/// The text is a row of the table of a group and tells the result, cell by cell.
pub open spec fn tells_row(s: Seq<char>, r: BenchmarkResult) -> bool {
    exists|c: Seq<Seq<char>>| #[trigger] are_cells(c, r) && s == row_of(c)
}

/// A row of so many cells.
pub open spec fn row_of(c: Seq<Seq<char>>) -> Seq<char> {
    "| "@ + c[0] + " | "@ + c[1] + " | "@ + c[2] + " | "@ + c[3] + " | "@ + c[4] + " | "@ + c[5]
        + " | "@ + c[6] + " | "@ + c[7] + " | "@ + c[8] + " | "@ + c[9] + " | "@ + c[10] + " | "@
        + c[11] + " | "@ + c[12] + " | "@ + c[13] + " | "@ + c[14] + " |\n"@
}

/// The cells of a row are what the result says.
pub open spec fn are_cells(c: Seq<Seq<char>>, r: BenchmarkResult) -> bool {
    &&& c.len() == 15
    &&& reading::says(c[0], r.case.chunk_size_mib as nat)
    &&& reading::says(c[1], r.total_requests as nat)
    &&& reading::shows(c[2], worth::worth(r.latency.p50_ms@), 2)
    &&& reading::shows(c[3], worth::worth(r.latency.p95_ms@), 2)
    &&& reading::shows(c[4], worth::worth(r.latency.p99_ms@), 2)
    &&& reading::shows(c[5], worth::worth(r.latency.p999_ms@), 2)
    &&& reading::shows(c[6], worth::worth(r.throughput.p50_mbps@), 2)
    &&& reading::shows(c[7], worth::worth(r.throughput.p95_mbps@), 2)
    &&& reading::shows(c[8], worth::worth(r.throughput.p99_mbps@), 2)
    &&& reading::shows(c[9], worth::worth(r.throughput.p999_mbps@), 2)
    &&& reading::shows(c[10], worth::worth(r.resources.avg_cpu_percent@), 1)
    &&& reading::shows(c[11], worth::worth(r.resources.peak_cpu_percent@), 1)
    &&& c[12] == metrics::bytes_text(r.resources.avg_mem_bytes)
    &&& c[13] == metrics::bytes_text(r.resources.peak_mem_bytes)
    &&& reading::shows(c[14], worth::worth(r.resources.error_rate_percent@), 2)
}

proof fn lemma_row(r: BenchmarkResult)
    ensures
        tells_row(markdown::row(r), r),
{
    reveal(markdown::row);
    let c = seq![
        text::decimal(r.case.chunk_size_mib as nat),
        text::decimal(r.total_requests as nat),
        text::fixed(r.latency.p50_ms@, 2),
        text::fixed(r.latency.p95_ms@, 2),
        text::fixed(r.latency.p99_ms@, 2),
        text::fixed(r.latency.p999_ms@, 2),
        text::fixed(r.throughput.p50_mbps@, 2),
        text::fixed(r.throughput.p95_mbps@, 2),
        text::fixed(r.throughput.p99_mbps@, 2),
        text::fixed(r.throughput.p999_mbps@, 2),
        text::fixed(r.resources.avg_cpu_percent@, 1),
        text::fixed(r.resources.peak_cpu_percent@, 1),
        metrics::bytes_text(r.resources.avg_mem_bytes),
        metrics::bytes_text(r.resources.peak_mem_bytes),
        text::fixed(r.resources.error_rate_percent@, 2),
    ];
    reading::lemma_decimal_says(r.case.chunk_size_mib as nat);
    reading::lemma_decimal_says(r.total_requests as nat);
    reading::lemma_fixed_shows(r.latency.p50_ms@, 2);
    reading::lemma_fixed_shows(r.latency.p95_ms@, 2);
    reading::lemma_fixed_shows(r.latency.p99_ms@, 2);
    reading::lemma_fixed_shows(r.latency.p999_ms@, 2);
    reading::lemma_fixed_shows(r.throughput.p50_mbps@, 2);
    reading::lemma_fixed_shows(r.throughput.p95_mbps@, 2);
    reading::lemma_fixed_shows(r.throughput.p99_mbps@, 2);
    reading::lemma_fixed_shows(r.throughput.p999_mbps@, 2);
    reading::lemma_fixed_shows(r.resources.avg_cpu_percent@, 1);
    reading::lemma_fixed_shows(r.resources.peak_cpu_percent@, 1);
    reading::lemma_fixed_shows(r.resources.error_rate_percent@, 2);
    assert(are_cells(c, r));
    assert(markdown::row(r) == row_of(c));
}

/// The rows are those of the results at the places, one each, in order.
pub open spec fn are_rows(
    rows: Seq<Seq<char>>,
    places: Seq<int>,
    results: Seq<BenchmarkResult>,
) -> bool {
    &&& rows.len() == places.len()
    &&& forall|k: int|
        0 <= k < rows.len() ==> tells_row(#[trigger] rows[k], results[places[k]])
}

/// The text is the section of an operation and a file size: a table with a row for each of the
/// results, in order, or nothing if there are none.
#[verifier::opaque]
pub open spec fn is_section(
    s: Seq<char>,
    results: Seq<BenchmarkResult>,
    op: Operation,
    file_size: u64,
) -> bool {
    if exists|i: int| 0 <= i < results.len() && is_of(#[trigger] results[i], op, file_size) {
        exists|rows: Seq<Seq<char>>, places: Seq<int>, a: Seq<char>|
            #![trigger are_rows(rows, places, results), reading::says(a, file_size as nat)]
            are_rows(rows, places, results) && are_places(places, results, op, file_size)
                && reading::says(a, file_size as nat) && s == "## "@ + op.name() + " Report - "@ + a
                + " MiB File\n\n"@
                + "| Chunk (MiB) | Requests | p50 Lat (ms) | p95 Lat (ms) | p99 Lat (ms) | p999 Lat (ms) | p50 Tp (Mbps) | p95 Tp (Mbps) | p99 Tp (Mbps) | p999 Tp (Mbps) | Avg CPU% | Peak CPU% | Avg Mem | Peak Mem | Err% |\n"@
                + "|---:|---:|---:|---:|---:|---:|---:|---:|---:|---:|---:|---:|---:|---:|---:|\n"@
                + rows.flatten() + "\n"@
    } else {
        s.len() == 0
    }
}

proof fn lemma_rows_flatten(members: Seq<BenchmarkResult>)
    ensures
        markdown::rows(members) == members.map_values(
            |r: BenchmarkResult| markdown::row(r),
        ).flatten(),
    decreases members.len(),
{
    let of = |r: BenchmarkResult| markdown::row(r);
    if members.len() == 0 {
        assert(members.map_values(of) =~= seq![]);
        assert(Seq::<Seq<char>>::empty().flatten() =~= seq![]);
    } else {
        let earlier = members.drop_last();
        lemma_rows_flatten(earlier);
        assert(members.map_values(of) =~= earlier.map_values(of).push(of(members.last())));
        earlier.map_values(of).lemma_flatten_push(of(members.last()));
    }
}

proof fn lemma_section(results: Seq<BenchmarkResult>, op: Operation, file_size: u64)
    ensures
        is_section(markdown::section(results, op, file_size), results, op, file_size),
{
    reveal(is_section);
    let members = markdown::group(results, op, file_size);
    let places = lemma_places(results, op, file_size);
    if members.len() > 0 {
        let of = |r: BenchmarkResult| markdown::row(r);
        let rows = members.map_values(of);
        lemma_rows_flatten(members);
        assert forall|k: int| 0 <= k < rows.len() implies tells_row(
            #[trigger] rows[k],
            results[places[k]],
        ) by {
            assert(members[k] == results[places[k]]);
            lemma_row(members[k]);
        }
        assert(are_rows(rows, places, results));
        reading::lemma_decimal_says(file_size as nat);
        assert(reading::says(text::decimal(file_size as nat), file_size as nat));
        assert(is_of(results[places[0]], op, file_size));
    } else {
        assert forall|i: int| 0 <= i < results.len() implies !is_of(
            #[trigger] results[i],
            op,
            file_size,
        ) by {
            if is_of(results[i], op, file_size) {
                assert(places.contains(i));
            }
        }
    }
}

/// The texts on an operation, one for each file size.
pub struct PerSize {
    pub of_10: Seq<char>,
    pub of_100: Seq<char>,
    pub of_1000: Seq<char>,
}

impl PerSize {
    /// One after the other.
    pub open spec fn joined(self) -> Seq<char> {
        self.of_10 + self.of_100 + self.of_1000
    }

    /// They are the sections of the operation.
    pub open spec fn are_sections(self, results: Seq<BenchmarkResult>, op: Operation) -> bool {
        &&& is_section(self.of_10, results, op, 10)
        &&& is_section(self.of_100, results, op, 100)
        &&& is_section(self.of_1000, results, op, 1000)
    }

    /// They are the lines of the summary on the operation.
    pub open spec fn are_best_lines(self, results: Seq<BenchmarkResult>, op: Operation) -> bool {
        &&& is_best_line(self.of_10, results, op, 10)
        &&& is_best_line(self.of_100, results, op, 100)
        &&& is_best_line(self.of_1000, results, op, 1000)
    }
}

/// What the document is made of.
pub struct Parts {
    pub uploads: PerSize,
    pub downloads: PerSize,
    pub best_uploads: PerSize,
    pub best_downloads: PerSize,
}

impl Parts {
    /// The document, made of these.
    pub open spec fn document(self, generated: Seq<char>) -> Seq<char> {
        let head = "\n\n| File Size (MiB) | Best Chunk (MiB) | p50 Throughput (Mbps) |\n"@
            + "|---:|---:|---:|\n"@;
        "# Upload/Download Streaming Benchmark Report\n\nGenerated: "@ + generated
            + "\n\n---\n\n"@ + self.uploads.joined() + self.downloads.joined()
            + "---\n\n## Best Chunk Size Summary\n\n"@ + ("### "@ + "Upload"@ + head
            + self.best_uploads.joined() + "\n"@) + ("### "@ + "Download"@ + head
            + self.best_downloads.joined() + "\n"@)
    }
}

/// The document is, after its heading, a section for each operation and file size, and then a
/// summary with the best of each.
pub proof fn lemma_document(results: Seq<BenchmarkResult>, generated: Seq<char>) -> (parts: Parts)
    ensures
        markdown::document(results, generated) == parts.document(generated),
        parts.uploads.are_sections(results, Operation::Upload),
        parts.downloads.are_sections(results, Operation::Download),
        parts.best_uploads.are_best_lines(results, Operation::Upload),
        parts.best_downloads.are_best_lines(results, Operation::Download),
{
    let uploads = lemma_sections(results, Operation::Upload);
    let downloads = lemma_sections(results, Operation::Download);
    let best_uploads = lemma_summary(results, Operation::Upload);
    let best_downloads = lemma_summary(results, Operation::Download);
    Parts { uploads, downloads, best_uploads, best_downloads }
}

proof fn lemma_sections(results: Seq<BenchmarkResult>, op: Operation) -> (t: PerSize)
    ensures
        markdown::sections(results, op, 3) == t.joined(),
        t.are_sections(results, op),
{
    crate::config::lemma_sizes();
    reveal_with_fuel(markdown::sections, 4);
    let t = PerSize {
        of_10: markdown::section(results, op, 10),
        of_100: markdown::section(results, op, 100),
        of_1000: markdown::section(results, op, 1000),
    };
    assert(Seq::<char>::empty() + t.of_10 =~= t.of_10);
    lemma_section(results, op, 10);
    lemma_section(results, op, 100);
    lemma_section(results, op, 1000);
    t
}

proof fn lemma_summary(results: Seq<BenchmarkResult>, op: Operation) -> (t: PerSize)
    ensures
        markdown::summary(results, op) == "### "@ + op.name()
            + ("\n\n| File Size (MiB) | Best Chunk (MiB) | p50 Throughput (Mbps) |\n"@
            + "|---:|---:|---:|\n"@) + t.joined() + "\n"@,
        t.are_best_lines(results, op),
{
    crate::config::lemma_sizes();
    reveal_with_fuel(markdown::best_rows, 4);
    let t = PerSize {
        of_10: markdown::best_row(results, op, 10),
        of_100: markdown::best_row(results, op, 100),
        of_1000: markdown::best_row(results, op, 1000),
    };
    assert(Seq::<char>::empty() + t.of_10 =~= t.of_10);
    let (a, b, c) = (
        "### "@ + op.name(),
        "\n\n| File Size (MiB) | Best Chunk (MiB) | p50 Throughput (Mbps) |\n"@,
        "|---:|---:|---:|\n"@,
    );
    assert(a + b + c =~= a + (b + c));
    lemma_best_line(results, op, 10);
    lemma_best_line(results, op, 100);
    lemma_best_line(results, op, 1000);
    t
}

} // verus!
