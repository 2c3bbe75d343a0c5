//! What callers may count on: for each operation, what its result has to do with what it was given.
use vstd::prelude::*;

use crate::accuracy;
use crate::binary64;
use crate::binary64::Binary64;
use crate::blocks;
use crate::blocks::EncryptBuffer;
use crate::comma;
use crate::config;
use crate::config::{BenchmarkCase, Operation};
use crate::crypto;
use crate::elapsed::Elapsed;
use crate::markdown;
use crate::meaning;
use crate::metrics;
use crate::metrics::{BenchmarkResult, Call, MetricsCollector};
use crate::percentiles;
use crate::reading;
use crate::report;
use crate::request;
use crate::request::{ReadState, ResponseEvent};
use crate::run::{MeasuredRun, RequestRecord};
use crate::sealing;
use crate::selection::RunSettings;
use crate::summary;
use crate::text;
use crate::upload;
use crate::upload::{CryptoResult, UploadPipeline, UploadResponse};
use crate::warmup;
use crate::worth;

verus! {

/// A new collector that records one request of `bytes` that succeeded, and then sums up, reports the
/// bits of the bytes over the latency as every throughput, and the latency as every latency.
pub proof fn lemma_one_request(
    c: &mut MetricsCollector,
    latency: Elapsed,
    bytes: u64,
    case: BenchmarkCase,
    warmup_complete: bool,
    r: BenchmarkResult,
)
    requires
        call_ensures(MetricsCollector::new, (), *old(c)),
        call_ensures(MetricsCollector::record_request, (c, latency, bytes, true), ()),
        call_ensures(MetricsCollector::finalize, (*final(c), &case, warmup_complete), r),
        latency.valid(),
        0 < accuracy::nanoseconds(latency) < 1_073_741_824_000,
        accuracy::rate(bytes, latency) <= 134_217_000_000nat as real,
    ensures
        percentiles::is_throughput_of(worth::worth(r.throughput.p50_mbps@), bytes, latency),
        percentiles::is_throughput_of(worth::worth(r.throughput.p95_mbps@), bytes, latency),
        percentiles::is_throughput_of(worth::worth(r.throughput.p99_mbps@), bytes, latency),
        percentiles::is_throughput_of(worth::worth(r.throughput.p999_mbps@), bytes, latency),
        percentiles::is_latency_of(worth::worth(r.latency.p50_ms@), latency),
        percentiles::is_latency_of(worth::worth(r.latency.p95_ms@), latency),
        percentiles::is_latency_of(worth::worth(r.latency.p99_ms@), latency),
        percentiles::is_latency_of(worth::worth(r.latency.p999_ms@), latency),
        r.total_requests == 1,
        r.successful_requests == 1,
        r.failed_requests == 0,
        r.case == case,
        r.warmup_complete == warmup_complete,
{
    percentiles::lemma_throughput_of_one(latency, bytes, r);
    percentiles::lemma_latency_of_one(latency, bytes, r);
}

/// A request is counted once, as failed exactly if it did not succeed, and one that failed leaves
/// no latency and no throughput.
pub proof fn lemma_request_counted(
    c: &mut MetricsCollector,
    latency: Elapsed,
    bytes: u64,
    success: bool,
)
    requires
        call_ensures(MetricsCollector::record_request, (c, latency, bytes, success), ()),
    ensures
        final(c)@.total == old(c)@.total + 1,
        final(c)@.failed == old(c)@.failed + if success {
            0int
        } else {
            1int
        },
        !success ==> final(c)@.latencies == old(c)@.latencies,
        !success ==> final(c)@.throughputs == old(c)@.throughputs,
        final(c)@.cpu == old(c)@.cpu,
        final(c)@.mem == old(c)@.mem,
{
}

/// The report in Markdown has a table for every operation and file size, with a row for every
/// result, and names the best chunk size of each.
pub proof fn lemma_markdown_report(results: Vec<BenchmarkResult>, generated: &str, s: String) -> (
    parts: summary::Parts)
    requires
        call_ensures(markdown::markdown_report, (&results, generated), s),
    ensures
        s@ == parts.document(generated@),
        parts.uploads.are_sections(results@, Operation::Upload),
        parts.downloads.are_sections(results@, Operation::Download),
        parts.best_uploads.are_best_lines(results@, Operation::Upload),
        parts.best_downloads.are_best_lines(results@, Operation::Download),
{
    summary::lemma_document(results@, generated@)
}

/// The best result of a group is one of it, no other has a higher median throughput, and none after
/// it as high a one; there is none only where the group is empty.
pub proof fn lemma_best_result(
    results: Vec<BenchmarkResult>,
    op: Operation,
    file_size: u64,
    r: Option<BenchmarkResult>,
)
    requires
        call_ensures(markdown::best_result, (&results, op, file_size), r),
    ensures
        match r {
            Some(b) => exists|i: int| #[trigger]
                summary::is_best(results@, op, file_size, i) && results@[i] == b,
            None => forall|i: int|
                0 <= i < results@.len() ==> !summary::is_of(
                    #[trigger] results@[i],
                    op,
                    file_size,
                ),
        },
{
    summary::lemma_best_of(results@, op, file_size);
}

/// One more result adds one line to the comma-separated results, which tells it.
pub proof fn lemma_csv_report(
    a: Vec<BenchmarkResult>,
    s: String,
    b: Vec<BenchmarkResult>,
    t: String,
    r: BenchmarkResult,
) -> (fields: Seq<Seq<char>>)
    requires
        call_ensures(report::csv_report, (&a,), s),
        call_ensures(report::csv_report, (&b,), t),
        b@ == a@.push(r),
    ensures
        t@ == s@ + comma::line(fields),
        summary::tells_result(fields, r),
        a@.len() == 0 ==> s@ == comma::line(report::result_head()),
{
    if a@.len() == 0 {
        assert(a@ =~= Seq::empty());
    }
    summary::lemma_result_table(a@, r)
}

/// One more request adds one line to the comma-separated requests, which tells it.
pub proof fn lemma_per_request_csv(
    a: Vec<RequestRecord>,
    s: String,
    b: Vec<RequestRecord>,
    t: String,
    r: RequestRecord,
) -> (fields: Seq<Seq<char>>)
    requires
        call_ensures(report::per_request_csv, (&a,), s),
        call_ensures(report::per_request_csv, (&b,), t),
        b@ == a@.push(r),
    ensures
        t@ == s@ + comma::line(fields),
        summary::tells_request(fields, r),
        a@.len() == 0 ==> s@ == comma::line(report::request_head()),
{
    if a@.len() == 0 {
        assert(a@ =~= Seq::empty());
    }
    summary::lemma_request_table(a@, r)
}

/// A size is written in the largest unit that it reaches.
pub proof fn lemma_format_bytes(bytes: u64, s: String)
    requires
        call_ensures(metrics::format_bytes, (bytes,), s),
    ensures
        bytes < 1024 ==> exists|t: Seq<char>| #[trigger]
            reading::says(t, bytes as nat) && s@ == t + " B"@,
        1024 <= bytes < 1_048_576 ==> reading::is_size(s@, bytes, 1024, " KiB"@),
        1_048_576 <= bytes < 1_073_741_824 ==> reading::is_size(s@, bytes, 1_048_576, " MiB"@),
        1_073_741_824 <= bytes ==> reading::is_size(s@, bytes, 1_073_741_824, " GiB"@),
{
    reading::lemma_bytes_read(bytes);
    reading::lemma_decimal_says(bytes as nat);
    assert(reading::says(text::decimal(bytes as nat), bytes as nat));
}

/// An upload goes to the server's address for uploads and names the chunk size.
pub proof fn lemma_upload_url(server: &str, case: BenchmarkCase, url: String) -> (chunk: Seq<char>)
    requires
        call_ensures(request::upload_url, (server, &case), url),
    ensures
        url@ == server@ + "/upload?chunk_size_mib="@ + chunk,
        reading::says(chunk, case.chunk_size_mib as nat),
{
    reading::lemma_decimal_says(case.chunk_size_mib as nat);
    text::decimal(case.chunk_size_mib as nat)
}

/// A download comes from the server's address for downloads and names the file size and the chunk
/// size.
pub proof fn lemma_download_url(server: &str, case: BenchmarkCase, url: String) -> (sizes: (
    Seq<char>,
    Seq<char>,
))
    requires
        call_ensures(request::download_url, (server, &case), url),
    ensures
        url@ == server@ + "/download?file_size_mib="@ + sizes.0 + "&chunk_size_mib="@ + sizes.1,
        reading::says(sizes.0, case.file_size_mib as nat),
        reading::says(sizes.1, case.chunk_size_mib as nat),
{
    reading::lemma_decimal_says(case.file_size_mib as nat);
    reading::lemma_decimal_says(case.chunk_size_mib as nat);
    (text::decimal(case.file_size_mib as nat), text::decimal(case.chunk_size_mib as nat))
}

/// What becomes of a download at each event: bytes add up, a failure or a bad status ends it without
/// success, the end of the body ends it with success if any byte came, and nothing changes after.
pub proof fn lemma_read_download(state: ReadState, event: ResponseEvent, next: ReadState)
    requires
        call_ensures(request::read_download, (state, event), next),
    ensures
        state is Over ==> next == state,
        state is Reading && event is Failed ==> next == ReadState::Over(false),
        state is Reading && event == ResponseEvent::Head(false) ==> next == ReadState::Over(false),
        state is Reading && event == ResponseEvent::Head(true) ==> next == state,
        state is Reading && event is Bytes && state->Reading_0 + event->Bytes_0 <= u64::MAX ==> next
            is Reading && next->Reading_0 == state->Reading_0 + event->Bytes_0,
        state is Reading && event is End ==> next == ReadState::Over(state->Reading_0 >= 1),
{
}

/// A request starts at a tick exactly if less than the run's length has passed, and is then one more
/// of those under way.
pub proof fn lemma_tick(run: &mut MeasuredRun, elapsed: Elapsed, starts: bool)
    requires
        call_ensures(MeasuredRun::tick, (run, elapsed), starts),
        elapsed.valid(),
    ensures
        starts <==> accuracy::nanoseconds(elapsed) < old(run)@.duration * 1_000_000_000,
        final(run)@.pending == old(run)@.pending + if starts {
            1int
        } else {
            0int
        },
        final(run)@.outcomes == old(run)@.outcomes,
        final(run)@.case == old(run)@.case,
        final(run)@.duration == old(run)@.duration,
{
}

/// A run is finished exactly if its length has passed and no request is under way.
pub proof fn lemma_is_finished(run: MeasuredRun, elapsed: Elapsed, finished: bool)
    requires
        call_ensures(MeasuredRun::is_finished, (&run, elapsed), finished),
        elapsed.valid(),
    ensures
        finished <==> accuracy::nanoseconds(elapsed) >= run@.duration * 1_000_000_000
            && run@.pending == 0,
{
}

/// The answer to a body is its length, its digest in hexadecimal, and how often the chunk size goes
/// into it, a part counting as one.
pub proof fn lemma_process_body(chunk_size: usize, pieces: Vec<Vec<u8>>, r: UploadResponse)
    requires
        call_ensures(upload::process_body, (chunk_size, &pieces), r),
        chunk_size > 0,
    ensures
        ({
            let body = upload::contents(pieces@).flatten();
            &&& r.bytes_received == body.len()
            &&& r.sha512_hex@ == crypto::hex(crypto::sha512(body))
            &&& r.chunks_processed * chunk_size >= body.len()
            &&& r.chunks_processed > 0 ==> (r.chunks_processed - 1) * chunk_size < body.len()
        }),
{
    let (n, k) = (upload::contents(pieces@).flatten().len(), r.chunks_processed as nat);
    crate::rounding::lemma_rounded_up(n, chunk_size as nat, k);
    if k > 0 {
        crate::rounding::lemma_rounded_up(n, chunk_size as nat, (k - 1) as nat);
    }
}

/// A chunk is encrypted 64 KiB at a time, what is left over last, all of it under the key and each
/// part under its own nonce, and the buffer is left with the last of the parts.
pub proof fn lemma_encrypt_chunk(
    key: &[u8],
    data: &[u8],
    chunk_id: u64,
    buf: &mut EncryptBuffer,
    i: int,
)
    requires
        call_ensures(blocks::encrypt_chunk_in_blocks, (key, data, chunk_id, buf), ()),
        0 <= 65536 * i < data@.len(),
    ensures
        ({
            let s = final(buf).done()[old(buf).done().len() + i];
            let end = if 65536 * (i + 1) <= data@.len() {
                65536 * (i + 1)
            } else {
                data@.len() as int
            };
            &&& old(buf).done().len() + i < final(buf).done().len()
            &&& s.message == data@.subrange(65536 * i, end)
            &&& s.output == crypto::aes256_gcm(key@, s.nonce, Seq::empty(), s.message)
            &&& s.nonce.len() == 12
            &&& forall|j: int|
                0 <= j < 8 ==> #[trigger] s.nonce[j] == chunk_id as nat / sealing::pow256(j as nat)
                    % 256
            &&& forall|j: int|
                8 <= j < 12 ==> #[trigger] s.nonce[j] == i as nat / sealing::pow256((j - 8) as nat)
                    % 256
            &&& end == data@.len() ==> final(buf).done().len() == old(buf).done().len() + i + 1
            &&& end == data@.len() ==> final(buf).bytes() == s.output
        }),
{
    let seals = blocks::chunk_seals(key@, data@, chunk_id as nat);
    assert(i < seals.len());
    blocks::lemma_chunk_seals(key@, data@, chunk_id as nat, i);
}

/// Requests are a second shared out, in whole milliseconds.
pub proof fn lemma_interval(settings: RunSettings, ms: u64)
    requires
        call_ensures(RunSettings::interval_ms, (&settings,), ms),
        settings.rps > 0,
    ensures
        ms * settings.rps <= 1000,
        (ms + 1) * settings.rps > 1000,
{
    let (n, r) = (1000int, settings.rps as int);
    vstd::arithmetic::div_mod::lemma_fundamental_div_mod(n, r);
    let q = n / r;
    assert(q * r <= n && (q + 1) * r > n) by (nonlinear_arith)
        requires
            n == r * q + n % r,
            0 <= n % r < r,
    ;
}

/// Quick mode is 30 seconds of warm-up, 60 of measurement and 5 requests per second, whatever was
/// asked for; without it everything is as asked for.
pub proof fn lemma_quick_mode(settings: RunSettings, quick: bool, r: RunSettings)
    requires
        call_ensures(RunSettings::with_quick_mode, (settings, quick), r),
    ensures
        r.warmup_min_ops == settings.warmup_min_ops,
        quick ==> r.warmup == 30 && r.duration == 60 && r.rps == 5,
        !quick ==> r.warmup == settings.warmup && r.duration == settings.duration && r.rps
            == settings.rps,
{
}

/// Sizes in MiB are 1048576 bytes each.
pub proof fn lemma_case_sizes(case: BenchmarkCase, file: u64, chunk: u64)
    requires
        call_ensures(BenchmarkCase::file_size_bytes, (&case,), file),
        call_ensures(BenchmarkCase::chunk_size_bytes, (&case,), chunk),
    ensures
        file == case.file_size_mib * 1_048_576,
        chunk == case.chunk_size_mib * 1_048_576,
{
}

/// A chunk size is taken where its bytes, and the blocks of a chunk, can be counted.
pub proof fn lemma_chunk_size_bytes(mib: u64, r: Option<usize>)
    requires
        call_ensures(upload::chunk_size_bytes, (mib,), r),
    ensures
        r matches Some(n) ==> n == mib * 1_048_576,
        mib * 1_048_576 <= 281_474_976_645_120 && mib * 1_048_576 <= isize::MAX ==> r is Some,
{
}

/// What a span is in milliseconds, in microseconds, and as a rate.
pub proof fn lemma_elapsed(
    e: Elapsed,
    bytes: u64,
    s: Binary64,
    ms: Binary64,
    us: u64,
    kbps: Option<u64>,
    mbps: Binary64,
)
    requires
        e.valid(),
        accuracy::nanoseconds(e) < 0x1_0000_0000_0000_0000nat * 1000,
        call_ensures(Elapsed::as_seconds, (&e,), s),
        call_ensures(Elapsed::as_milliseconds, (&e,), ms),
        call_ensures(Elapsed::as_microseconds, (&e,), us),
        call_ensures(Elapsed::as_kilobit_rate, (&e, bytes), kbps),
        call_ensures(Elapsed::as_megabit_rate, (&e, bytes), mbps),
    ensures
        worth::nearly(worth::worth(s@), accuracy::time(e), 10),
        worth::nearly(worth::worth(ms@), accuracy::time(e) * 1000nat as real, 20),
        1000 * us <= accuracy::nanoseconds(e) < 1000 * (us + 1),
        accuracy::nanoseconds(e) == 0 <==> kbps is None,
        accuracy::nanoseconds(e) == 0 ==> worth::worth(mbps@) == 0 as real,
        accuracy::nanoseconds(e) > 0 ==> worth::nearly(
            worth::worth(mbps@),
            worth::over(accuracy::rate(bytes, e), 1_000_000nat as real),
            30,
        ),
        kbps is Some && accuracy::rate(bytes, e) <= 0x1_0000_0000_0000_0000nat as real ==> exists|
            x: real,
        | #[trigger]
            worth::nearly(x, worth::over(accuracy::rate(bytes, e), 1000nat as real), 30)
                && kbps->Some_0 as nat as real <= x && x < kbps->Some_0 as nat as real + 1 as real,
{
    accuracy::lemma_seconds_accurate(e);
    accuracy::lemma_milliseconds_accurate(e);
    accuracy::lemma_microseconds_accurate(e);
    accuracy::lemma_megabit_rate_accurate(e, bytes);
    if kbps is Some && accuracy::rate(bytes, e) <= 0x1_0000_0000_0000_0000nat as real {
        let x = accuracy::lemma_kilobit_rate_accurate(e, bytes);
        assert(worth::nearly(x, worth::over(accuracy::rate(bytes, e), 1000nat as real), 30));
    }
}

/// Text of an integer and of a number reads as the integer, and as the nearest decimal.
pub proof fn lemma_text(n: u64, s: String, x: Binary64, places: u32, t: String)
    requires
        call_ensures(text::decimal_string, (n,), s),
        call_ensures(text::fixed_string, (&x, places), t),
    ensures
        reading::says(s@, n as nat),
        reading::shows(t@, worth::worth(x@), places as nat),
{
    reading::lemma_decimal_says(n as nat);
    reading::lemma_fixed_shows(x@, places as nat);
}

/// Numbers are compared by what they are worth, and cut to their integer part.
pub proof fn lemma_compared(x: Binary64, y: Binary64, le: bool, zero: bool, whole: u64)
    requires
        call_ensures(Binary64::is_at_most, (&x, &y), le),
        call_ensures(Binary64::is_zero, (&x,), zero),
        call_ensures(Binary64::to_u64, (&x,), whole),
    ensures
        le <==> worth::worth(x@) <= worth::worth(y@),
        zero <==> worth::worth(x@) == 0 as real,
        whole as nat as real <= worth::worth(x@),
        whole == u64::MAX || worth::worth(x@) < whole as nat as real + 1 as real,
{
    worth::lemma_worth_order(x@, y@);
    binary64::lemma_den_positive(x@, x@);
    worth::lemma_real_div(binary64::num(x@), binary64::den(x@));
}

/// A bit pattern is 52 bits of significand below 11 bits of exponent, and its number is the
/// significand, with a leading bit where the exponent is not 0, times a power of two.
pub proof fn lemma_bit_pattern(b: u64, r: Option<Binary64>, x: Binary64, c: u64)
    requires
        call_ensures(Binary64::from_bits, (b,), r),
        call_ensures(Binary64::to_bits, (&x,), c),
    ensures
        r is Some <==> b / 0x10_0000_0000_0000 < 2047,
        r matches Some(v) ==> {
            let (e, f) = (b as int / 0x10_0000_0000_0000, b as int % 0x10_0000_0000_0000);
            v@ == (if e == 0 {
                (f as nat, -1074)
            } else {
                ((f + 0x10_0000_0000_0000) as nat, e - 1075)
            })
        },
        r == Some(x) <==> b == c,
{
    binary64::lemma_bits_order(x@, x@);
    if let Some(v) = r {
        binary64::lemma_bits_order(v@, x@);
        if v@ == x@ {
            Binary64::lemma_same_number(v, x);
        }
    }
}

/// A request that has ended is one fewer under way and one more outcome, the last; it is reported
/// with the number of outcomes at every hundredth.
pub proof fn lemma_complete(
    run: &mut MeasuredRun,
    latency: Elapsed,
    success: bool,
    report: Option<u64>,
)
    requires
        call_ensures(MeasuredRun::complete, (run, latency, success), report),
        old(run)@.pending > 0,
    ensures
        final(run)@.pending + 1 == old(run)@.pending,
        final(run)@.outcomes.len() == old(run)@.outcomes.len() + 1,
        final(run)@.outcomes.last() == (latency, success),
        final(run)@.outcomes.drop_last() == old(run)@.outcomes,
        final(run)@.case == old(run)@.case,
        final(run)@.duration == old(run)@.duration,
        report is Some <==> final(run)@.outcomes.len() % 100 == 0,
        report is Some ==> report->Some_0 == final(run)@.outcomes.len(),
{
    assert(final(run)@.outcomes.drop_last() =~= old(run)@.outcomes);
}

/// The result of a run sums up its requests, each of them a transfer of the case's file, and there
/// is a record of every one of them, in order.
pub proof fn lemma_finish(
    run: MeasuredRun,
    usages: Vec<Binary64>,
    used_memory: u64,
    warmup_complete: bool,
    r: (BenchmarkResult, Vec<RequestRecord>),
)
    requires
        call_ensures(MeasuredRun::finish, (run, &usages, used_memory, warmup_complete), r),
        percentiles::latencies_tracked(meaning::calls_of(run@.case, run@.outcomes)),
        percentiles::throughputs_tracked(meaning::calls_of(run@.case, run@.outcomes)),
        run@.case.file_size_mib * 1_048_576 <= u64::MAX,
        forall|i: int| 0 <= i < run@.outcomes.len() ==> (#[trigger] run@.outcomes[i]).0.valid(),
    ensures
        r.0.case == run@.case,
        r.0.warmup_complete == warmup_complete,
        r.0.total_requests == run@.outcomes.len(),
        r.0.successful_requests == percentiles::count(
            meaning::calls_of(run@.case, run@.outcomes),
            |c: Call| c is Request && c->Request_2,
        ),
        r.0.failed_requests == percentiles::count(
            meaning::calls_of(run@.case, run@.outcomes),
            |c: Call| c is Request && !c->Request_2,
        ),
        worth::nearly(
            worth::worth(r.0.resources.error_rate_percent@),
            worth::ratio(r.0.failed_requests as nat, r.0.total_requests as nat) * 100nat as real,
            20,
        ) || r.0.total_requests == 0,
        r.1@.len() == run@.outcomes.len(),
        r.0.resources.avg_mem_bytes == used_memory,
        r.0.resources.peak_mem_bytes == used_memory,
        ({
            let calls = meaning::calls_of(run@.case, run@.outcomes);
            &&& percentiles::is_latency_at(calls, worth::worth(r.0.latency.p50_ms@), 500)
            &&& percentiles::is_latency_at(calls, worth::worth(r.0.latency.p95_ms@), 950)
            &&& percentiles::is_latency_at(calls, worth::worth(r.0.latency.p99_ms@), 990)
            &&& percentiles::is_latency_at(calls, worth::worth(r.0.latency.p999_ms@), 999)
            &&& percentiles::is_throughput_at(calls, worth::worth(r.0.throughput.p50_mbps@), 500)
            &&& percentiles::is_throughput_at(calls, worth::worth(r.0.throughput.p95_mbps@), 950)
            &&& percentiles::is_throughput_at(calls, worth::worth(r.0.throughput.p99_mbps@), 990)
            &&& percentiles::is_throughput_at(calls, worth::worth(r.0.throughput.p999_mbps@), 999)
        }),
        forall|i: int|
            0 <= i < r.1@.len() ==> is_record_of(
                #[trigger] r.1@[i],
                run@.case,
                run@.outcomes[i].0,
                run@.outcomes[i].1,
            ),
{
    let (case, outcomes) = (run@.case, run@.outcomes);
    let calls = meaning::calls_of(case, outcomes);
    let sample = Call::Sample(metrics::numbers(usages@), used_memory);
    meaning::lemma_run_calls(case, outcomes, metrics::numbers(usages@), used_memory);
    meaning::lemma_memory_of_run(case, outcomes, metrics::numbers(usages@), used_memory, r.0);
    percentiles::lemma_with_sample(calls, sample, r.0);
    percentiles::lemma_counts_mean(calls.push(sample), r.0);
    meaning::lemma_error_rate_of_calls(calls.push(sample), r.0);
    assert(calls.push(sample).drop_last() =~= calls);
    assert forall|i: int| 0 <= i < r.1@.len() implies is_record_of(
        #[trigger] r.1@[i],
        case,
        outcomes[i].0,
        outcomes[i].1,
    ) by {
        meaning::lemma_record_means(r.1@[i], case, outcomes[i]);
    }
}

/// The record tells what a request of the case was, how long it took, and how fast it was.
pub open spec fn is_record_of(
    record: RequestRecord,
    case: BenchmarkCase,
    latency: Elapsed,
    success: bool,
) -> bool {
    &&& record.0@ == (match case.operation {
        Operation::Upload => "Upload"@,
        Operation::Download => "Download"@,
    })
    &&& record.1 == case.file_size_mib
    &&& record.2 == case.chunk_size_mib
    &&& record.5 == success
    &&& worth::nearly(worth::worth(record.3@), accuracy::time(latency) * 1000nat as real, 20)
    &&& accuracy::nanoseconds(latency) > 0 ==> worth::nearly(
        worth::worth(record.4@),
        worth::over(
            worth::over(
                (8 * (case.file_size_mib as nat * 1_048_576)) as real,
                accuracy::time(latency),
            ),
            1_000_000nat as real,
        ),
        30,
    )
    &&& accuracy::nanoseconds(latency) == 0 ==> worth::worth(record.4@) == 0 as real
}

/// What comes in is appended to what is pending, and nothing is processed by it.
pub proof fn lemma_receive(p: &mut UploadPipeline, data: &[u8])
    requires
        call_ensures(UploadPipeline::receive, (p, data), ()),
    ensures
        final(p)@.pending == old(p)@.pending + data@,
        final(p)@.chunks == old(p)@.chunks,
        final(p)@.key == old(p)@.key,
        final(p)@.chunk_size == old(p)@.chunk_size,
        final(p).seals() == old(p).seals(),
{
}

/// A chunk is processed exactly if a full one is pending: the first bytes of what is pending, which
/// are then no longer pending.
pub proof fn lemma_next_chunk(p: &mut UploadPipeline, r: Option<CryptoResult>)
    requires
        call_ensures(UploadPipeline::next_chunk, (p,), r),
    ensures
        r is Some <==> old(p)@.pending.len() >= old(p)@.chunk_size,
        r is Some ==> {
            &&& r->Some_0.bytes_processed == old(p)@.chunk_size
            &&& final(p)@.chunks.len() == old(p)@.chunks.len() + 1
            &&& final(p)@.chunks.drop_last() == old(p)@.chunks
            &&& final(p)@.chunks.last() + final(p)@.pending == old(p)@.pending
            &&& final(p)@.chunks.last().len() == old(p)@.chunk_size
        },
        r is None ==> final(p)@ == old(p)@,
        final(p)@.key == old(p)@.key,
        final(p)@.chunk_size == old(p)@.chunk_size,
{
    if r is Some {
        assert(final(p)@.chunks.drop_last() =~= old(p)@.chunks);
        assert(final(p)@.chunks.last() + final(p)@.pending =~= old(p)@.pending);
    }
}

/// At the end what is pending is processed as it is, if there is any.
pub proof fn lemma_last_chunk(p: &mut UploadPipeline, r: Option<CryptoResult>)
    requires
        call_ensures(UploadPipeline::last_chunk, (p,), r),
    ensures
        r is Some <==> old(p)@.pending.len() > 0,
        r is Some ==> {
            &&& r->Some_0.bytes_processed == old(p)@.pending.len()
            &&& final(p)@.chunks.len() == old(p)@.chunks.len() + 1
            &&& final(p)@.chunks.drop_last() == old(p)@.chunks
            &&& final(p)@.chunks.last() == old(p)@.pending
        },
        r is None ==> final(p)@.chunks == old(p)@.chunks,
        final(p)@.pending.len() == 0,
{
    if r is Some {
        let pending = old(p)@.pending;
        assert(pending.take(pending.len() as int) =~= pending);
        assert(final(p)@.chunks.drop_last() =~= old(p)@.chunks);
    }
}

/// The answer is the total that was added up, the digest of all the chunks as one message in 128
/// hexadecimal digits, and the number of chunks.
pub proof fn lemma_answer(p: UploadPipeline, bytes_received: u64, r: UploadResponse)
    requires
        call_ensures(UploadPipeline::finish, (p, bytes_received), r),
    ensures
        r.bytes_received == bytes_received,
        r.sha512_hex@ == crypto::hex(crypto::sha512(p@.chunks.flatten())),
        r.sha512_hex@.len() == 128,
        r.chunks_processed == p@.chunks.len(),
{
}

/// What the worker reports is added up.
pub proof fn lemma_add_result(total: u64, result: CryptoResult, r: u64)
    requires
        call_ensures(upload::add_result, (total, &result), r),
    ensures
        r == total + result.bytes_processed,
{
}

/// The matrix that is run is every operation with every file size and every chunk size, once each.
pub proof fn lemma_all_cases(r: Vec<BenchmarkCase>, case: BenchmarkCase)
    requires
        call_ensures(config::all_cases, (), r),
    ensures
        r@.len() == 42,
        r@.no_duplicates(),
        r@.contains(case) <==> {
            &&& case.file_size_mib == 10 || case.file_size_mib == 100 || case.file_size_mib == 1000
            &&& case.chunk_size_mib == 1 || case.chunk_size_mib == 2 || case.chunk_size_mib == 4
                || case.chunk_size_mib == 8 || case.chunk_size_mib == 16 || case.chunk_size_mib == 32
                || case.chunk_size_mib == 64
        },
{
    config::lemma_matrix_complete();
    config::lemma_matrix_members(case);
}

/// The server is asked whether it is up at its own address.
pub proof fn lemma_health(server: &str, url: String, s: &'static str)
    requires
        call_ensures(request::health_url, (server,), url),
        call_ensures(request::health, (), s),
    ensures
        url@ == server@ + "/health"@,
        s@ == "ok"@,
{
}

/// An upload succeeds exactly if an answer came with a status of success.
pub proof fn lemma_upload_succeeded(event: ResponseEvent, r: bool)
    requires
        call_ensures(request::upload_succeeded, (event,), r),
    ensures
        event == ResponseEvent::Head(true) ==> r,
        event == ResponseEvent::Head(false) ==> !r,
        event is Failed ==> !r,
        event is Bytes ==> !r,
        event is End ==> !r,
{
}

/// The progress of a warm-up is told at every fiftieth operation.
pub proof fn lemma_is_reported(ops: u64, r: bool)
    requires
        call_ensures(warmup::is_reported, (ops,), r),
    ensures
        r <==> exists|k: int| #[trigger] (50 * k) == ops,
{
    if r {
        assert(50 * (ops as int / 50) == ops);
    }
}

/// A run starts with nothing under way and nothing ended.
pub proof fn lemma_new_run(case: BenchmarkCase, duration: u64, run: MeasuredRun)
    requires
        call_ensures(MeasuredRun::new, (case, duration), run),
    ensures
        run@.case == case,
        run@.duration == duration,
        run@.pending == 0,
        run@.outcomes.len() == 0,
{
}

/// A request of which nothing came back is one fewer under way, and no outcome.
pub proof fn lemma_lose(run: &mut MeasuredRun)
    requires
        call_ensures(MeasuredRun::lose, (run,), ()),
        old(run)@.pending > 0,
    ensures
        final(run)@.pending + 1 == old(run)@.pending,
        final(run)@.outcomes == old(run)@.outcomes,
        final(run)@.case == old(run)@.case,
        final(run)@.duration == old(run)@.duration,
{
}

/// An upload starts with nothing received or processed, under a key of 32 bytes, which are all that
/// its generator has given.
pub proof fn lemma_new_upload(chunk_size: usize, p: UploadPipeline)
    requires
        call_ensures(UploadPipeline::new, (chunk_size,), p),
    ensures
        p@.chunk_size == chunk_size,
        p@.pending.len() == 0,
        p@.chunks.len() == 0,
        p.seals().len() == 0,
        p@.key.len() == 32,
        p.drawn() == p@.key,
{
}

/// The rest of a body, in whatever pieces, ends up in the chunks, byte for byte and in order, none of
/// them longer than asked for, and is encrypted.
pub proof fn lemma_receive_rest(p: &mut UploadPipeline, pieces: Vec<Vec<u8>>, total: u64)
    requires
        call_ensures(upload::receive_rest, (p, &pieces), total),
        old(p)@.chunk_size > 0,
    ensures
        ({
            let body = old(p)@.received() + upload::contents(pieces@).flatten();
            let seals = final(p).seals();
            &&& final(p)@.chunks.flatten() == body
            &&& final(p)@.pending.len() == 0
            &&& seals.map_values(|s: sealing::Seal| s.message).flatten() == body
            &&& forall|i: int|
                0 <= i < final(p)@.chunks.len() ==> 0 < (#[trigger] final(p)@.chunks[i]).len()
                    <= old(p)@.chunk_size
            &&& forall|i: int|
                0 <= i < final(p)@.chunks.len() - 1 ==> (#[trigger] final(p)@.chunks[i]).len()
                    == old(p)@.chunk_size
        }),
        total == old(p)@.pending.len() + upload::contents(pieces@).flatten().len(),
{
    let body = old(p)@.received() + upload::contents(pieces@).flatten();
    upload::lemma_cut(body, old(p)@.chunk_size);
    upload::lemma_all_encrypted(old(p)@.key, upload::cut(body, old(p)@.chunk_size));
    assert(final(p)@.pending.len() == 0) by {
        let q = old(p)@.fed(upload::contents(pieces@));
        assert(q.pending.skip(q.pending.len() as int).len() == 0);
    }
}

/// A block is encrypted under the key and its own nonce, without associated data, and left in the
/// buffer.
pub proof fn lemma_encrypt_block(
    b: &mut EncryptBuffer,
    key: &[u8],
    chunk_id: u64,
    block_id: u32,
    message: &[u8],
    nonce: Vec<u8>,
)
    requires
        call_ensures(EncryptBuffer::encrypt_block, (b, key, chunk_id, block_id, message), ()),
        call_ensures(blocks::block_nonce, (chunk_id, block_id), nonce),
    ensures
        final(b).bytes() == crypto::aes256_gcm(key@, nonce@, Seq::empty(), message@),
        final(b).bytes().len() == message@.len() + 16,
        final(b).done().len() == old(b).done().len() + 1,
        final(b).done().last().message == message@,
        final(b).done().last().nonce == nonce@,
        final(b).done().drop_last() == old(b).done(),
        nonce@.len() == 12,
        forall|j: int|
            0 <= j < 8 ==> #[trigger] nonce@[j] == chunk_id as nat / sealing::pow256(j as nat) % 256,
        forall|j: int|
            8 <= j < 12 ==> #[trigger] nonce@[j] == block_id as nat / sealing::pow256(
                (j - 8) as nat,
            ) % 256,
{
    sealing::lemma_nonce_bytes(chunk_id as nat, block_id as nat);
    assert(final(b).done().drop_last() =~= old(b).done());
}

/// A sample adds the memory as it is and the mean of the usages, which is 0 without processors, and
/// leaves the requests as they were.
pub proof fn lemma_sample(c: &mut MetricsCollector, usages: Vec<Binary64>, used_memory: u64)
    requires
        call_ensures(MetricsCollector::record_resource_sample, (c, &usages, used_memory), ()),
        metrics::sum_is_finite(metrics::numbers(usages@)),
        usages@.len() <= 65536,
        forall|i: int|
            0 <= i < usages@.len() ==> meaning::is_percentage((#[trigger] usages@[i])@),
    ensures
        final(c)@.mem == old(c)@.mem.push(used_memory),
        final(c)@.cpu.len() == old(c)@.cpu.len() + 1,
        final(c)@.cpu.drop_last() == old(c)@.cpu,
        final(c)@.latencies == old(c)@.latencies,
        final(c)@.throughputs == old(c)@.throughputs,
        final(c)@.total == old(c)@.total,
        final(c)@.failed == old(c)@.failed,
        usages@.len() > 0 ==> meaning::is_mean(
            worth::worth(final(c)@.cpu.last()),
            metrics::numbers(usages@),
        ),
        usages@.len() == 0 ==> worth::worth(final(c)@.cpu.last()) == 0 as real,
{
    assert(final(c)@.cpu.drop_last() =~= old(c)@.cpu);
    let us = metrics::numbers(usages@);
    assert forall|i: int| 0 <= i < us.len() implies meaning::is_percentage(#[trigger] us[i]) by {
        assert(us[i] == usages@[i]@);
    }
    meaning::lemma_mean_of(us);
}

/// A collector starts with nothing.
pub proof fn lemma_new_collector(c: MetricsCollector)
    requires
        call_ensures(MetricsCollector::new, (), c),
    ensures
        c@.total == 0,
        c@.failed == 0,
        c@.latencies.len() == 0,
        c@.throughputs.len() == 0,
        c@.cpu.len() == 0,
        c@.mem.len() == 0,
{
}

/// What the arithmetic gives is what it should be worth, but for one rounding.
pub proof fn lemma_arithmetic(
    x: Binary64,
    y: Binary64,
    n: u64,
    whole: Binary64,
    sum: Binary64,
    product: Binary64,
    quotient: Binary64,
)
    requires
        call_ensures(Binary64::from_u64, (n,), whole),
        call_ensures(Binary64::plus, (x, y), sum),
        call_ensures(Binary64::times, (x, y), product),
        call_ensures(Binary64::divided_by, (x, y), quotient),
        worth::worth(x@) + worth::worth(y@) >= worth::tiny(),
        worth::worth(x@) * worth::worth(y@) >= worth::tiny(),
        worth::worth(y@) > 0 as real,
        worth::over(worth::worth(x@), worth::worth(y@)) >= worth::tiny(),
    ensures
        worth::nearly(worth::worth(whole@), n as nat as real, 1),
        worth::nearly(worth::worth(sum@), worth::worth(x@) + worth::worth(y@), 1),
        worth::nearly(worth::worth(product@), worth::worth(x@) * worth::worth(y@), 1),
        worth::nearly(
            worth::worth(quotient@),
            worth::over(worth::worth(x@), worth::worth(y@)),
            1,
        ),
{
    worth::lemma_count_worth(n as nat);
    worth::lemma_sum_worth(x@, y@);
    worth::lemma_product_worth(x@, y@);
    worth::lemma_quotient_worth(x@, y@);
}

/// A request that succeeds adds its whole microseconds to the latencies and, if it took any time, its
/// whole kilobits per second to the throughputs, each at least 1 and at its level, and nothing else
/// but the count.
pub proof fn lemma_request_recorded(c: &mut MetricsCollector, latency: Elapsed, bytes: u64) -> (kbps:
    nat)
    requires
        call_ensures(MetricsCollector::record_request, (c, latency, bytes, true), ()),
        latency.valid(),
        accuracy::nanoseconds(latency) < 0x1_0000_0000_0000_0000nat * 1000,
    ensures
        final(c)@.latencies == percentiles::one_more(
            old(c)@.latencies,
            accuracy::nanoseconds(latency) / 1000,
            0x4000_0000,
        ),
        accuracy::nanoseconds(latency) == 0 ==> final(c)@.throughputs == old(c)@.throughputs,
        accuracy::nanoseconds(latency) > 0 ==> final(c)@.throughputs == percentiles::one_more(
            old(c)@.throughputs,
            kbps,
            0x800_0000,
        ),
        accuracy::nanoseconds(latency) > 0 && accuracy::rate(bytes, latency)
            <= 0x1_0000_0000_0000_0000nat as real ==> percentiles::is_whole_part(
            kbps,
            worth::over(accuracy::rate(bytes, latency), 1000nat as real),
        ),
        accuracy::nanoseconds(latency) > 0 && accuracy::rate(bytes, latency)
            >= 0x1_0000_0000_0000_0000nat as real ==> kbps >= 0x800_0000,
{
    percentiles::lemma_recorded(old(c)@, latency, bytes)
}

/// A result reports a thousandth of the values at the percentiles of what the collector holds.
pub proof fn lemma_finalize(
    c: MetricsCollector,
    case: BenchmarkCase,
    warmup_complete: bool,
    r: BenchmarkResult,
)
    requires
        call_ensures(MetricsCollector::finalize, (c, &case, warmup_complete), r),
    ensures
        r.case == case,
        r.warmup_complete == warmup_complete,
        r.total_requests == c@.total,
        r.failed_requests == c@.failed,
        r.successful_requests == c@.total - c@.failed,
        percentiles::is_thousandth_at(worth::worth(r.latency.p50_ms@), c@.latencies, 500),
        percentiles::is_thousandth_at(worth::worth(r.latency.p95_ms@), c@.latencies, 950),
        percentiles::is_thousandth_at(worth::worth(r.latency.p99_ms@), c@.latencies, 990),
        percentiles::is_thousandth_at(worth::worth(r.latency.p999_ms@), c@.latencies, 999),
        percentiles::is_thousandth_at(worth::worth(r.throughput.p50_mbps@), c@.throughputs, 500),
        percentiles::is_thousandth_at(worth::worth(r.throughput.p95_mbps@), c@.throughputs, 950),
        percentiles::is_thousandth_at(worth::worth(r.throughput.p99_mbps@), c@.throughputs, 990),
        percentiles::is_thousandth_at(worth::worth(r.throughput.p999_mbps@), c@.throughputs, 999),
        meaning::is_memory_load(
            r.resources.avg_mem_bytes as nat,
            r.resources.peak_mem_bytes as nat,
            c@.mem,
        ),
{
    percentiles::lemma_is_thousandth(c@.latencies, 500);
    percentiles::lemma_is_thousandth(c@.latencies, 950);
    percentiles::lemma_is_thousandth(c@.latencies, 990);
    percentiles::lemma_is_thousandth(c@.latencies, 999);
    percentiles::lemma_is_thousandth(c@.throughputs, 500);
    percentiles::lemma_is_thousandth(c@.throughputs, 950);
    percentiles::lemma_is_thousandth(c@.throughputs, 990);
    percentiles::lemma_is_thousandth(c@.throughputs, 999);
    meaning::lemma_memory_load(c@.mem);
}

} // verus!
