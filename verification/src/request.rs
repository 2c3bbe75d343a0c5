//! One request: where it goes, and when it counts as a success.
use vstd::prelude::*;

use crate::config::BenchmarkCase;
use crate::text;

verus! {

/// How many chunks of an upload the client makes ahead of the network.
pub const CLIENT_READ_AHEAD: usize = 2;

/// Where an upload goes.
pub open spec fn upload_address(server: Seq<char>, case: BenchmarkCase) -> Seq<char> {
    server + "/upload?chunk_size_mib="@ + text::decimal(case.chunk_size_mib as nat)
}

/// Where a download comes from.
pub open spec fn download_address(server: Seq<char>, case: BenchmarkCase) -> Seq<char> {
    server + "/download?file_size_mib="@ + text::decimal(case.file_size_mib as nat)
        + "&chunk_size_mib="@ + text::decimal(case.chunk_size_mib as nat)
}

/// Where an upload goes.
pub fn upload_url(server: &str, case: &BenchmarkCase) -> (url: String)
    ensures
        url@ == upload_address(server@, *case),
{
    let mut url: String = server.to_owned();
    url.append("/upload?chunk_size_mib=");
    text::push_decimal(&mut url, case.chunk_size_mib);
    url
}

/// Where a download comes from.
pub fn download_url(server: &str, case: &BenchmarkCase) -> (url: String)
    ensures
        url@ == download_address(server@, *case),
{
    let mut url: String = server.to_owned();
    url.append("/download?file_size_mib=");
    text::push_decimal(&mut url, case.file_size_mib);
    url.append("&chunk_size_mib=");
    text::push_decimal(&mut url, case.chunk_size_mib);
    url
}

/// Where the server is asked whether it is up.
pub fn health_url(server: &str) -> (url: String)
    ensures
        url@ == server@ + "/health"@,
{
    let mut url: String = server.to_owned();
    url.append("/health");
    url
}

/// What the server answers when it is up.
pub fn health() -> (s: &'static str)
    ensures
        s@ == "ok"@,
{
    "ok"
}

/// What may happen while a response is awaited or read.
#[derive(Debug, Clone, Copy, PartialEq, Eq, Structural)]
pub enum ResponseEvent {
    /// The head came, with a status of success or not.
    Head(bool),
    /// Bytes of the body came.
    Bytes(u64),
    /// The connection failed.
    Failed,
    /// The body ended.
    End,
}

/// Where the reading of a response stands.
#[derive(Debug, Clone, Copy, PartialEq, Eq, Structural)]
pub enum ReadState {
    /// So many bytes have come.
    Reading(u64),
    /// The request is over, with success or not.
    Over(bool),
}

/// A download succeeds if the status does and the body comes to its end with at least one byte.
pub open spec fn read(state: ReadState, event: ResponseEvent) -> ReadState {
    match (state, event) {
        (ReadState::Over(r), _) => ReadState::Over(r),
        (ReadState::Reading(total), ResponseEvent::Head(ok)) => if ok {
            ReadState::Reading(total)
        } else {
            ReadState::Over(false)
        },
        (ReadState::Reading(total), ResponseEvent::Bytes(n)) => ReadState::Reading(
            (total + n) as u64,
        ),
        (ReadState::Reading(_), ResponseEvent::Failed) => ReadState::Over(false),
        (ReadState::Reading(total), ResponseEvent::End) => ReadState::Over(total > 0),
    }
}

/// The next state of a download.
pub fn read_download(state: ReadState, event: ResponseEvent) -> (next: ReadState)
    requires
        match (state, event) {
            (ReadState::Reading(total), ResponseEvent::Bytes(n)) => total + n <= u64::MAX,
            _ => true,
        },
    ensures
        next == read(state, event),
{
    match state {
        ReadState::Over(r) => ReadState::Over(r),
        ReadState::Reading(total) => match event {
            ResponseEvent::Head(ok) => if ok {
                ReadState::Reading(total)
            } else {
                ReadState::Over(false)
            },
            ResponseEvent::Bytes(n) => ReadState::Reading(total + n),
            ResponseEvent::Failed => ReadState::Over(false),
            ResponseEvent::End => ReadState::Over(total > 0),
        },
    }
}

/// Whether an upload succeeded: a head came, with a status of success.
pub fn upload_succeeded(event: ResponseEvent) -> (r: bool)
    ensures
        r == (event == ResponseEvent::Head(true)),
{
    match event {
        ResponseEvent::Head(ok) => ok,
        _ => false,
    }
}

/// The state of a download after a sequence of events.
pub open spec fn read_all(events: Seq<ResponseEvent>) -> ReadState
    decreases events.len(),
{
    if events.len() == 0 {
        ReadState::Reading(0)
    } else {
        read(read_all(events.drop_last()), events.last())
    }
}

/// The sum of the bytes that came.
pub open spec fn bytes_in(events: Seq<ResponseEvent>) -> nat
    decreases events.len(),
{
    if events.len() == 0 {
        0
    } else {
        bytes_in(events.drop_last()) + match events.last() {
            ResponseEvent::Bytes(n) => n as nat,
            _ => 0,
        }
    }
}

/// The event neither ends the response nor makes it fail.
pub open spec fn goes_on(event: ResponseEvent) -> bool {
    match event {
        ResponseEvent::Head(ok) => ok,
        ResponseEvent::Bytes(_) => true,
        _ => false,
    }
}

proof fn lemma_reading(events: Seq<ResponseEvent>)
    requires
        bytes_in(events) <= u64::MAX,
        forall|i: int| 0 <= i < events.len() ==> goes_on(#[trigger] events[i]),
    ensures
        read_all(events) == ReadState::Reading(bytes_in(events) as u64),
    decreases events.len(),
{
    if events.len() > 0 {
        assert forall|i: int| 0 <= i < events.drop_last().len() implies goes_on(
            #[trigger] events.drop_last()[i],
        ) by {
            assert(events.drop_last()[i] == events[i]);
        }
        lemma_reading(events.drop_last());
    }
}

/// A response that goes on to its end is a success exactly if any byte came.
pub proof fn lemma_download_outcome(events: Seq<ResponseEvent>)
    requires
        bytes_in(events) <= u64::MAX,
        forall|i: int| 0 <= i < events.len() ==> goes_on(#[trigger] events[i]),
    ensures
        read_all(events.push(ResponseEvent::End)) == ReadState::Over(bytes_in(events) > 0),
{
    lemma_reading(events);
    assert(events.push(ResponseEvent::End).drop_last() =~= events);
}

/// Once a response has failed, in its status or on the way, nothing makes it a success.
pub proof fn lemma_failure_stays(before: Seq<ResponseEvent>, after: Seq<ResponseEvent>)
    requires
        before.len() > 0,
        before.last() == ResponseEvent::Failed || before.last() == ResponseEvent::Head(false),
        read_all(before.drop_last()) is Reading,
    ensures
        read_all(before + after) == ReadState::Over(false),
    decreases after.len(),
{
    if after.len() == 0 {
        assert(before + after =~= before);
    } else {
        lemma_failure_stays(before, after.drop_last());
        assert((before + after).drop_last() =~= before + after.drop_last());
        assert((before + after).last() == after.last());
    }
}

} // verus!
