//! Decisions of the transfer layer: the retry budget of a download, the use of
//! partial-range requests, and the merge of per-file results.
use vstd::prelude::*;
use crate::geometry::LidarPoint;
use crate::las_format::{HeaderError, LasHeaderParsed, has_las_signature, has_signature_spec, header_of,
    parse_las_header_from_slice};

verus! {

/// Attempts one download may take.
pub const MAX_ATTEMPTS: u32 = 3;

/// Seconds to wait before another attempt.
pub const RETRY_DELAY_SECS: u64 = 2;

/// Last byte of the first range request, which covers the header.
pub const HEADER_RANGE_END: u64 = 4095;

/// Attempts left to a download.
#[derive(Clone, Copy, Debug, PartialEq, Eq, Structural)]
pub struct RetryState {
    pub retries_left: u32,
}

/// What one attempt of a download gave.
pub enum TransferEvent {
    /// The request could not be sent or timed out.
    SendFailed,
    /// The server answered with a status other than success.
    HttpError(u16),
    /// Reading the body failed.
    ReadFailed,
    /// The whole body, with the length the server announced, if any.
    Received { bytes: Vec<u8>, expected_len: Option<u64> },
}

#[derive(Clone, Copy, Debug, PartialEq, Eq, Structural)]
pub enum TransferError {
    SendFailed,
    HttpStatus(u16),
    ReadFailed,
    EmptyResponse,
    Incomplete { got: u64, expected: u64 },
    BadSignature,
}

/// What to do after an attempt.
pub enum TransferAction {
    /// Wait [`RETRY_DELAY_SECS`] and try again.
    Retry,
    /// Keep these bytes: they start with the LAS signature.
    Accept(Vec<u8>),
    /// Give up on this file.
    Fail(TransferError),
}

impl RetryState {
    pub fn new() -> (r: RetryState)
        ensures
            r.retries_left == MAX_ATTEMPTS,
    {
        RetryState { retries_left: MAX_ATTEMPTS }
    }
}

/// The attempts left after a failed one.
pub open spec fn after_failure(s: RetryState) -> RetryState {
    RetryState { retries_left: if s.retries_left > 0 { (s.retries_left - 1) as u32 } else { 0 } }
}

/// What a failure of kind `e` leads to: another attempt while the budget
/// lasts.
pub open spec fn failure_outcome(s: RetryState, e: TransferError) -> (RetryState, Option<TransferError>) {
    let n = after_failure(s);
    if n.retries_left > 0 {
        (n, None)
    } else {
        (n, Some(e))
    }
}

pub open spec fn body_len_ok(len: int, expected: Option<u64>) -> bool {
    match expected {
        Some(e) => len == e,
        None => true,
    }
}

/// The decision after an attempt: the next state, and `None` for a retry,
/// `Some(Ok(()))` to keep the body, `Some(Err(e))` to give up.
pub open spec fn transfer_decision(s: RetryState, e: TransferEvent) -> (RetryState, Option<
    Result<(), TransferError>,
>) {
    let lift = |o: (RetryState, Option<TransferError>)|
        (
            o.0,
            match o.1 {
                Some(err) => Some(Err(err)),
                None => None,
            },
        );
    match e {
        TransferEvent::SendFailed => lift(failure_outcome(s, TransferError::SendFailed)),
        TransferEvent::HttpError(code) => (s, Some(Err(TransferError::HttpStatus(code)))),
        TransferEvent::ReadFailed => lift(failure_outcome(s, TransferError::ReadFailed)),
        TransferEvent::Received { bytes, expected_len } => if bytes@.len() == 0 {
            lift(failure_outcome(s, TransferError::EmptyResponse))
        } else if !body_len_ok(bytes@.len() as int, expected_len) {
            lift(
                failure_outcome(
                    s,
                    TransferError::Incomplete {
                        got: bytes@.len() as u64,
                        expected: expected_len->Some_0,
                    },
                ),
            )
        } else if !has_signature_spec(bytes@) {
            (s, Some(Err(TransferError::BadSignature)))
        } else {
            (s, Some(Ok(())))
        },
    }
}

pub open spec fn action_matches(a: TransferAction, d: Option<Result<(), TransferError>>) -> bool {
    match d {
        None => a is Retry,
        Some(Ok(())) => a is Accept,
        Some(Err(e)) => a == TransferAction::Fail(e),
    }
}

fn fail_or_retry(s: RetryState, e: TransferError) -> (r: (RetryState, TransferAction))
    ensures
        r.0 == failure_outcome(s, e).0,
        match failure_outcome(s, e).1 {
            None => r.1 is Retry,
            Some(err) => r.1 == TransferAction::Fail(err),
        },
{
    let left: u32 = if s.retries_left > 0 { s.retries_left - 1 } else { 0 };
    let n = RetryState { retries_left: left };
    if left > 0 {
        (n, TransferAction::Retry)
    } else {
        (n, TransferAction::Fail(e))
    }
}

/// Decides what follows an attempt of a download. Send errors, read errors,
/// empty bodies and bodies shorter or longer than announced use up one
/// attempt and are retried while attempts are left; an error status ends the
/// download; a body is kept only when it starts with the LAS signature.
pub fn next_transfer_step(s: RetryState, e: TransferEvent) -> (r: (RetryState, TransferAction))
    ensures
        r.0 == transfer_decision(s, e).0,
        action_matches(r.1, transfer_decision(s, e).1),
        r.1 is Accept ==> e is Received && r.1->Accept_0@ == e->Received_bytes@ && has_signature_spec(
            r.1->Accept_0@,
        ),
{
    match e {
        TransferEvent::SendFailed => fail_or_retry(s, TransferError::SendFailed),
        TransferEvent::HttpError(code) => (s, TransferAction::Fail(TransferError::HttpStatus(code))),
        TransferEvent::ReadFailed => fail_or_retry(s, TransferError::ReadFailed),
        TransferEvent::Received { bytes, expected_len } => {
            if bytes.len() == 0 {
                return fail_or_retry(s, TransferError::EmptyResponse);
            }
            match expected_len {
                Some(expected) => {
                    if bytes.len() as u64 != expected {
                        return fail_or_retry(
                            s,
                            TransferError::Incomplete { got: bytes.len() as u64, expected },
                        );
                    }
                },
                None => {},
            }
            if !has_las_signature(bytes.as_slice()) {
                return (s, TransferAction::Fail(TransferError::BadSignature));
            }
            (s, TransferAction::Accept(bytes))
        },
    }
}

/// A download makes at most [`MAX_ATTEMPTS`] attempts: from a fresh state,
/// two retriable failures lead to retries and the third ends the download.
pub proof fn lemma_retry_budget(e1: TransferError, e2: TransferError, e3: TransferError)
    ensures
        failure_outcome(RetryState { retries_left: MAX_ATTEMPTS }, e1).1 is None,
        failure_outcome(failure_outcome(RetryState { retries_left: MAX_ATTEMPTS }, e1).0, e2).1 is None,
        failure_outcome(
            failure_outcome(failure_outcome(RetryState { retries_left: MAX_ATTEMPTS }, e1).0, e2).0,
            e3,
        ).1 == Some(e3),
{
}

/// How a server answered a range request.
#[derive(Clone, Copy, Debug, PartialEq, Eq, Structural)]
pub enum RangeStatus {
    /// 206: the range was served.
    Partial,
    /// 200: ranges are not supported; use a full download.
    NotSupported,
    /// Any other status.
    Unexpected(u16),
}

/// Reads the status code of a range request.
pub fn classify_range_status(status: u16) -> (r: RangeStatus)
    ensures
        r == (if status == 206 {
            RangeStatus::Partial
        } else if status == 200 {
            RangeStatus::NotSupported
        } else {
            RangeStatus::Unexpected(status)
        }),
{
    if status == 206 {
        RangeStatus::Partial
    } else if status == 200 {
        RangeStatus::NotSupported
    } else {
        RangeStatus::Unexpected(status)
    }
}

/// The bytes `first..=last` of a file.
#[derive(Clone, Copy, Debug, PartialEq, Eq, Structural)]
pub struct ByteRange {
    pub first: u64,
    pub last: u64,
}

/// The byte ranges, both ends included, still to fetch once the header range
/// has been read.
#[derive(Clone, Copy, Debug, PartialEq, Eq, Structural)]
pub struct RangePlan {
    /// Where point data begins.
    pub offset: u64,
    /// The rest of the header, when it runs past the first range.
    pub header_tail: Option<ByteRange>,
    /// The point data, up to the last byte of the file.
    pub point_data: ByteRange,
}

#[derive(Clone, Copy, Debug, PartialEq, Eq, Structural)]
pub enum RangeError {
    /// The header range does not hold a readable header.
    Header(HeaderError),
    /// The length of the file is unknown.
    NoContentLength,
    /// The header puts point data at or past the end of the file.
    OffsetBeyondEnd { offset: u64, content_length: u64 },
}

pub open spec fn range_plan_spec(header: Seq<u8>, content_length: Option<u64>) -> Result<RangePlan, RangeError> {
    match header_of(header) {
        Err(e) => Err(RangeError::Header(e)),
        Ok(h) => match content_length {
            None => Err(RangeError::NoContentLength),
            Some(len) => {
                let offset = h.offset_to_point_data as u64;
                if offset >= len {
                    Err(RangeError::OffsetBeyondEnd { offset, content_length: len })
                } else {
                    Ok(
                        RangePlan {
                            offset,
                            header_tail: if offset <= HEADER_RANGE_END + 1 {
                                None
                            } else {
                                Some(ByteRange { first: (HEADER_RANGE_END + 1) as u64, last: (offset - 1) as u64 })
                            },
                            point_data: ByteRange { first: offset, last: (len - 1) as u64 },
                        },
                    )
                }
            },
        },
    }
}

/// Plans the rest of a range download from the first range's bytes and the
/// file length that a length probe gave.
pub fn plan_range_download(header_bytes: &[u8], content_length: Option<u64>) -> (r: Result<
    RangePlan,
    RangeError,
>)
    ensures
        r == range_plan_spec(header_bytes@, content_length),
{
    let h: LasHeaderParsed = match parse_las_header_from_slice(header_bytes) {
        Ok(h) => h,
        Err(e) => return Err(RangeError::Header(e)),
    };
    let len = match content_length {
        Some(len) => len,
        None => return Err(RangeError::NoContentLength),
    };
    let offset = h.offset_to_point_data as u64;
    if offset >= len {
        return Err(RangeError::OffsetBeyondEnd { offset, content_length: len });
    }
    let header_tail = if offset <= HEADER_RANGE_END + 1 {
        None
    } else {
        Some(ByteRange { first: HEADER_RANGE_END + 1, last: offset - 1 })
    };
    Ok(RangePlan { offset, header_tail, point_data: ByteRange { first: offset, last: len - 1 } })
}

pub open spec fn assembled(header: Seq<u8>, tail: Option<Seq<u8>>, data: Seq<u8>, offset: int) -> Seq<u8> {
    if offset <= HEADER_RANGE_END + 1 {
        header.take(if offset < header.len() { offset } else { header.len() as int }) + data
    } else {
        match tail {
            Some(t) => header + t + data,
            None => header + data,
        }
    }
}

/// The file's bytes from its range downloads: the header up to `offset` (the
/// first range, completed by the header tail when the header is longer),
/// followed by the point data.
pub fn assemble_range_download(header_bytes: Vec<u8>, tail: Option<Vec<u8>>, point_data: Vec<u8>, offset: u64) -> (r:
    Vec<u8>)
    ensures
        r@ == assembled(
            header_bytes@,
            match tail {
                Some(t) => Some(t@),
                None => None,
            },
            point_data@,
            offset as int,
        ),
{
    let mut out: Vec<u8> = header_bytes;
    if offset <= HEADER_RANGE_END + 1 {
        if (offset as u128) < (out.len() as u128) {
            out.truncate(offset as usize);
        }
    } else {
        match tail {
            Some(t) => {
                let mut t = t;
                out.append(&mut t);
            },
            None => {},
        }
    }
    let mut data = point_data;
    let ghost head = out@;
    out.append(&mut data);
    proof {
        if offset <= HEADER_RANGE_END + 1 {
            if (offset as int) < header_bytes@.len() {
                assert(head =~= header_bytes@.take(offset as int));
            } else {
                assert(head =~= header_bytes@.take(header_bytes@.len() as int));
            }
        }
    }
    out
}

/// A run failed: no file gave any point.
#[derive(Clone, Copy, Debug, PartialEq, Eq, Structural)]
pub enum LoadError {
    NoPointsLoaded,
}

pub open spec fn ok_points(r: Result<Vec<LidarPoint>, String>) -> Seq<LidarPoint> {
    match r {
        Ok(v) => v@,
        Err(_) => Seq::empty(),
    }
}

/// The points of the files that loaded, in the order of `s`.
pub open spec fn merged_points(s: Seq<Result<Vec<LidarPoint>, String>>) -> Seq<LidarPoint>
    decreases s.len(),
{
    if s.len() == 0 {
        Seq::empty()
    } else {
        merged_points(s.drop_last()) + ok_points(s.last())
    }
}

/// Concatenates the points of the files that loaded, skipping those that
/// failed; fails only when no point at all was loaded.
pub fn merge_file_results(results: Vec<Result<Vec<LidarPoint>, String>>) -> (r: Result<
    Vec<LidarPoint>,
    LoadError,
>)
    ensures
        merged_points(results@).len() == 0 ==> r == Err::<Vec<LidarPoint>, LoadError>(
            LoadError::NoPointsLoaded,
        ),
        merged_points(results@).len() > 0 ==> r is Ok && r->Ok_0@ == merged_points(results@),
{
    let mut all: Vec<LidarPoint> = Vec::new();
    let mut i: usize = 0;
    while i < results.len()
        invariant
            i <= results@.len(),
            all@ == merged_points(results@.take(i as int)),
        decreases results@.len() - i,
    {
        assert(results@.take(i + 1).drop_last() =~= results@.take(i as int));
        match &results[i] {
            Ok(v) => {
                let mut c = v.clone();
                assert(c@ == v@);
                all.append(&mut c);
            },
            Err(_) => {
                assert(all@ + Seq::<LidarPoint>::empty() =~= all@);
            },
        }
        i += 1;
    }
    assert(results@.take(results@.len() as int) =~= results@);
    if all.len() == 0 {
        Err(LoadError::NoPointsLoaded)
    } else {
        Ok(all)
    }
}

} // verus!
