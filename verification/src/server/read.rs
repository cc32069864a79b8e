//! Reading a request off a connection: the decisions between reads.
//!
//! A request is read in two phases: first until the head is complete (a
//! `\r\n\r\n` has arrived), then until the body holds as many bytes as the
//! `Content-Length` field announces. The caller performs each read and
//! hands the outcome to `next_read_action`, which says what to do next.

use vstd::prelude::*;

use crate::http::request::{
    content_length, content_length_exec, request_outcome, ParseError, Request, RequestView,
};
use crate::text::{find_blank_line, find_blank_line_exec};

verus! {

/// Why reading a request failed.
#[derive(Debug, Clone, Copy, PartialEq, Eq, Structural)]
pub enum ReadError {
    ConnectionClosed,
    InvalidRequest,
    IoError,
}

/// Where the reading of a request stands.
#[derive(Debug, Clone, Copy, PartialEq, Eq, Structural)]
pub enum ReadPhase {
    /// The head is not complete yet.
    Head,
    /// The head ends at `header_end` (just past its `\r\n\r\n`) and
    /// announces a body of `content_length` bytes.
    Body { header_end: usize, content_length: usize },
}

/// What to do after a read.
#[derive(Debug, Clone, Copy, PartialEq, Eq, Structural)]
pub enum ReadAction {
    /// Read again, now in the given phase.
    Continue(ReadPhase),
    /// The request is complete.
    Done,
    /// Give up with the given error.
    Fail(ReadError),
}

/// Where the body starts and how long it is, for a buffer holding a complete
/// head: a head that does not parse, or whose `Content-Length` is no number,
/// makes the request invalid.
pub open spec fn body_plan(request: Seq<u8>) -> Result<(int, nat), ReadError> {
    match request_outcome(request, false) {
        Some(Ok(head)) => match content_length(head.headers) {
            Some(n) => Ok((find_blank_line(request).unwrap() + 4, n)),
            None => Err(ReadError::InvalidRequest),
        },
        _ => Err(ReadError::InvalidRequest),
    }
}

/// The step after a read in `phase`. `request` is everything read so far,
/// the new bytes included; `read` is how many bytes the read gave, `None`
/// when it failed. A failed read makes the request invalid. While the head
/// is incomplete, an empty read on an empty buffer means the peer closed
/// the connection, and reading goes on until `\r\n\r\n` arrives. Then, and
/// after each further read, reading stops once the body is complete; an
/// empty read before that makes the request invalid.
pub open spec fn next_action(phase: ReadPhase, request: Seq<u8>, read: Option<usize>) -> ReadAction {
    match read {
        None => ReadAction::Fail(ReadError::InvalidRequest),
        Some(n) => match phase {
            ReadPhase::Head => if n == 0 && request.len() == 0 {
                ReadAction::Fail(ReadError::ConnectionClosed)
            } else if find_blank_line(request) is None {
                ReadAction::Continue(ReadPhase::Head)
            } else {
                match body_plan(request) {
                    Err(e) => ReadAction::Fail(e),
                    Ok((header_end, length)) => if request.len() - header_end >= length {
                        ReadAction::Done
                    } else {
                        ReadAction::Continue(
                            ReadPhase::Body {
                                header_end: header_end as usize,
                                content_length: length as usize,
                            },
                        )
                    },
                }
            },
            ReadPhase::Body { header_end, content_length } => if n == 0 {
                ReadAction::Fail(ReadError::InvalidRequest)
            } else if request.len() - header_end >= content_length {
                ReadAction::Done
            } else {
                ReadAction::Continue(phase)
            },
        },
    }
}

/// The inputs on which `next_action` can be taken: reading a complete head
/// must not be one where the head parser panics, and a body phase must
/// start within what was read.
pub open spec fn can_step(phase: ReadPhase, request: Seq<u8>) -> bool {
    match phase {
        ReadPhase::Head => find_blank_line(request) is Some ==> request_outcome(request, false) is Some,
        ReadPhase::Body { header_end, .. } => header_end <= request.len(),
    }
}

/// Decides what to do after a read; see `next_action`.
pub fn next_read_action(phase: ReadPhase, request: &[u8], read: Option<usize>) -> (r: ReadAction)
    requires
        can_step(phase, request@),
    ensures
        r == next_action(phase, request@, read),
{
    let n = match read {
        None => return ReadAction::Fail(ReadError::InvalidRequest),
        Some(n) => n,
    };
    match phase {
        ReadPhase::Head => {
            if n == 0 && request.len() == 0 {
                return ReadAction::Fail(ReadError::ConnectionClosed);
            }
            let p = match find_blank_line_exec(request) {
                None => return ReadAction::Continue(ReadPhase::Head),
                Some(p) => p,
            };
            let head = match Request::header_parser(request) {
                Ok(h) => h,
                Err(_) => return ReadAction::Fail(ReadError::InvalidRequest),
            };
            let length = match content_length_exec(&head.headers) {
                Some(l) => l,
                None => return ReadAction::Fail(ReadError::InvalidRequest),
            };
            proof {
                crate::text::lemma_find_blank_line_from(request@, 0);
                assert(crate::text::blank_line_at(request@, p as int));
            }
            let len = request.len();
            let header_end = p + 4;
            if len - header_end >= length {
                ReadAction::Done
            } else {
                ReadAction::Continue(ReadPhase::Body { header_end, content_length: length })
            }
        },
        ReadPhase::Body { header_end, content_length } => {
            if n == 0 {
                ReadAction::Fail(ReadError::InvalidRequest)
            } else if request.len() - header_end >= content_length {
                ReadAction::Done
            } else {
                ReadAction::Continue(phase)
            }
        },
    }
}

/// After a read that brings in a complete head, the request is done
/// exactly when the whole announced body has arrived too: the head ends
/// with the first `\r\n\r\n` at `p`, reads as `head`, and announces `n`
/// bytes. When `p + 4 + n` bytes are there the action is `Done`; otherwise
/// reading goes on, waiting for the body that starts at `p + 4` and is `n`
/// bytes long.
pub proof fn lemma_head_read_decides(request: Seq<u8>, read: usize, head: RequestView, p: int, n: nat)
    requires
        request.len() <= usize::MAX,
        find_blank_line(request) == Some(p),
        request_outcome(request, false) == Some(Ok::<RequestView, ParseError>(head)),
        content_length(head.headers) == Some(n),
    ensures
        request.len() >= p + 4 + n ==> next_action(ReadPhase::Head, request, Some(read))
            == ReadAction::Done,
        request.len() < p + 4 + n ==> next_action(ReadPhase::Head, request, Some(read))
            == ReadAction::Continue(
            ReadPhase::Body { header_end: (p + 4) as usize, content_length: n as usize },
        ),
{
    crate::text::lemma_find_blank_line_from(request, 0);
}

/// In the body phase, a read that brings bytes ends the reading exactly
/// when the body is complete: `Done` once `content_length` bytes stand after
/// `header_end`, another read before that.
pub proof fn lemma_body_read_decides(request: Seq<u8>, read: usize, header_end: usize, length: usize)
    requires
        read > 0,
    ensures
        request.len() - header_end >= length ==> next_action(
            ReadPhase::Body { header_end, content_length: length },
            request,
            Some(read),
        ) == ReadAction::Done,
        request.len() - header_end < length ==> next_action(
            ReadPhase::Body { header_end, content_length: length },
            request,
            Some(read),
        ) == ReadAction::Continue(ReadPhase::Body { header_end, content_length: length }),
{
}

/// Reading never asks for more once a request is complete: whenever the
/// step after a read is to read on in the body phase, the body that phase
/// waits for has not fully arrived.
pub proof fn lemma_continue_only_when_incomplete(phase: ReadPhase, request: Seq<u8>, read: Option<usize>)
    requires
        request.len() <= usize::MAX,
    ensures
        next_action(phase, request, read) matches ReadAction::Continue(
            ReadPhase::Body { header_end, content_length },
        ) ==> request.len() - header_end < content_length,
{
    crate::text::lemma_find_blank_line_from(request, 0);
}

} // verus!
