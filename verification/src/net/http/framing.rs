//! The per-direction streaming HTTP/1.1 framer: it buffers and rewrites the
//! header, then forwards the body as a slice of the fed input. Built on the
//! parent module's authority parser.

use crate::bytes;
use crate::net::addr::{append_endpoint, endpoint_text, SocketAddrV4};
use crate::net::http::{
    ascii_bytes, authority_of, parse_authority, strip_prefix_ignore_ascii_case, stripped, text,
    Authority,
};
use vstd::prelude::*;

pub mod streaming;

verus! {

/// The header-block byte cap, the blank line with it: a header that has not
/// terminated by this point is refused, so that a peer cannot grow the owner's buffer unbounded.
pub const MAX_HEADER: usize = 2048;

/// The byte cap of a chunk-size line, its extensions and CRLF with it.
pub const MAX_CHUNK_LINE: usize = 256;

/// The byte cap of a trailer field line, its CRLF with it: looser than that of a
/// chunk-size line, since trailers carry header-like field values.
pub const MAX_TRAILER_LINE: usize = 1024;

/// CRLF, the HTTP line terminator.
pub const CRLF: [u8; 2] = [0x0d, 0x0a];

/// The blank line that ends a header block.
pub const HEADER_TERMINATOR: [u8; 4] = [0x0d, 0x0a, 0x0d, 0x0a];

/// Which side of the splice a framer parses: the start line differs, and only a
/// response can be close-delimited.
#[derive(Clone, Copy, Debug, PartialEq, Eq, Structural)]
pub enum Kind {
    Request,
    Response,
}

/// The body framing that the header determined. `Header` doubles as "no body:
/// the message ends at the blank line".
#[derive(Clone, Copy, Debug, PartialEq, Eq, Structural)]
pub enum Phase {
    Header,
    BodyContentLength,
    BodyChunked,
    /// After the zero-size chunk: trailer field lines until the blank line.
    BodyChunkedTrailers,
    BodyCloseDelimited,
}

/// A malformed or over-cap message; the proxy maps any variant to
/// drop-and-close.
#[derive(Clone, Copy, Debug, PartialEq, Eq, Structural)]
pub enum FramingError {
    /// A header block that never terminated within [`MAX_HEADER`] bytes.
    HeaderTooLong,
    /// A `Content-Length` value that is not a bare non-negative integer.
    MalformedContentLength,
    /// A chunk-size line that is not a hex integer.
    MalformedChunkSize,
    /// A chunk-size line that never terminated within [`MAX_CHUNK_LINE`] bytes.
    ChunkLineTooLong,
    /// A trailer field line that never terminated within [`MAX_TRAILER_LINE`]
    /// bytes.
    TrailerLineTooLong,
}

/// Which authority-bearing header a line is, with the endpoint it named.
#[derive(Clone, Copy, Debug)]
pub enum AuthorityHeader {
    Host(SocketAddrV4),
    ApplicationUrl(SocketAddrV4),
    Location(SocketAddrV4),
}

impl PartialEq for AuthorityHeader {
    fn eq(&self, other: &Self) -> (r: bool) {
        match (self, other) {
            (AuthorityHeader::Host(a), AuthorityHeader::Host(b)) => *a == *b,
            (AuthorityHeader::ApplicationUrl(a), AuthorityHeader::ApplicationUrl(b)) => *a == *b,
            (AuthorityHeader::Location(a), AuthorityHeader::Location(b)) => *a == *b,
            _ => false,
        }
    }
}

impl vstd::std_specs::cmp::PartialEqSpecImpl for AuthorityHeader {
    open spec fn obeys_eq_spec() -> bool {
        true
    }

    open spec fn eq_spec(&self, other: &Self) -> bool {
        *self == *other
    }
}

impl Eq for AuthorityHeader {

}

/// Where a framer rewrites each authority header to: one optional target per
/// kind of header, `None` leaving that kind unchanged.
#[derive(Clone, Copy, Debug)]
pub struct RewritePolicy {
    pub host: Option<SocketAddrV4>,
    pub application_url: Option<SocketAddrV4>,
    pub location: Option<SocketAddrV4>,
}

impl RewritePolicy {
    /// The address that `header` is rewritten to, or `None` to leave it.
    pub open spec fn spec_target(self, header: AuthorityHeader) -> Option<SocketAddrV4> {
        match header {
            AuthorityHeader::Host(_) => self.host,
            AuthorityHeader::ApplicationUrl(_) => self.application_url,
            AuthorityHeader::Location(_) => self.location,
        }
    }

    /// The address that `header` is rewritten to under this policy, or `None`
    /// to leave it unchanged.
    pub fn target(&self, header: AuthorityHeader) -> (r: Option<SocketAddrV4>)
        ensures
            r == self.spec_target(header),
    {
        match header {
            AuthorityHeader::Host(_) => self.host,
            AuthorityHeader::ApplicationUrl(_) => self.application_url,
            AuthorityHeader::Location(_) => self.location,
        }
    }
}

/// The length of the header block at the front of `input`, its terminating
/// blank line with it, or `None` where the blank line has not arrived.
pub open spec fn header_end(input: Seq<u8>) -> Option<int> {
    match bytes::first_occurrence(input, HEADER_TERMINATOR@, 0) {
        Some(i) => Some(i + 4),
        None => None,
    }
}

/// The offset of the first CRLF in `s`.
pub open spec fn crlf_at(s: Seq<u8>) -> Option<int> {
    bytes::first_occurrence(s, CRLF@, 0)
}

/// The length that a chunk-size line writes in hex, any `;`-delimited
/// extensions dropped.
pub open spec fn chunk_size(line: Seq<u8>) -> Option<int> {
    let hex = match bytes::first_index(line, 0x3b, 0) {
        Some(semi) => line.take(semi),
        None => line,
    };
    bytes::unsigned_value(bytes::trimmed(hex), 16, usize::MAX as int)
}

/// The status code of a response start line, or 0 where it has none: the second
/// of its space-separated fields.
pub open spec fn status_code(line: Seq<u8>) -> u16 {
    let fields = bytes::split_on(line, 0x20);
    if fields.len() >= 2 {
        match bytes::unsigned_value(fields[1], 10, 65535) {
            Some(v) => v as u16,
            None => 0,
        }
    } else {
        0
    }
}

/// The integer that a `Content-Length` value writes: a run of digits and nothing
/// else, no sign, white space around it tolerated.
pub open spec fn content_length(value: Seq<u8>) -> Option<int> {
    let run = bytes::trimmed(value);
    if run.len() > 0 && bytes::all_digits(run, 10) && bytes::digits_value(run, 10) <= usize::MAX {
        Some(bytes::digits_value(run, 10))
    } else {
        None
    }
}

/// Whether a `Transfer-Encoding` value's coding list has `chunked` in it.
pub open spec fn has_chunked(value: Seq<u8>) -> bool {
    exists|i: int|
        0 <= i < bytes::split_on(value, 0x2c).len() && is_chunked_coding(
            #[trigger] bytes::split_on(value, 0x2c)[i],
        )
}

/// Whether one coding of a coding list is `chunked`.
pub open spec fn is_chunked_coding(coding: Seq<u8>) -> bool {
    bytes::same_ignoring_case(bytes::trimmed(coding), text("chunked"@))
}

/// The authority in `value`, the rest of `line` behind a header name.
pub open spec fn value_authority(line: Seq<u8>, value: Seq<u8>, bare: bool) -> Option<
    (int, Authority),
> {
    let trimmed = bytes::trimmed_start(value);
    match authority_of(trimmed, bare) {
        Some(a) => Some((line.len() - trimmed.len(), a)),
        None => None,
    }
}

/// The authority that `line` carries, where it is a `Host`, `Application-URL` or
/// `Location` header with one.
pub open spec fn line_authority(line: Seq<u8>) -> Option<(int, Authority, AuthorityHeader)> {
    match stripped(line, text("Host:"@)) {
        Some(v) => match value_authority(line, v, true) {
            Some((off, a)) => Some((off, a, AuthorityHeader::Host(a.endpoint))),
            None => None,
        },
        None => match stripped(line, text("Application-URL:"@)) {
            Some(v) => match value_authority(line, v, false) {
                Some((off, a)) => Some((off, a, AuthorityHeader::ApplicationUrl(a.endpoint))),
                None => None,
            },
            None => match stripped(line, text("Location:"@)) {
                Some(v) => match value_authority(line, v, false) {
                    Some((off, a)) => Some((off, a, AuthorityHeader::Location(a.endpoint))),
                    None => None,
                },
                None => None,
            },
        },
    }
}

/// `line` with its authority replaced as `policy` says, and its CRLF.
pub open spec fn rewritten(line: Seq<u8>, policy: RewritePolicy) -> Seq<u8> {
    match line_authority(line) {
        Some((off, a, h)) => match policy.spec_target(h) {
            Some(t) => line.take(off + a.offset) + endpoint_text(t) + line.skip(
                off + a.offset + a.len,
            ) + CRLF@,
            None => line + CRLF@,
        },
        None => line + CRLF@,
    }
}

/// What the header fields scanned so far say.
pub struct Scan {
    pub out: Seq<u8>,
    pub content_length: Option<int>,
    pub chunked: bool,
    pub authority: Option<AuthorityHeader>,
}

/// The scan after one more field line.
pub open spec fn scan_line(acc: Scan, line: Seq<u8>, policy: RewritePolicy) -> Result<
    Scan,
    FramingError,
> {
    match stripped(line, text("Content-Length:"@)) {
        Some(v) => match content_length(v) {
            Some(n) => Ok(Scan { out: acc.out + line + CRLF@, content_length: Some(n), ..acc }),
            None => Err(FramingError::MalformedContentLength),
        },
        None => match stripped(line, text("Transfer-Encoding:"@)) {
            Some(v) => Ok(
                Scan { out: acc.out + line + CRLF@, chunked: acc.chunked || has_chunked(v), ..acc },
            ),
            None => Ok(
                Scan {
                    out: acc.out + rewritten(line, policy),
                    authority: match line_authority(line) {
                        Some((_, _, h)) => Some(h),
                        None => acc.authority,
                    },
                    ..acc
                },
            ),
        },
    }
}

/// The scan of a list of lines, of which the first is the start line.
pub open spec fn scan_lines(lines: Seq<Seq<u8>>, policy: RewritePolicy) -> Result<
    Scan,
    FramingError,
>
    decreases lines.len(),
{
    if lines.len() == 0 {
        Ok(
            Scan {
                out: Seq::empty(),
                content_length: None,
                chunked: false,
                authority: None,
            },
        )
    } else if lines.len() == 1 {
        Ok(
            Scan {
                out: lines[0] + CRLF@,
                content_length: None,
                chunked: false,
                authority: None,
            },
        )
    } else {
        match scan_lines(lines.drop_last(), policy) {
            Ok(acc) => scan_line(acc, lines.last(), policy),
            Err(e) => Err(e),
        }
    }
}

/// The lines of a header block, their CRLFs left out.
pub open spec fn lines_of(block: Seq<u8>) -> Seq<Seq<u8>>
    decreases block.len(),
{
    if block.len() == 0 {
        Seq::empty()
    } else {
        match crlf_at(block) {
            Some(i) if 0 <= i && i + 2 <= block.len() => seq![block.take(i)] + lines_of(
                block.skip(i + 2),
            ),
            _ => seq![block],
        }
    }
}

/// Where a framer stands within a message's body.
pub struct BodyState {
    pub phase: Phase,
    pub body_remaining: int,
    pub chunk_remaining: int,
}

/// The status that decides the body framing of a message with these lines.
pub open spec fn message_status(kind: Kind, lines: Seq<Seq<u8>>) -> u16 {
    if kind is Response && lines.len() > 0 {
        status_code(lines[0])
    } else {
        0
    }
}

/// The body state behind a header: a `1xx`, `204` or `304` response has no body
/// whatever its headers say; else chunked, else a `Content-Length` run, else a
/// request has no body and a response is close-delimited.
pub open spec fn body_state(
    kind: Kind,
    status: u16,
    content_length: Option<int>,
    chunked: bool,
) -> BodyState {
    let bodyless = kind is Response && (100 <= status <= 199 || status == 204 || status == 304);
    if bodyless {
        BodyState { phase: Phase::Header, body_remaining: 0, chunk_remaining: 0 }
    } else if chunked {
        BodyState { phase: Phase::BodyChunked, body_remaining: 0, chunk_remaining: 0 }
    } else {
        match content_length {
            Some(n) => if n == 0 {
                BodyState { phase: Phase::Header, body_remaining: 0, chunk_remaining: 0 }
            } else {
                BodyState { phase: Phase::BodyContentLength, body_remaining: n, chunk_remaining: 0 }
            },
            None => match kind {
                Kind::Request => BodyState {
                    phase: Phase::Header,
                    body_remaining: 0,
                    chunk_remaining: 0,
                },
                Kind::Response => BodyState {
                    phase: Phase::BodyCloseDelimited,
                    body_remaining: 0,
                    chunk_remaining: 0,
                },
            },
        }
    }
}

/// How far a walk over body bytes came: the state and position it stopped at,
/// and the error that stopped it, if one did.
pub struct Walk {
    pub state: BodyState,
    pub pos: int,
    pub error: Option<FramingError>,
}

pub open spec fn min(a: int, b: int) -> int {
    if a <= b {
        a
    } else {
        b
    }
}

/// The longest chunk whose data and terminating CRLF can be counted together; a
/// longer one is malformed.
pub open spec fn max_chunk() -> int {
    usize::MAX - 2
}

/// Walk the body bytes of `input` from `pos`: to the message boundary, the end
/// of the input, or an incomplete chunk-size or trailer line.
pub open spec fn walk(state: BodyState, input: Seq<u8>, pos: int) -> Walk
    decreases input.len() - pos,
{
    if pos < 0 || pos >= input.len() {
        Walk { state, pos, error: None }
    } else {
        match state.phase {
            Phase::Header => Walk { state, pos, error: None },
            Phase::BodyContentLength => {
                let take = min(state.body_remaining, input.len() - pos);
                let left = state.body_remaining - take;
                Walk {
                    state: BodyState {
                        phase: if left == 0 {
                            Phase::Header
                        } else {
                            Phase::BodyContentLength
                        },
                        body_remaining: left,
                        ..state
                    },
                    pos: pos + take,
                    error: None,
                }
            },
            Phase::BodyCloseDelimited => Walk { state, pos: input.len() as int, error: None },
            Phase::BodyChunked => if state.chunk_remaining > 0 {
                let take = min(state.chunk_remaining, input.len() - pos);
                let next = BodyState { chunk_remaining: state.chunk_remaining - take, ..state };
                if next.chunk_remaining > 0 {
                    Walk { state: next, pos: pos + take, error: None }
                } else {
                    walk(next, input, pos + take)
                }
            } else {
                match crlf_at(input.skip(pos)) {
                    Some(rel) if rel >= 0 && pos + rel + 2 <= input.len() => if rel + 2
                        > MAX_CHUNK_LINE {
                        Walk { state, pos, error: Some(FramingError::ChunkLineTooLong) }
                    } else {
                        match chunk_size(input.subrange(pos, pos + rel)) {
                            Some(size) if size <= max_chunk() => if size == 0 {
                                walk(
                                    BodyState { phase: Phase::BodyChunkedTrailers, ..state },
                                    input,
                                    pos + rel + 2,
                                )
                            } else {
                                walk(
                                    BodyState { chunk_remaining: size + 2, ..state },
                                    input,
                                    pos + rel + 2,
                                )
                            },
                            _ => Walk {
                                state,
                                pos,
                                error: Some(FramingError::MalformedChunkSize),
                            },
                        }
                    },
                    _ => Walk {
                        state,
                        pos,
                        error: if input.len() - pos > MAX_CHUNK_LINE {
                            Some(FramingError::ChunkLineTooLong)
                        } else {
                            None
                        },
                    },
                }
            },
            Phase::BodyChunkedTrailers => match crlf_at(input.skip(pos)) {
                Some(rel) if rel >= 0 && pos + rel + 2 <= input.len() => if rel + 2
                    > MAX_TRAILER_LINE {
                    Walk { state, pos, error: Some(FramingError::TrailerLineTooLong) }
                } else {
                    walk(
                        BodyState {
                            phase: if rel == 0 {
                                Phase::Header
                            } else {
                                Phase::BodyChunkedTrailers
                            },
                            ..state
                        },
                        input,
                        pos + rel + 2,
                    )
                },
                _ => Walk {
                    state,
                    pos,
                    error: if input.len() - pos > MAX_TRAILER_LINE {
                        Some(FramingError::TrailerLineTooLong)
                    } else {
                        None
                    },
                },
            },
        }
    }
}

/// The outcome of feeding a framer: what goes out, how much of the input was
/// taken, and the body state that it left.
pub struct Fed {
    pub header: Seq<u8>,
    pub body_start: int,
    pub consumed: int,
    pub authority: Option<AuthorityHeader>,
    pub state: BodyState,
    pub error: Option<FramingError>,
}

/// The outcome of walking body bytes behind a header of `header_len` bytes.
pub open spec fn fed_body(
    state: BodyState,
    input: Seq<u8>,
    start: int,
    header: Seq<u8>,
    authority: Option<AuthorityHeader>,
) -> Fed {
    let w = walk(state, input, start);
    Fed {
        header,
        body_start: start,
        consumed: w.pos,
        authority,
        state: w.state,
        error: w.error,
    }
}

/// The outcome of feeding `input` to a framer of this kind and policy whose body
/// state is `state`.
pub open spec fn fed(kind: Kind, policy: RewritePolicy, state: BodyState, input: Seq<u8>) -> Fed {
    if state.phase is Header {
        match header_end(input) {
            None => Fed {
                header: Seq::empty(),
                body_start: 0,
                consumed: 0,
                authority: None,
                state,
                error: if input.len() > MAX_HEADER {
                    Some(FramingError::HeaderTooLong)
                } else {
                    None
                },
            },
            Some(end) => if end > MAX_HEADER {
                Fed {
                    header: Seq::empty(),
                    body_start: 0,
                    consumed: 0,
                    authority: None,
                    state,
                    error: Some(FramingError::HeaderTooLong),
                }
            } else {
                let lines = lines_of(input.take(end));
                match scan_lines(lines, policy) {
                    Err(e) => Fed {
                        header: Seq::empty(),
                        body_start: 0,
                        consumed: 0,
                        authority: None,
                        state,
                        error: Some(e),
                    },
                    Ok(scan) => fed_body(
                        body_state(
                            kind,
                            message_status(kind, lines),
                            scan.content_length,
                            scan.chunked,
                        ),
                        input,
                        end,
                        scan.out,
                        scan.authority,
                    ),
                }
            },
        }
    } else {
        fed_body(state, input, 0, Seq::empty(), None)
    }
}

/// What one pattern search says of the bytes it found.
pub proof fn lemma_first_occurrence(s: Seq<u8>, pattern: Seq<u8>, from: int)
    requires
        0 <= from,
    ensures
        match bytes::first_occurrence(s, pattern, from) {
            Some(i) => {
                &&& from <= i
                &&& i + pattern.len() <= s.len()
                &&& s.subrange(i, i + pattern.len()) == pattern
            },
            None => true,
        },
    decreases s.len() - from + 1,
{
    if from + pattern.len() <= s.len() && s.subrange(from, from + pattern.len()) != pattern {
        lemma_first_occurrence(s, pattern, from + 1);
    }
}

/// The first offset at which `pattern` occurs in `s`.
fn find_pattern(s: &[u8], pattern: &[u8]) -> (r: Option<usize>)
    ensures
        match r {
            Some(i) => bytes::first_occurrence(s@, pattern@, 0) == Some(i as int) && i
                + pattern@.len() <= s@.len(),
            None => bytes::first_occurrence(s@, pattern@, 0) is None,
        },
{
    let n: usize = s.len();
    let m: usize = pattern.len();
    if m > n {
        return None;
    }
    let mut i: usize = 0;
    while i <= n - m
        invariant
            n == s@.len(),
            m == pattern@.len(),
            m <= n,
            i <= n - m + 1,
            bytes::first_occurrence(s@, pattern@, 0) == bytes::first_occurrence(
                s@,
                pattern@,
                i as int,
            ),
        decreases n - m + 1 - i,
    {
        let window = vstd::slice::slice_subrange(s, i, i + m);
        if bytes::bytes_eq(window, pattern) {
            return Some(i);
        }
        if i == n - m {
            assert(bytes::first_occurrence(s@, pattern@, i + 1) is None);
            return None;
        }
        i += 1;
    }
    None
}

/// The length of the header block in `input` (up to and with the terminating
/// blank line), or `None` if the blank line has not arrived yet.
pub fn find_header_end(input: &[u8]) -> (r: Option<usize>)
    ensures
        match r {
            Some(end) => header_end(input@) == Some(end as int) && end <= input@.len(),
            None => header_end(input@) is None,
        },
{
    match find_pattern(input, &HEADER_TERMINATOR) {
        Some(i) => {
            let n: usize = input.len();
            Some(i + 4)
        },
        None => None,
    }
}

/// The byte offset of the first CRLF in `s`, or `None`.
pub fn find_crlf(s: &[u8]) -> (r: Option<usize>)
    ensures
        match r {
            Some(i) => crlf_at(s@) == Some(i as int) && i + 2 <= s@.len(),
            None => crlf_at(s@) is None,
        },
{
    find_pattern(s, &CRLF)
}

/// Parse a chunk-size line's hex length, dropping any `;`-delimited chunk
/// extensions.
pub fn parse_chunk_size(line: &[u8]) -> (r: Result<usize, FramingError>)
    ensures
        match r {
            Ok(n) => chunk_size(line@) == Some(n as int),
            Err(e) => chunk_size(line@) is None && e == FramingError::MalformedChunkSize,
        },
{
    let hex = match bytes::find_byte(line, 0x3b) {
        Some(semi) => {
            let head = vstd::slice::slice_subrange(line, 0, semi);
            assert(head@ =~= line@.take(semi as int));
            head
        },
        None => line,
    };
    match bytes::parse_unsigned(bytes::trim_ascii(hex), 16, usize::MAX as u64) {
        Some(v) => Ok(v as usize),
        None => Err(FramingError::MalformedChunkSize),
    }
}

/// The status code from a response start line (`HTTP/1.1 200 OK` gives 200), or 0
/// if it has none: 0 is no known bodyless status, so it falls through to the
/// header-driven framing.
pub fn parse_status_code(line: &[u8]) -> (r: u16)
    ensures
        r == status_code(line@),
{
    let n: usize = line.len();
    match bytes::find_byte(line, 0x20) {
        None => 0,
        Some(i) => {
            let rest = vstd::slice::slice_subrange(line, i + 1, n);
            assert(rest@ =~= line@.skip(i + 1));
            let field = match bytes::find_byte(rest, 0x20) {
                Some(j) => {
                    let head = vstd::slice::slice_subrange(rest, 0, j);
                    assert(head@ =~= rest@.take(j as int));
                    head
                },
                None => rest,
            };
            assert(bytes::split_on(rest@, 0x20)[0] == field@);
            assert(bytes::split_on(rest@, 0x20).len() >= 1);
            assert(bytes::split_on(line@, 0x20)[1] == field@);
            match bytes::parse_unsigned(field, 10, 65535) {
                Some(v) => v as u16,
                None => 0,
            }
        },
    }
}

/// Parse a `Content-Length` value: surrounding white space is tolerated, but the
/// rest must be a bare integer, so that `12abc` is rejected and not cut to 12, and
/// `+12` is rejected too.
pub fn parse_content_length(value: &[u8]) -> (r: Result<usize, FramingError>)
    ensures
        match r {
            Ok(n) => content_length(value@) == Some(n as int),
            Err(e) => content_length(value@) is None && e == FramingError::MalformedContentLength,
        },
{
    let run = bytes::trim_ascii(value);
    if run.len() > 0 && run[0] == 0x2b {
        assert(bytes::digit(run@[0], 10) is None);
        return Err(FramingError::MalformedContentLength);
    }
    match bytes::parse_unsigned(run, 10, usize::MAX as u64) {
        Some(v) => Ok(v as usize),
        None => Err(FramingError::MalformedContentLength),
    }
}

/// Whether a `Transfer-Encoding` value's coding list has `chunked` in it
/// (case-insensitive), as `gzip, chunked` does.
pub fn value_has_chunked(value: &[u8]) -> (r: bool)
    ensures
        r == has_chunked(value@),
{
    proof {
        reveal_strlit("chunked");
    }
    let chunked = ascii_bytes("chunked");
    let mut rest: &[u8] = value;
    let ghost mut done: Seq<Seq<u8>> = Seq::empty();
    loop
        invariant
            chunked@ == text("chunked"@),
            bytes::split_on(value@, 0x2c) =~= done + bytes::split_on(rest@, 0x2c),
            forall|i: int| 0 <= i < done.len() ==> !is_chunked_coding(#[trigger] done[i]),
        decreases rest@.len(),
    {
        let n: usize = rest.len();
        match bytes::find_byte(rest, 0x2c) {
            Some(comma) => {
                let head = vstd::slice::slice_subrange(rest, 0, comma);
                let next = vstd::slice::slice_subrange(rest, comma + 1, n);
                proof {
                    assert(head@ =~= rest@.take(comma as int));
                    assert(next@ =~= rest@.skip(comma + 1));
                    assert(bytes::split_on(value@, 0x2c)[done.len() as int] == head@);
                }
                if bytes::eq_ignore_ascii_case(bytes::trim_ascii(head), chunked) {
                    assert(is_chunked_coding(bytes::split_on(value@, 0x2c)[done.len() as int]));
                    return true;
                }
                proof {
                    done = done.push(head@);
                }
                rest = next;
            },
            None => {
                assert(bytes::split_on(value@, 0x2c)[done.len() as int] == rest@);
                let r = bytes::eq_ignore_ascii_case(bytes::trim_ascii(rest), chunked);
                proof {
                    if r {
                        assert(is_chunked_coding(bytes::split_on(value@, 0x2c)[done.len() as int]));
                    } else if has_chunked(value@) {
                        let i = choose|i: int|
                            0 <= i < bytes::split_on(value@, 0x2c).len() && is_chunked_coding(
                                #[trigger] bytes::split_on(value@, 0x2c)[i],
                            );
                        if i < done.len() {
                            assert(!is_chunked_coding(done[i]));
                        }
                    }
                }
                return r;
            },
        }
    }
}

/// If `line` is a `Host` / `Application-URL` / `Location` header, parse its
/// authority: the value's offset within `line`, the [`Authority`] (its own offset
/// relative to that value), and the header it was.
pub fn rewritable_authority(line: &[u8]) -> (r: Option<(usize, Authority, AuthorityHeader)>)
    ensures
        match r {
            Some((off, a, h)) => {
                &&& line_authority(line@) == Some((off as int, a, h))
                &&& off + a.offset + a.len <= line@.len()
            },
            None => line_authority(line@) is None,
        },
{
    proof {
        reveal_strlit("Host:");
        reveal_strlit("Application-URL:");
        reveal_strlit("Location:");
    }
    let n: usize = line.len();
    let (value, which): (&[u8], u8) = match strip_prefix_ignore_ascii_case(
        line,
        ascii_bytes("Host:"),
    ) {
        Some(v) => (v, 0),
        None => match strip_prefix_ignore_ascii_case(line, ascii_bytes("Application-URL:")) {
            Some(v) => (v, 1),
            None => match strip_prefix_ignore_ascii_case(line, ascii_bytes("Location:")) {
                Some(v) => (v, 2),
                None => {
                    return None;
                },
            },
        },
    };
    let trimmed = bytes::trim_ascii_start(value);
    let off: usize = n - trimmed.len();
    match parse_authority(trimmed, which == 0) {
        None => None,
        Some(a) => {
            let header = if which == 0 {
                AuthorityHeader::Host(a.endpoint)
            } else if which == 1 {
                AuthorityHeader::ApplicationUrl(a.endpoint)
            } else {
                AuthorityHeader::Location(a.endpoint)
            };
            Some((off, a, header))
        },
    }
}

/// Append `addr` as `host:port` text.
fn append_authority(buf: &mut Vec<u8>, addr: SocketAddrV4)
    ensures
        final(buf)@ == old(buf)@ + endpoint_text(addr),
{
    append_endpoint(buf, addr);
}

/// Append the bytes of `s` to `buf`.
fn append_bytes(buf: &mut Vec<u8>, s: &[u8])
    ensures
        final(buf)@ == old(buf)@ + s@,
{
    buf.extend_from_slice(s);
    assert(buf@ =~= old(buf)@ + s@);
}

/// One feed's forwardable output: the rewritten `header` (empty while a body
/// streams across feeds), the `body` (a slice of the fed input, possibly empty),
/// and how many fed bytes to drop. `consumed == 0` means an incomplete header:
/// read more and feed again. `authority` is the authority header this message
/// carried, with the endpoint it named before the rewrite, reported on the feed
/// that completes the header.
pub struct Framed<'a> {
    pub header: &'a [u8],
    pub body: &'a [u8],
    pub consumed: usize,
    pub authority: Option<AuthorityHeader>,
}

/// Per-direction incremental HTTP/1.1 framing with an authority-header rewrite.
/// It buffers only the header, copied into a scratch so that it can be rewritten,
/// and forwards the body as a slice of the fed input.
pub struct HttpFraming {
    kind: Kind,
    rewrite: RewritePolicy,
    phase: Phase,
    header: Vec<u8>,
    body_remaining: usize,
    chunk_remaining: usize,
}

impl HttpFraming {
    /// The side of the splice that the framer parses.
    pub closed spec fn spec_kind(self) -> Kind {
        self.kind
    }

    /// The framer's rewrite policy.
    pub closed spec fn policy(self) -> RewritePolicy {
        self.rewrite
    }

    /// The framer's scratch: the last header it rewrote.
    pub closed spec fn scratch(self) -> Seq<u8> {
        self.header@
    }

    /// Where the framer stands within a message.
    pub closed spec fn state(self) -> BodyState {
        BodyState {
            phase: self.phase,
            body_remaining: self.body_remaining as int,
            chunk_remaining: self.chunk_remaining as int,
        }
    }

    /// A framer for one direction, rewriting authority headers per `rewrite`.
    pub fn new(kind: Kind, rewrite: RewritePolicy) -> (r: Self)
        ensures
            r.spec_kind() == kind,
            r.policy() == rewrite,
            r.scratch() == Seq::<u8>::empty(),
            r.state() == (BodyState {
                phase: Phase::Header,
                body_remaining: 0,
                chunk_remaining: 0,
            }),
    {
        HttpFraming {
            kind,
            rewrite,
            phase: Phase::Header,
            header: Vec::new(),
            body_remaining: 0,
            chunk_remaining: 0,
        }
    }

    /// The last header the framer rewrote.
    pub fn header(&self) -> (r: &[u8])
        ensures
            r@ == self.scratch(),
    {
        self.header.as_slice()
    }

    /// The framer's phase.
    pub fn phase(&self) -> (r: Phase)
        ensures
            r == self.state().phase,
    {
        self.phase
    }

    /// The bytes left of a `Content-Length` body.
    pub fn body_remaining(&self) -> (r: usize)
        ensures
            r == self.state().body_remaining,
    {
        self.body_remaining
    }

    /// Append `line` and its CRLF to the scratch verbatim.
    fn copy_line(&mut self, line: &[u8])
        ensures
            final(self).scratch() == old(self).scratch() + line@ + CRLF@,
            final(self).spec_kind() == old(self).spec_kind(),
            final(self).policy() == old(self).policy(),
            final(self).state() == old(self).state(),
    {
        append_bytes(&mut self.header, line);
        append_bytes(&mut self.header, &CRLF);
    }

    /// Set the body phase from what the header scan found: a `1xx`/`204`/`304`
    /// response is bodyless regardless of headers; else chunked, then a
    /// `Content-Length` run, else a request is bodyless and a response is
    /// close-delimited.
    pub fn set_body_phase(&mut self, status: u16, content_length: Option<usize>, chunked: bool)
        ensures
            final(self).scratch() == old(self).scratch(),
            final(self).spec_kind() == old(self).spec_kind(),
            final(self).policy() == old(self).policy(),
            final(self).state() == body_state(
                old(self).spec_kind(),
                status,
                match content_length {
                    Some(n) => Some(n as int),
                    None => None,
                },
                chunked,
            ),
    {
        self.body_remaining = 0;
        self.chunk_remaining = 0;
        let response = match self.kind {
            Kind::Response => true,
            Kind::Request => false,
        };
        if response && ((100 <= status && status <= 199) || status == 204 || status == 304) {
            self.phase = Phase::Header;
        } else if chunked {
            self.phase = Phase::BodyChunked;
        } else {
            match content_length {
                Some(n) => {
                    if n == 0 {
                        self.phase = Phase::Header;
                    } else {
                        self.body_remaining = n;
                        self.phase = Phase::BodyContentLength;
                    }
                },
                None => {
                    if response {
                        self.phase = Phase::BodyCloseDelimited;
                    } else {
                        self.phase = Phase::Header;
                    }
                },
            }
        }
    }

    /// Detect the framing headers (`Content-Length` / `Transfer-Encoding`),
    /// rewrite a `Host` / `Application-URL` / `Location` authority, and emit the
    /// (possibly rewritten) line to the scratch.
    fn inspect_and_emit(
        &mut self,
        line: &[u8],
        content_length: &mut Option<usize>,
        chunked: &mut bool,
    ) -> (r: Result<Option<AuthorityHeader>, FramingError>)
        ensures
            final(self).spec_kind() == old(self).spec_kind(),
            final(self).policy() == old(self).policy(),
            final(self).state() == old(self).state(),
            ({
                let before = Scan {
                    out: old(self).scratch(),
                    content_length: opt_int(*old(content_length)),
                    chunked: *old(chunked),
                    authority: None,
                };
                match r {
                    Ok(found) => scan_line(before, line@, old(self).policy()) == Ok::<
                        Scan,
                        FramingError,
                    >(
                        Scan {
                            out: final(self).scratch(),
                            content_length: opt_int(*final(content_length)),
                            chunked: *final(chunked),
                            authority: found,
                        },
                    ),
                    Err(e) => scan_line(before, line@, old(self).policy()) == Err::<
                        Scan,
                        FramingError,
                    >(e),
                }
            }),
    {
        proof {
            reveal_strlit("Content-Length:");
            reveal_strlit("Transfer-Encoding:");
        }
        match strip_prefix_ignore_ascii_case(line, ascii_bytes("Content-Length:")) {
            Some(value) => {
                match parse_content_length(value) {
                    Ok(n) => {
                        *content_length = Some(n);
                    },
                    Err(e) => {
                        return Err(e);
                    },
                }
                self.copy_line(line);
                return Ok(None);
            },
            None => {},
        }
        match strip_prefix_ignore_ascii_case(line, ascii_bytes("Transfer-Encoding:")) {
            Some(value) => {
                if value_has_chunked(value) {
                    *chunked = true;
                }
                self.copy_line(line);
                return Ok(None);
            },
            None => {},
        }
        match rewritable_authority(line) {
            Some((off, found, header)) => {
                match self.rewrite.target(header) {
                    Some(target) => {
                        let n: usize = line.len();
                        let start: usize = off + found.offset;
                        let head = vstd::slice::slice_subrange(line, 0, start);
                        let tail = vstd::slice::slice_subrange(line, start + found.len, n);
                        append_bytes(&mut self.header, head);
                        append_authority(&mut self.header, target);
                        append_bytes(&mut self.header, tail);
                        append_bytes(&mut self.header, &CRLF);
                        proof {
                            assert(head@ =~= line@.take(start as int));
                            assert(tail@ =~= line@.skip(start + found.len));
                            assert(self.header@ =~= old(self).header@ + rewritten(
                                line@,
                                old(self).policy(),
                            ));
                        }
                    },
                    None => {
                        self.copy_line(line);
                        assert(self.header@ =~= old(self).header@ + rewritten(
                            line@,
                            old(self).policy(),
                        ));
                    },
                }
                return Ok(Some(header));
            },
            None => {},
        }
        self.copy_line(line);
        assert(self.header@ =~= old(self).header@ + rewritten(line@, old(self).policy()));
        Ok(None)
    }

    /// Rewrite the authority headers of `block` (a complete header block ending
    /// in the blank line) into the scratch, and set the body phase from its
    /// framing. Each line is inspected and written to the scratch in one pass.
    ///
    /// # Errors
    /// [`FramingError::MalformedContentLength`] for an unparseable
    /// `Content-Length`; the framer's phase is then as it was.
    pub fn scan_and_rewrite_header(&mut self, block: &[u8]) -> (r: Result<
        Option<AuthorityHeader>,
        FramingError,
    >)
        ensures
            final(self).spec_kind() == old(self).spec_kind(),
            final(self).policy() == old(self).policy(),
            match scan_lines(lines_of(block@), old(self).policy()) {
                Ok(scan) => {
                    &&& r == Ok::<Option<AuthorityHeader>, FramingError>(scan.authority)
                    &&& final(self).scratch() == scan.out
                    &&& final(self).state() == body_state(
                        old(self).spec_kind(),
                        message_status(old(self).spec_kind(), lines_of(block@)),
                        scan.content_length,
                        scan.chunked,
                    )
                },
                Err(e) => {
                    &&& r == Err::<Option<AuthorityHeader>, FramingError>(e)
                    &&& final(self).state() == old(self).state()
                },
            },
    {
        self.header.clear();
        let mut content_length: Option<usize> = None;
        let mut chunked: bool = false;
        let mut authority: Option<AuthorityHeader> = None;
        let mut status: u16 = 0;
        let mut pos: usize = 0;
        let mut first: bool = true;
        let n: usize = block.len();
        let ghost mut done: Seq<Seq<u8>> = Seq::empty();
        let ghost policy = self.policy();
        let ghost kind = self.spec_kind();
        let ghost state = self.state();
        proof {
            assert(block@.skip(0) =~= block@);
        }
        while pos < n
            invariant
                pos <= n,
                n == block@.len(),
                self.spec_kind() == kind,
                self.policy() == policy,
                self.state() == state,
                old(self).policy() == policy,
                old(self).spec_kind() == kind,
                old(self).state() == state,
                first == (done.len() == 0),
                lines_of(block@) =~= done + lines_of(block@.skip(pos as int)),
                status == message_status(kind, done),
                scan_lines(done, policy) == Ok::<Scan, FramingError>(
                    Scan {
                        out: self.scratch(),
                        content_length: opt_int(content_length),
                        chunked,
                        authority,
                    },
                ),
            decreases n - pos,
        {
            let rest = vstd::slice::slice_subrange(block, pos, n);
            assert(rest@ =~= block@.skip(pos as int));
            let (line, next): (&[u8], usize) = match find_crlf(rest) {
                Some(i) => {
                    let line = vstd::slice::slice_subrange(rest, 0, i);
                    proof {
                        assert(line@ =~= rest@.take(i as int));
                        assert(rest@.skip(i + 2) =~= block@.skip(pos + i + 2));
                    }
                    (line, pos + i + 2)
                },
                None => {
                    proof {
                        assert(block@.skip(n as int) =~= Seq::<u8>::empty());
                    }
                    (rest, n)
                },
            };
            let ghost upto = done.push(line@);
            proof {
                assert(upto.drop_last() =~= done);
                assert(lines_of(block@) =~= upto + lines_of(block@.skip(next as int)));
            }
            if first {
                match self.kind {
                    Kind::Response => {
                        status = parse_status_code(line);
                    },
                    Kind::Request => {},
                }
                self.copy_line(line);
                first = false;
                proof {
                    assert(self.scratch() =~= line@ + CRLF@);
                }
            } else {
                match self.inspect_and_emit(line, &mut content_length, &mut chunked) {
                    Ok(found) => {
                        match found {
                            Some(h) => {
                                authority = Some(h);
                            },
                            None => {},
                        }
                    },
                    Err(e) => {
                        proof {
                            lemma_scan_error(upto, lines_of(block@.skip(next as int)), policy);
                        }
                        return Err(e);
                    },
                }
            }
            proof {
                done = upto;
            }
            pos = next;
        }
        proof {
            assert(block@.skip(pos as int) =~= Seq::<u8>::empty());
            assert(done =~= lines_of(block@));
        }
        self.set_body_phase(status, content_length, chunked);
        Ok(authority)
    }

    /// Feed a contiguous view of the owner's buffered bytes; returns the
    /// forwardable [`Framed`]. Each call yields at most one message's header and
    /// as much of its body as arrived; the owner forwards `header` then `body`,
    /// drops `consumed` bytes, and feeds again until `consumed` is 0 (an
    /// incomplete header: read more).
    ///
    /// # Errors
    /// A malformed or over-cap message: see [`FramingError`].
    pub fn feed<'a>(&'a mut self, input: &'a [u8]) -> (r: Result<Framed<'a>, FramingError>)
        ensures
            final(self).spec_kind() == old(self).spec_kind(),
            final(self).policy() == old(self).policy(),
            ({
                let f = fed(old(self).spec_kind(), old(self).policy(), old(self).state(), input@);
                &&& final(self).state() == f.state
                &&& match f.error {
                    Some(e) => r == Err::<Framed, FramingError>(e),
                    None => r matches Ok(framed) && {
                        &&& framed.header@ == f.header
                        &&& framed.consumed == f.consumed
                        &&& 0 <= f.body_start <= f.consumed <= input@.len()
                        &&& framed.body@ == input@.subrange(f.body_start, f.consumed)
                        &&& framed.authority == f.authority
                    },
                }
            }),
    {
        let n: usize = input.len();
        let mut pos: usize = 0;
        let mut header_complete: bool = false;
        let mut authority: Option<AuthorityHeader> = None;
        let ghost f = fed(self.spec_kind(), self.policy(), self.state(), input@);
        let ghost kind = self.spec_kind();
        let ghost policy = self.policy();
        let in_header = match self.phase {
            Phase::Header => true,
            _ => false,
        };
        if in_header {
            match find_header_end(input) {
                None => {
                    if n > MAX_HEADER {
                        return Err(FramingError::HeaderTooLong);
                    }
                    let nothing = vstd::slice::slice_subrange(input, 0, 0);
                    assert(nothing@ =~= Seq::<u8>::empty());
                    return Ok(
                        Framed { header: nothing, body: nothing, consumed: 0, authority: None },
                    );
                },
                Some(end) => {
                    if end > MAX_HEADER {
                        return Err(FramingError::HeaderTooLong);
                    }
                    let block = vstd::slice::slice_subrange(input, 0, end);
                    assert(block@ =~= input@.take(end as int));
                    match self.scan_and_rewrite_header(block) {
                        Ok(found) => {
                            authority = found;
                        },
                        Err(e) => {
                            return Err(e);
                        },
                    }
                    pos = end;
                    header_complete = true;
                },
            }
        }
        let body_start: usize = pos;
        let ghost start_state = self.state();
        let ghost scratch = self.scratch();
        let mut done: bool = false;
        while !done && pos < n
            invariant
                body_start <= pos <= n,
                n == input@.len(),
                self.spec_kind() == kind,
                self.policy() == policy,
                self.scratch() == scratch,
                done ==> walk(start_state, input@, body_start as int) == (Walk {
                    state: self.state(),
                    pos: pos as int,
                    error: None,
                }),
                !done ==> walk(start_state, input@, body_start as int) == walk(
                    self.state(),
                    input@,
                    pos as int,
                ),
                f.state == walk(start_state, input@, body_start as int).state,
                f.error == walk(start_state, input@, body_start as int).error,
                old(self).spec_kind() == kind,
                old(self).policy() == policy,
                f == fed(old(self).spec_kind(), old(self).policy(), old(self).state(), input@),
            decreases n - pos, !done as int,
        {
            match self.phase {
                Phase::Header => {
                    done = true;
                },
                Phase::BodyContentLength => {
                    let left: usize = n - pos;
                    let take: usize = if self.body_remaining <= left {
                        self.body_remaining
                    } else {
                        left
                    };
                    pos += take;
                    self.body_remaining -= take;
                    if self.body_remaining == 0 {
                        self.phase = Phase::Header;
                    }
                    done = true;
                },
                Phase::BodyCloseDelimited => {
                    pos = n;
                    done = true;
                },
                Phase::BodyChunked => {
                    if self.chunk_remaining > 0 {
                        let left: usize = n - pos;
                        let take: usize = if self.chunk_remaining <= left {
                            self.chunk_remaining
                        } else {
                            left
                        };
                        pos += take;
                        self.chunk_remaining -= take;
                        if self.chunk_remaining > 0 {
                            done = true;
                        }
                    } else {
                        let rest = vstd::slice::slice_subrange(input, pos, n);
                        assert(rest@ =~= input@.skip(pos as int));
                        match find_crlf(rest) {
                            None => {
                                if n - pos > MAX_CHUNK_LINE {
                                    return Err(FramingError::ChunkLineTooLong);
                                }
                                done = true;
                            },
                            Some(rel) => {
                                if rel > MAX_CHUNK_LINE - 2 {
                                    return Err(FramingError::ChunkLineTooLong);
                                }
                                let line = vstd::slice::slice_subrange(input, pos, pos + rel);
                                match parse_chunk_size(line) {
                                    Err(e) => {
                                        return Err(e);
                                    },
                                    Ok(size) => {
                                        if size > usize::MAX - 2 {
                                            return Err(FramingError::MalformedChunkSize);
                                        }
                                        pos += rel + 2;
                                        if size == 0 {
                                            self.phase = Phase::BodyChunkedTrailers;
                                        } else {
                                            self.chunk_remaining = size + 2;
                                        }
                                    },
                                }
                            },
                        }
                    }
                },
                Phase::BodyChunkedTrailers => {
                    let rest = vstd::slice::slice_subrange(input, pos, n);
                    assert(rest@ =~= input@.skip(pos as int));
                    match find_crlf(rest) {
                        None => {
                            if n - pos > MAX_TRAILER_LINE {
                                return Err(FramingError::TrailerLineTooLong);
                            }
                            done = true;
                        },
                        Some(rel) => {
                            if rel > MAX_TRAILER_LINE - 2 {
                                return Err(FramingError::TrailerLineTooLong);
                            }
                            pos += rel + 2;
                            if rel == 0 {
                                self.phase = Phase::Header;
                            }
                        },
                    }
                },
            }
        }
        let body = vstd::slice::slice_subrange(input, body_start, pos);
        let header: &[u8] = if header_complete {
            self.header.as_slice()
        } else {
            let nothing = vstd::slice::slice_subrange(input, 0, 0);
            assert(nothing@ =~= Seq::<u8>::empty());
            nothing
        };
        Ok(Framed { header, body, consumed: pos, authority })
    }
}

/// A length as a mathematical integer.
pub open spec fn opt_int(n: Option<usize>) -> Option<int> {
    match n {
        Some(n) => Some(n as int),
        None => None,
    }
}

/// An error met in a scan stays, whatever lines follow.
proof fn lemma_scan_error(lines: Seq<Seq<u8>>, more: Seq<Seq<u8>>, policy: RewritePolicy)
    requires
        lines.len() > 0,
        scan_lines(lines, policy) is Err,
    ensures
        scan_lines(lines + more, policy) == scan_lines(lines, policy),
    decreases more.len(),
{
    if more.len() == 0 {
        assert(lines + more =~= lines);
    } else {
        lemma_scan_error(lines, more.drop_last(), policy);
        assert((lines + more).drop_last() =~= lines + more.drop_last());
    }
}

/// An occurrence found in a string is found in every string it is a prefix of.
proof fn lemma_occurrence_prefix(s: Seq<u8>, more: Seq<u8>, pattern: Seq<u8>, from: int)
    requires
        0 <= from,
        bytes::first_occurrence(s, pattern, from) is Some,
    ensures
        bytes::first_occurrence(s + more, pattern, from) == bytes::first_occurrence(
            s,
            pattern,
            from,
        ),
    decreases s.len() - from + 1,
{
    if from + pattern.len() <= s.len() {
        assert((s + more).subrange(from, from + pattern.len()) =~= s.subrange(
            from,
            from + pattern.len(),
        ));
        if s.subrange(from, from + pattern.len()) != pattern {
            lemma_occurrence_prefix(s, more, pattern, from + 1);
        }
    }
}

/// Where the pattern occurs at `at`, the search from no later finds it.
proof fn lemma_occurrence_found(s: Seq<u8>, pattern: Seq<u8>, from: int, at: int)
    requires
        0 <= from <= at,
        at + pattern.len() <= s.len(),
        s.subrange(at, at + pattern.len()) == pattern,
    ensures
        bytes::first_occurrence(s, pattern, from) is Some,
        bytes::first_occurrence(s, pattern, from)->0 <= at,
    decreases at - from,
{
    if s.subrange(from, from + pattern.len()) != pattern {
        lemma_occurrence_found(s, pattern, from + 1, at);
    }
}

/// Streaming does not depend on how the bytes arrive: walking the body bytes
/// `a` and then going on, from where that walk stopped, over `a` and `b` together
/// ends where one walk over both does.
pub proof fn law_walk_resumes(state: BodyState, a: Seq<u8>, b: Seq<u8>, pos: int)
    requires
        0 <= pos <= a.len(),
        state.body_remaining >= 0,
        state.chunk_remaining >= 0,
        walk(state, a, pos).error is None,
    ensures
        walk(state, a + b, pos) == walk(walk(state, a, pos).state, a + b, walk(state, a, pos).pos),
        pos <= walk(state, a, pos).pos <= a.len(),
    decreases a.len() - pos,
{
    let ab = a + b;
    if pos < a.len() {
        match state.phase {
            Phase::Header => {},
            Phase::BodyContentLength => {},
            Phase::BodyCloseDelimited => {},
            Phase::BodyChunked => {
                if state.chunk_remaining > 0 {
                    let take = min(state.chunk_remaining, a.len() - pos);
                    let next = BodyState { chunk_remaining: state.chunk_remaining - take, ..state };
                    if next.chunk_remaining == 0 {
                        law_walk_resumes(next, a, b, pos + take);
                    }
                } else {
                    lemma_first_occurrence(a.skip(pos), CRLF@, 0);
                    if let Some(rel) = crlf_at(a.skip(pos)) {
                        lemma_occurrence_prefix(a.skip(pos), b, CRLF@, 0);
                        assert(a.skip(pos) + b =~= ab.skip(pos));
                        assert(ab.subrange(pos, pos + rel) =~= a.subrange(pos, pos + rel));
                        if let Some(size) = chunk_size(a.subrange(pos, pos + rel)) {
                            lemma_unsigned_nonneg(a.subrange(pos, pos + rel));
                            assert(size <= max_chunk());
                            let next = if size == 0 {
                                BodyState { phase: Phase::BodyChunkedTrailers, ..state }
                            } else {
                                BodyState { chunk_remaining: size + 2, ..state }
                            };
                            law_walk_resumes(next, a, b, pos + rel + 2);
                        }
                    }
                }
            },
            Phase::BodyChunkedTrailers => {
                lemma_first_occurrence(a.skip(pos), CRLF@, 0);
                if let Some(rel) = crlf_at(a.skip(pos)) {
                    lemma_occurrence_prefix(a.skip(pos), b, CRLF@, 0);
                    assert(a.skip(pos) + b =~= ab.skip(pos));
                    let next = BodyState {
                        phase: if rel == 0 {
                            Phase::Header
                        } else {
                            Phase::BodyChunkedTrailers
                        },
                        ..state
                    };
                    law_walk_resumes(next, a, b, pos + rel + 2);
                }
            },
        }
    }
}

proof fn lemma_unsigned_nonneg(line: Seq<u8>)
    ensures
        chunk_size(line) matches Some(n) ==> n >= 0,
{
    let hex = match bytes::first_index(line, 0x3b, 0) {
        Some(semi) => line.take(semi),
        None => line,
    };
    bytes::lemma_digits_value_nonneg(bytes::unsigned_body(bytes::trimmed(hex)), 16);
}

/// A walk over bytes goes as the walk over what is left of them.
proof fn lemma_walk_shift(state: BodyState, s: Seq<u8>, skip: int, pos: int)
    requires
        0 <= skip <= pos <= s.len(),
        state.chunk_remaining >= 0,
    ensures
        ({
            let rest = walk(state, s.skip(skip), pos - skip);
            walk(state, s, pos) == (Walk { pos: rest.pos + skip, ..rest })
        }),
    decreases s.len() - pos,
{
    let t = s.skip(skip);
    let at = pos - skip;
    if pos < s.len() {
        match state.phase {
            Phase::BodyChunked => {
                if state.chunk_remaining > 0 {
                    let take = min(state.chunk_remaining, s.len() - pos);
                    let next = BodyState { chunk_remaining: state.chunk_remaining - take, ..state };
                    if next.chunk_remaining == 0 {
                        lemma_walk_shift(next, s, skip, pos + take);
                    }
                } else {
                    assert(t.skip(at) =~= s.skip(pos));
                    if let Some(rel) = crlf_at(s.skip(pos)) {
                        lemma_first_occurrence(s.skip(pos), CRLF@, 0);
                        assert(t.subrange(at, at + rel) =~= s.subrange(pos, pos + rel));
                        if let Some(size) = chunk_size(s.subrange(pos, pos + rel)) {
                            lemma_unsigned_nonneg(s.subrange(pos, pos + rel));
                            let next = if size == 0 {
                                BodyState { phase: Phase::BodyChunkedTrailers, ..state }
                            } else {
                                BodyState { chunk_remaining: size + 2, ..state }
                            };
                            lemma_walk_shift(next, s, skip, pos + rel + 2);
                        }
                    }
                }
            },
            Phase::BodyChunkedTrailers => {
                assert(t.skip(at) =~= s.skip(pos));
                if let Some(rel) = crlf_at(s.skip(pos)) {
                    lemma_first_occurrence(s.skip(pos), CRLF@, 0);
                    let next = BodyState {
                        phase: if rel == 0 {
                            Phase::Header
                        } else {
                            Phase::BodyChunkedTrailers
                        },
                        ..state
                    };
                    lemma_walk_shift(next, s, skip, pos + rel + 2);
                }
            },
            _ => {},
        }
    }
}

/// What a message yields does not depend on how its bytes arrive. While a feed of
/// `a` leaves the message unfinished, feeding what it did not consume, with the
/// bytes `b` that arrived behind it, completes what one feed of all of them does.
pub proof fn law_feeding_in_pieces(
    kind: Kind,
    policy: RewritePolicy,
    state: BodyState,
    a: Seq<u8>,
    b: Seq<u8>,
)
    requires
        state.body_remaining >= 0,
        state.chunk_remaining >= 0,
        fed(kind, policy, state, a).error is None,
        fed(kind, policy, state, a).state.phase is Header ==> state.phase is Header && fed(
            kind,
            policy,
            state,
            a,
        ).consumed == 0,
    ensures
        ({
            let whole = fed(kind, policy, state, a + b);
            let first = fed(kind, policy, state, a);
            let rest = (a + b).skip(first.consumed);
            let second = fed(kind, policy, first.state, rest);
            &&& whole.consumed == first.consumed + second.consumed
            &&& whole.state == second.state
            &&& whole.error == second.error
            &&& whole.header == first.header + second.header
            &&& whole.authority == match first.authority {
                Some(h) => Some(h),
                None => second.authority,
            }
            &&& (a + b).subrange(whole.body_start, whole.consumed) == a.subrange(
                first.body_start,
                first.consumed,
            ) + rest.subrange(second.body_start, second.consumed)
        }),
{
    let ab = a + b;
    let whole = fed(kind, policy, state, ab);
    let first = fed(kind, policy, state, a);
    let rest = ab.skip(first.consumed);
    let second = fed(kind, policy, first.state, rest);
    lemma_first_occurrence(a, HEADER_TERMINATOR@, 0);
    if state.phase is Header && header_end(a) is None {
        assert(rest =~= ab);
        assert(whole.header =~= first.header + second.header);
        assert(a.subrange(0, 0) + ab.subrange(whole.body_start, whole.consumed)
            =~= ab.subrange(whole.body_start, whole.consumed));
    } else {
        let (entered, start) = if state.phase is Header {
            let end = header_end(a)->0;
            lemma_occurrence_prefix(a, b, HEADER_TERMINATOR@, 0);
            assert(ab.take(end) =~= a.take(end));
            let lines = lines_of(a.take(end));
            lemma_content_length_nonneg(lines, policy);
            let scan = scan_lines(lines, policy)->Ok_0;
            (
                body_state(kind, message_status(kind, lines), scan.content_length, scan.chunked),
                end,
            )
        } else {
            (state, 0)
        };
        law_walk_resumes(entered, a, b, start);
        lemma_walk_bounds(entered, a, start);
        lemma_walk_shift(first.state, ab, first.consumed, first.consumed);
        lemma_walk_bounds(first.state, rest, 0);
        assert(whole.header =~= first.header + second.header);
        assert(ab.subrange(start, whole.consumed) =~= a.subrange(start, first.consumed)
            + rest.subrange(0, second.consumed));
    }
}

/// A walk ends within the bytes, and counts never below zero.
proof fn lemma_walk_bounds(state: BodyState, s: Seq<u8>, pos: int)
    requires
        0 <= pos <= s.len(),
        state.body_remaining >= 0,
        state.chunk_remaining >= 0,
    ensures
        walk(state, s, pos).state.body_remaining >= 0,
        walk(state, s, pos).state.chunk_remaining >= 0,
        pos <= walk(state, s, pos).pos <= s.len(),
    decreases s.len() - pos,
{
    if pos < s.len() {
        match state.phase {
            Phase::BodyChunked => {
                if state.chunk_remaining > 0 {
                    let take = min(state.chunk_remaining, s.len() - pos);
                    let next = BodyState { chunk_remaining: state.chunk_remaining - take, ..state };
                    if next.chunk_remaining == 0 {
                        lemma_walk_bounds(next, s, pos + take);
                    }
                } else if let Some(rel) = crlf_at(s.skip(pos)) {
                    lemma_first_occurrence(s.skip(pos), CRLF@, 0);
                    if let Some(size) = chunk_size(s.subrange(pos, pos + rel)) {
                        lemma_unsigned_nonneg(s.subrange(pos, pos + rel));
                        let next = if size == 0 {
                            BodyState { phase: Phase::BodyChunkedTrailers, ..state }
                        } else {
                            BodyState { chunk_remaining: size + 2, ..state }
                        };
                        lemma_walk_bounds(next, s, pos + rel + 2);
                    }
                }
            },
            Phase::BodyChunkedTrailers => {
                if let Some(rel) = crlf_at(s.skip(pos)) {
                    lemma_first_occurrence(s.skip(pos), CRLF@, 0);
                    let next = BodyState {
                        phase: if rel == 0 {
                            Phase::Header
                        } else {
                            Phase::BodyChunkedTrailers
                        },
                        ..state
                    };
                    lemma_walk_bounds(next, s, pos + rel + 2);
                }
            },
            _ => {},
        }
    }
}

/// A policy that leaves every authority header alone.
pub open spec fn rewrites_nothing(policy: RewritePolicy) -> bool {
    policy.host is None && policy.application_url is None && policy.location is None
}

/// The lines with their CRLFs, one behind the other.
pub open spec fn joined(lines: Seq<Seq<u8>>) -> Seq<u8>
    decreases lines.len(),
{
    if lines.len() == 0 {
        Seq::empty()
    } else {
        joined(lines.drop_last()) + lines.last() + CRLF@
    }
}

proof fn lemma_joined_front(first: Seq<u8>, rest: Seq<Seq<u8>>)
    ensures
        joined(seq![first] + rest) == first + CRLF@ + joined(rest),
    decreases rest.len(),
{
    let all = seq![first] + rest;
    if rest.len() == 0 {
        assert(all =~= seq![first]);
        assert(all.drop_last() =~= Seq::<Seq<u8>>::empty());
        assert(joined(all.drop_last()) =~= Seq::<u8>::empty());
        assert(joined(all) =~= first + CRLF@ + joined(rest));
    } else {
        lemma_joined_front(first, rest.drop_last());
        assert(all.drop_last() =~= seq![first] + rest.drop_last());
        assert(joined(all) =~= first + CRLF@ + joined(rest));
    }
}

/// A block that ends in CRLF is its lines joined.
proof fn lemma_lines_join(block: Seq<u8>)
    requires
        block.len() == 0 || (block.len() >= 2 && block.skip(block.len() - 2) == CRLF@),
    ensures
        joined(lines_of(block)) == block,
    decreases block.len(),
{
    if block.len() > 0 {
        let at = block.len() - 2;
        assert(block.subrange(at, at + 2) =~= block.skip(at));
        lemma_occurrence_found(block, CRLF@, 0, at);
        lemma_first_occurrence(block, CRLF@, 0);
        let i = crlf_at(block)->0;
        let rest = block.skip(i + 2);
        assert(CRLF@[0] == 0x0d && CRLF@[1] == 0x0a);
        if i < at {
            assert(block[i + 1] == block.subrange(i, i + 2)[1]);
            assert(block[at] == block.skip(at)[0]);
            assert(i + 1 != at);
            assert(rest.skip(rest.len() - 2) =~= block.skip(at));
        }
        lemma_lines_join(rest);
        lemma_joined_front(block.take(i), lines_of(rest));
        assert(block.take(i) + CRLF@ + rest =~= block) by {
            assert(block =~= block.take(i) + block.subrange(i, i + 2) + rest);
        }
    }
}

/// A scan that rewrites nothing emits the lines it read.
proof fn lemma_scan_verbatim(lines: Seq<Seq<u8>>, policy: RewritePolicy)
    requires
        rewrites_nothing(policy),
    ensures
        scan_lines(lines, policy) matches Ok(scan) ==> scan.out == joined(lines),
    decreases lines.len(),
{
    if lines.len() == 1 {
        assert(lines.drop_last() =~= Seq::<Seq<u8>>::empty());
        assert(joined(lines.drop_last()) =~= Seq::<u8>::empty());
        assert(joined(lines) =~= lines[0] + CRLF@);
    } else if lines.len() > 1 {
        lemma_scan_verbatim(lines.drop_last(), policy);
        if let Ok(acc) = scan_lines(lines.drop_last(), policy) {
            assert(acc.out + rewritten(lines.last(), policy) =~= acc.out + lines.last() + CRLF@);
        }
    }
}

/// Where nothing is rewritten, what a feed sends out (header, then body) is
/// exactly the bytes it consumed.
pub proof fn law_verbatim_without_rewrites(
    kind: Kind,
    policy: RewritePolicy,
    state: BodyState,
    input: Seq<u8>,
)
    requires
        rewrites_nothing(policy),
        state.body_remaining >= 0,
        state.chunk_remaining >= 0,
        fed(kind, policy, state, input).error is None,
    ensures
        ({
            let f = fed(kind, policy, state, input);
            f.header + input.subrange(f.body_start, f.consumed) == input.take(f.consumed)
        }),
{
    let f = fed(kind, policy, state, input);
    if state.phase is Header {
        lemma_first_occurrence(input, HEADER_TERMINATOR@, 0);
        if let Some(end) = header_end(input) {
            let block = input.take(end);
            assert(block.skip(end - 2) =~= CRLF@) by {
                let t = input.subrange(end - 4, end);
                assert(t == HEADER_TERMINATOR@);
                assert(block[end - 2] == t[2]);
                assert(block[end - 1] == t[3]);
            }
            lemma_lines_join(block);
            lemma_scan_verbatim(lines_of(block), policy);
            if let Ok(scan) = scan_lines(lines_of(block), policy) {
                lemma_content_length_nonneg(lines_of(block), policy);
                let st = body_state(
                    kind,
                    message_status(kind, lines_of(block)),
                    scan.content_length,
                    scan.chunked,
                );
                law_walk_resumes(st, input, Seq::empty(), end);
                assert(input + Seq::<u8>::empty() =~= input);
                assert(f.header + input.subrange(f.body_start, f.consumed) =~= input.take(
                    f.consumed,
                ));
            }
        } else {
            assert(f.header + input.subrange(0, 0) =~= input.take(0));
        }
    } else {
        law_walk_resumes(state, input, Seq::empty(), 0);
        assert(f.header + input.subrange(0, f.consumed) =~= input.take(f.consumed));
    }
}

proof fn lemma_content_length_nonneg(lines: Seq<Seq<u8>>, policy: RewritePolicy)
    ensures
        scan_lines(lines, policy) matches Ok(scan) ==> (scan.content_length matches Some(n) ==> n
            >= 0),
    decreases lines.len(),
{
    if lines.len() > 1 {
        lemma_content_length_nonneg(lines.drop_last(), policy);
        if let Some(v) = stripped(lines.last(), text("Content-Length:"@)) {
            bytes::lemma_digits_value_nonneg(bytes::trimmed(v), 10);
        }
    }
}

/// At a message boundary, nothing is consumed exactly where the header has not
/// arrived whole.
pub proof fn law_nothing_consumed_means_incomplete_header(
    kind: Kind,
    policy: RewritePolicy,
    state: BodyState,
    input: Seq<u8>,
)
    requires
        state.phase is Header,
        fed(kind, policy, state, input).error is None,
    ensures
        fed(kind, policy, state, input).consumed == 0 <==> header_end(input) is None,
{
    lemma_first_occurrence(input, HEADER_TERMINATOR@, 0);
    if let Some(end) = header_end(input) {
        let lines = lines_of(input.take(end));
        if let Ok(scan) = scan_lines(lines, policy) {
            lemma_content_length_nonneg(lines, policy);
            let st = body_state(
                kind,
                message_status(kind, lines),
                scan.content_length,
                scan.chunked,
            );
            law_walk_resumes(st, input, Seq::empty(), end);
        }
    }
}

/// `header` with the endpoint it names replaced.
pub open spec fn renamed(header: AuthorityHeader, endpoint: SocketAddrV4) -> AuthorityHeader {
    match header {
        AuthorityHeader::Host(_) => AuthorityHeader::Host(endpoint),
        AuthorityHeader::ApplicationUrl(_) => AuthorityHeader::ApplicationUrl(endpoint),
        AuthorityHeader::Location(_) => AuthorityHeader::Location(endpoint),
    }
}

/// `line` with the authority at `start`, `len` bytes long, replaced by `target`.
pub open spec fn spliced(line: Seq<u8>, start: int, len: int, target: SocketAddrV4) -> Seq<u8> {
    line.take(start) + endpoint_text(target) + line.skip(start + len)
}

/// A value of white space, a scheme unless `bare`, an endpoint's text and a rest
/// that starts with a delimiter holds that endpoint as its authority.
#[verifier::spinoff_prover]
proof fn lemma_authority_from_parts(
    line: Seq<u8>,
    value: Seq<u8>,
    k: int,
    head: Seq<u8>,
    e: SocketAddrV4,
    q: Seq<u8>,
    bare: bool,
)
    requires
        0 <= k < value.len() <= line.len(),
        line.len() <= usize::MAX,
        forall|i: int| 0 <= i < k ==> bytes::is_space(#[trigger] value[i]),
        value.skip(k) == head + endpoint_text(e) + q,
        bare ==> head.len() == 0,
        !bare ==> bytes::same_ignoring_case(head, text("http://"@)),
        e.port != 0,
        q.len() > 0 ==> crate::net::http::ends_authority(q[0]),
    ensures
        value_authority(line, value, bare) == Some(
            (
                line.len() - (value.len() - k),
                Authority {
                    endpoint: e,
                    offset: head.len() as usize,
                    len: endpoint_text(e).len() as usize,
                },
            ),
        ),
{
    reveal_strlit("http://");
    let t = endpoint_text(e);
    let tq = t + q;
    crate::net::http::lemma_endpoint_text(e);
    let trimmed = value.skip(k);
    assert(!bytes::is_space(value[k])) by {
        assert(value[k] == trimmed[0]);
        if bare {
            assert(trimmed[0] == t[0]);
        } else {
            assert(trimmed[0] == head[0]);
            assert(bytes::lower(head[0]) == bytes::lower(text("http://"@)[0]));
        }
    }
    bytes::lemma_trimmed_start_at(value, k);
    if bare {
        assert(trimmed =~= tq);
    } else {
        assert(trimmed.take(7) =~= head);
        assert(trimmed.skip(7) =~= tq);
    }
    assert forall|i: int| 0 <= i < t.len() implies !crate::net::http::ends_authority(
        #[trigger] tq[i],
    ) by {
        assert(tq[i] == t[i]);
        assert(crate::net::http::endpoint_byte(t[i]));
    }
    if t.len() < tq.len() {
        assert(tq[t.len() as int] == q[0]);
    }
    crate::net::http::lemma_authority_len_at(tq, 0, t.len() as int);
    assert(tq.take(t.len() as int) =~= t);
}

/// Where an authority found in a value stands.
proof fn lemma_value_authority_parts(line: Seq<u8>, value: Seq<u8>, skip: int, bare: bool)
    requires
        0 <= skip <= line.len(),
        value == line.skip(skip),
        line.len() <= usize::MAX,
        value_authority(line, value, bare) is Some,
    ensures
        ({
            let (off, a) = value_authority(line, value, bare)->0;
            let q = line.skip(off + a.offset + a.len);
            &&& skip <= off
            &&& off + a.offset + a.len <= line.len()
            &&& a.offset == if bare {
                0int
            } else {
                7
            }
            &&& forall|i: int| skip <= i < off ==> bytes::is_space(#[trigger] line[i])
            &&& !bare ==> bytes::same_ignoring_case(line.subrange(off, off + 7), text("http://"@))
            &&& q.len() > 0 ==> crate::net::http::ends_authority(q[0])
        }),
{
    reveal_strlit("http://");
    let (off, a) = value_authority(line, value, bare)->0;
    let trimmed = bytes::trimmed_start(value);
    bytes::lemma_trimmed_start(value);
    let rest = crate::net::http::authority_start(trimmed, bare)->0;
    crate::net::http::lemma_authority_len(rest, 0);
    crate::net::http::lemma_authority_stop(rest, 0);
    assert(trimmed =~= line.skip(off));
    assert forall|i: int| skip <= i < off implies bytes::is_space(#[trigger] line[i]) by {
        assert(line[i] == value[i - skip]);
    }
    if !bare {
        assert(trimmed.take(7) =~= line.subrange(off, off + 7));
    }
    let q = line.skip(off + a.offset + a.len);
    if q.len() > 0 {
        assert(q[0] == rest[a.len as int]);
    }
}

/// The rewrite of a header value, read back.
proof fn lemma_value_respliced(
    line: Seq<u8>,
    value: Seq<u8>,
    skip: int,
    bare: bool,
    target: SocketAddrV4,
)
    requires
        0 <= skip <= line.len(),
        value == line.skip(skip),
        line.len() <= usize::MAX,
        value_authority(line, value, bare) is Some,
        target.port != 0,
        spliced_line(line, value, bare, target).len() <= usize::MAX,
    ensures
        ({
            let (off, a) = value_authority(line, value, bare)->0;
            let new_line = spliced_line(line, value, bare, target);
            &&& skip <= off
            &&& off + a.offset + a.len <= line.len()
            &&& !bare ==> a.offset == 7
            &&& value_authority(new_line, new_line.skip(skip), bare) == Some(
                (
                    off,
                    Authority {
                        endpoint: target,
                        offset: a.offset,
                        len: endpoint_text(target).len() as usize,
                    },
                ),
            )
        }),
{
    let (off, a) = value_authority(line, value, bare)->0;
    lemma_value_authority_parts(line, value, skip, bare);
    crate::net::http::lemma_endpoint_text(target);
    let start = off + a.offset;
    let new_line = spliced_line(line, value, bare, target);
    let new_value = new_line.skip(skip);
    let head = line.subrange(off, start);
    let q = line.skip(start + a.len);
    let k = off - skip;
    assert forall|i: int| 0 <= i < k implies bytes::is_space(#[trigger] new_value[i]) by {
        assert(new_value[i] == line[i + skip]);
    }
    assert(new_value.skip(k) =~= head + endpoint_text(target) + q);
    lemma_authority_from_parts(new_line, new_value, k, head, target, q, bare);
}

/// `line` with the authority in its value `value` replaced by `target`.
pub open spec fn spliced_line(
    line: Seq<u8>,
    value: Seq<u8>,
    bare: bool,
    target: SocketAddrV4,
) -> Seq<u8> {
    let (off, a) = value_authority(line, value, bare)->0;
    spliced(line, off + a.offset, a.len as int, target)
}

/// A rewritten authority header reads back as the same header, naming the
/// endpoint it was rewritten to. (A target of port 0 is no authority, and is left
/// out.)
pub proof fn law_rewrite_names_the_target(line: Seq<u8>, target: SocketAddrV4)
    requires
        line.len() <= usize::MAX,
        line_authority(line) is Some,
        target.port != 0,
        ({
            let (off, a, h) = line_authority(line)->0;
            spliced(line, off + a.offset, a.len as int, target).len() <= usize::MAX
        }),
    ensures
        ({
            let (off, a, h) = line_authority(line)->0;
            line_authority(spliced(line, off + a.offset, a.len as int, target)) == Some(
                (
                    off,
                    Authority {
                        endpoint: target,
                        offset: a.offset,
                        len: endpoint_text(target).len() as usize,
                    },
                    renamed(h, target),
                ),
            )
        }),
{
    reveal_strlit("Host:");
    reveal_strlit("Application-URL:");
    reveal_strlit("Location:");
    let (off, a, h) = line_authority(line)->0;
    let new_line = spliced(line, off + a.offset, a.len as int, target);
    let host = text("Host:"@);
    let app = text("Application-URL:"@);
    let loc = text("Location:"@);
    if let Some(v) = stripped(line, host) {
        lemma_value_respliced(line, v, 5, true, target);
        assert(new_line.take(5) =~= line.take(5));
    } else if let Some(v) = stripped(line, app) {
        lemma_value_respliced(line, v, 16, false, target);
        assert(new_line.take(16) =~= line.take(16));
        assert(new_line.take(5) =~= line.take(5));
    } else if let Some(v) = stripped(line, loc) {
        lemma_value_respliced(line, v, 9, false, target);
        assert(new_line.take(9) =~= line.take(9));
        assert(new_line.take(5) =~= line.take(5));
        assert(new_line.take(16) =~= line.take(16));
    }
}

} // verus!
