//! What holds of a whole stream fed to a framer: where the stream is cut does not
//! matter, a rewrite touches the authorities alone, and each body framing forwards
//! the bytes that the header announced.

#[allow(unused_imports)]
use crate::bytes;
#[allow(unused_imports)]
use crate::laws::http::{
    breaks_at, law_lines_end_at_their_first_break, law_written_sizes_are_read, writes_size,
};
#[allow(unused_imports)]
use crate::net::http::{stripped, text};
#[allow(unused_imports)]
use crate::net::http::framing::{
    body_state, chunk_size, crlf_at, fed, header_end, law_feeding_in_pieces, law_walk_resumes,
    lemma_content_length_nonneg, lemma_first_occurrence, lemma_lines_join,
    lemma_occurrence_found, lemma_occurrence_prefix, lemma_scan_verbatim, lemma_unsigned_nonneg,
    lemma_walk_bounds, lemma_walk_shift, line_authority, lines_of, max_chunk, message_status,
    min, rewrites_nothing, rewritten, scan_lines, walk, AuthorityHeader, BodyState, Fed,
    FramingError, Kind, Phase, RewritePolicy, Scan, Walk, CRLF, HEADER_TERMINATOR,
    MAX_CHUNK_LINE, MAX_HEADER, MAX_TRAILER_LINE,
};
use vstd::prelude::*;

verus! {

/// The counts of a body state are no less than zero, and a `Content-Length` run
/// has bytes left.
pub open spec fn valid(state: BodyState) -> bool {
    &&& state.body_remaining >= 0
    &&& state.chunk_remaining >= 0
    &&& state.phase is BodyContentLength ==> state.body_remaining > 0
}

proof fn lemma_walk_valid(state: BodyState, s: Seq<u8>, pos: int)
    requires
        0 <= pos <= s.len(),
        valid(state),
    ensures
        valid(walk(state, s, pos).state),
    decreases s.len() - pos,
{
    lemma_walk_bounds(state, s, pos);
    if pos < s.len() {
        match state.phase {
            Phase::BodyChunked => {
                if state.chunk_remaining > 0 {
                    let take = min(state.chunk_remaining, s.len() - pos);
                    let next = BodyState { chunk_remaining: state.chunk_remaining - take, ..state };
                    if next.chunk_remaining == 0 {
                        lemma_walk_valid(next, s, pos + take);
                    }
                } else if let Some(rel) = crlf_at(s.skip(pos)) {
                    lemma_first_occurrence(s.skip(pos), CRLF@, 0);
                    if let Some(size) = chunk_size(s.subrange(pos, pos + rel)) {
                        lemma_unsigned_nonneg(s.subrange(pos, pos + rel));
                        let next = if size == 0 {
                            BodyState { phase: Phase::BodyChunkedTrailers, ..state }
                        } else {
                            BodyState { chunk_remaining: size + 2, ..state }
                        };
                        lemma_walk_valid(next, s, pos + rel + 2);
                    }
                }
            },
            Phase::BodyChunkedTrailers => {
                if let Some(rel) = crlf_at(s.skip(pos)) {
                    lemma_first_occurrence(s.skip(pos), CRLF@, 0);
                    let next = BodyState {
                        phase: if rel == 0 {
                            Phase::Header
                        } else {
                            Phase::BodyChunkedTrailers
                        },
                        ..state
                    };
                    lemma_walk_valid(next, s, pos + rel + 2);
                }
            },
            _ => {},
        }
    }
}

/// A feed leaves a valid state valid, and takes no more than it was given.
pub proof fn law_states_stay_valid(
    kind: Kind,
    policy: RewritePolicy,
    state: BodyState,
    input: Seq<u8>,
)
    requires
        valid(state),
    ensures
        valid(fed(kind, policy, state, input).state),
        0 <= fed(kind, policy, state, input).body_start <= fed(
            kind,
            policy,
            state,
            input,
        ).consumed <= input.len(),
{
    if state.phase is Header {
        lemma_first_occurrence(input, HEADER_TERMINATOR@, 0);
        if let Some(end) = header_end(input) {
            let lines = lines_of(input.take(end));
            lemma_content_length_nonneg(lines, policy);
            if let Ok(scan) = scan_lines(lines, policy) {
                let entered = body_state(
                    kind,
                    message_status(kind, lines),
                    scan.content_length,
                    scan.chunked,
                );
                lemma_walk_valid(entered, input, end);
                lemma_walk_bounds(entered, input, end);
            }
        }
    } else {
        lemma_walk_valid(state, input, 0);
        lemma_walk_bounds(state, input, 0);
    }
}

/// A feed that consumes nothing and fails not leaves the state as it was.
proof fn lemma_nothing_consumed(
    kind: Kind,
    policy: RewritePolicy,
    state: BodyState,
    input: Seq<u8>,
)
    requires
        valid(state),
        fed(kind, policy, state, input).error is None,
        fed(kind, policy, state, input).consumed == 0,
    ensures
        fed(kind, policy, state, input).state == state,
        fed(kind, policy, state, input).header == Seq::<u8>::empty(),
        fed(kind, policy, state, input).authority is None,
{
    if state.phase is Header {
        lemma_first_occurrence(input, HEADER_TERMINATOR@, 0);
        if let Some(end) = header_end(input) {
            law_states_stay_valid(kind, policy, state, input);
        }
    } else if input.len() > 0 {
        match state.phase {
            Phase::BodyChunked => {
                if state.chunk_remaining > 0 {
                    let take = min(state.chunk_remaining, input.len() as int);
                    let next = BodyState { chunk_remaining: state.chunk_remaining - take, ..state };
                    lemma_walk_bounds(next, input, take);
                } else if let Some(rel) = crlf_at(input.skip(0)) {
                    lemma_first_occurrence(input.skip(0), CRLF@, 0);
                    if let Some(size) = chunk_size(input.subrange(0, rel)) {
                        lemma_unsigned_nonneg(input.subrange(0, rel));
                        let next = if size == 0 {
                            BodyState { phase: Phase::BodyChunkedTrailers, ..state }
                        } else {
                            BodyState { chunk_remaining: size + 2, ..state }
                        };
                        lemma_walk_bounds(next, input, rel + 2);
                    }
                }
            },
            Phase::BodyChunkedTrailers => {
                if let Some(rel) = crlf_at(input.skip(0)) {
                    lemma_first_occurrence(input.skip(0), CRLF@, 0);
                    let next = BodyState {
                        phase: if rel == 0 {
                            Phase::Header
                        } else {
                            Phase::BodyChunkedTrailers
                        },
                        ..state
                    };
                    lemma_walk_bounds(next, input, rel + 2);
                }
            },
            _ => {},
        }
    }
}

/// A pattern that does not occur in `s` ends behind `s` where it occurs in a
/// longer string.
proof fn lemma_occurs_later(s: Seq<u8>, more: Seq<u8>, pattern: Seq<u8>)
    requires
        bytes::first_occurrence(s, pattern, 0) is None,
    ensures
        bytes::first_occurrence(s + more, pattern, 0) matches Some(i) ==> i + pattern.len()
            > s.len(),
{
    lemma_first_occurrence(s + more, pattern, 0);
    if let Some(i) = bytes::first_occurrence(s + more, pattern, 0) {
        if i + pattern.len() <= s.len() {
            assert(s.subrange(i, i + pattern.len()) =~= (s + more).subrange(
                i,
                i + pattern.len(),
            ));
            lemma_occurrence_found(s, pattern, 0, i);
        }
    }
}

/// The error that stops a walk over `a` stops the walk over anything that starts
/// with `a`.
proof fn lemma_walk_error_stands(state: BodyState, a: Seq<u8>, b: Seq<u8>, pos: int)
    requires
        0 <= pos <= a.len(),
        valid(state),
        walk(state, a, pos).error is Some,
    ensures
        walk(state, a + b, pos) == walk(state, a, pos),
    decreases a.len() - pos,
{
    let ab = a + b;
    match state.phase {
        Phase::BodyChunked => {
            if state.chunk_remaining > 0 {
                let take = min(state.chunk_remaining, a.len() - pos);
                let next = BodyState { chunk_remaining: state.chunk_remaining - take, ..state };
                lemma_walk_error_stands(next, a, b, pos + take);
            } else {
                lemma_first_occurrence(a.skip(pos), CRLF@, 0);
                assert(a.skip(pos) + b =~= ab.skip(pos));
                if let Some(rel) = crlf_at(a.skip(pos)) {
                    lemma_occurrence_prefix(a.skip(pos), b, CRLF@, 0);
                    assert(ab.subrange(pos, pos + rel) =~= a.subrange(pos, pos + rel));
                    if let Some(size) = chunk_size(a.subrange(pos, pos + rel)) {
                        lemma_unsigned_nonneg(a.subrange(pos, pos + rel));
                        if rel + 2 <= MAX_CHUNK_LINE && size <= max_chunk() {
                            let next = if size == 0 {
                                BodyState { phase: Phase::BodyChunkedTrailers, ..state }
                            } else {
                                BodyState { chunk_remaining: size + 2, ..state }
                            };
                            lemma_walk_error_stands(next, a, b, pos + rel + 2);
                        }
                    }
                } else {
                    lemma_occurs_later(a.skip(pos), b, CRLF@);
                    lemma_first_occurrence(ab.skip(pos), CRLF@, 0);
                }
            }
        },
        Phase::BodyChunkedTrailers => {
            lemma_first_occurrence(a.skip(pos), CRLF@, 0);
            assert(a.skip(pos) + b =~= ab.skip(pos));
            if let Some(rel) = crlf_at(a.skip(pos)) {
                lemma_occurrence_prefix(a.skip(pos), b, CRLF@, 0);
                if rel + 2 <= MAX_TRAILER_LINE {
                    let next = BodyState {
                        phase: if rel == 0 {
                            Phase::Header
                        } else {
                            Phase::BodyChunkedTrailers
                        },
                        ..state
                    };
                    lemma_walk_error_stands(next, a, b, pos + rel + 2);
                }
            } else {
                lemma_occurs_later(a.skip(pos), b, CRLF@);
                lemma_first_occurrence(ab.skip(pos), CRLF@, 0);
            }
        },
        _ => {},
    }
}

/// What refuses the bytes `a` refuses, with the same error, whatever starts with
/// them.
pub proof fn law_errors_stand(
    kind: Kind,
    policy: RewritePolicy,
    state: BodyState,
    a: Seq<u8>,
    b: Seq<u8>,
)
    requires
        valid(state),
        fed(kind, policy, state, a).error is Some,
    ensures
        fed(kind, policy, state, a + b).error == fed(kind, policy, state, a).error,
{
    let ab = a + b;
    if state.phase is Header {
        lemma_first_occurrence(a, HEADER_TERMINATOR@, 0);
        if let Some(end) = header_end(a) {
            lemma_occurrence_prefix(a, b, HEADER_TERMINATOR@, 0);
            assert(ab.take(end) =~= a.take(end));
            if end <= MAX_HEADER {
                let lines = lines_of(a.take(end));
                lemma_content_length_nonneg(lines, policy);
                if let Ok(scan) = scan_lines(lines, policy) {
                    let entered = body_state(
                        kind,
                        message_status(kind, lines),
                        scan.content_length,
                        scan.chunked,
                    );
                    lemma_walk_error_stands(entered, a, b, end);
                }
            }
        } else {
            lemma_occurs_later(a, b, HEADER_TERMINATOR@);
        }
    } else {
        lemma_walk_error_stands(state, a, b, 0);
    }
}

/// Bytes behind a finished message leave its outcome as it is.
pub proof fn law_a_finished_message_stands(
    kind: Kind,
    policy: RewritePolicy,
    state: BodyState,
    a: Seq<u8>,
    b: Seq<u8>,
)
    requires
        valid(state),
        fed(kind, policy, state, a).error is None,
        fed(kind, policy, state, a).consumed > 0,
        fed(kind, policy, state, a).state.phase is Header,
    ensures
        fed(kind, policy, state, a + b) == fed(kind, policy, state, a),
{
    let ab = a + b;
    if state.phase is Header {
        lemma_first_occurrence(a, HEADER_TERMINATOR@, 0);
        let end = header_end(a)->0;
        lemma_occurrence_prefix(a, b, HEADER_TERMINATOR@, 0);
        assert(ab.take(end) =~= a.take(end));
        let lines = lines_of(a.take(end));
        lemma_content_length_nonneg(lines, policy);
        let scan = scan_lines(lines, policy)->Ok_0;
        let entered = body_state(
            kind,
            message_status(kind, lines),
            scan.content_length,
            scan.chunked,
        );
        law_walk_resumes(entered, a, b, end);
    } else {
        law_walk_resumes(state, a, b, 0);
    }
}

/// The outcome of driving a framer over bytes: what it sent out and the
/// authorities it reported, the bytes left unconsumed, the state it was left in,
/// and the error that stopped it, if one did.
#[verifier::ext_equal]
pub struct Run {
    pub sent: Seq<u8>,
    pub authorities: Seq<AuthorityHeader>,
    pub left: Seq<u8>,
    pub state: BodyState,
    pub error: Option<FramingError>,
}

/// What one feed sends out: the header, and then the body.
pub open spec fn sent_by(f: Fed, input: Seq<u8>) -> Seq<u8> {
    f.header + input.subrange(f.body_start, f.consumed)
}

/// The authorities that one feed reports.
pub open spec fn reported_by(f: Fed) -> Seq<AuthorityHeader> {
    match f.authority {
        Some(h) => seq![h],
        None => Seq::empty(),
    }
}

/// One feed of a run: [`fed`], unfolded only where it is revealed.
#[verifier::opaque]
pub open spec fn one_feed(
    kind: Kind,
    policy: RewritePolicy,
    state: BodyState,
    input: Seq<u8>,
) -> Fed {
    fed(kind, policy, state, input)
}

/// Drive a framer over `input` as its owner does: feed, drop what was consumed,
/// and feed again until nothing is consumed.
pub open spec fn driven(kind: Kind, policy: RewritePolicy, state: BodyState, input: Seq<u8>) -> Run
    decreases input.len(),
{
    let f = one_feed(kind, policy, state, input);
    if f.error is Some || f.consumed <= 0 || f.consumed > input.len() {
        Run {
            sent: Seq::empty(),
            authorities: Seq::empty(),
            left: input,
            state: f.state,
            error: f.error,
        }
    } else {
        let rest = driven(kind, policy, f.state, input.skip(f.consumed));
        Run {
            sent: sent_by(f, input) + rest.sent,
            authorities: reported_by(f) + rest.authorities,
            ..rest
        }
    }
}

/// What one feed of a run keeps to.
proof fn lemma_one_feed(kind: Kind, policy: RewritePolicy, state: BodyState, input: Seq<u8>)
    requires
        valid(state),
    ensures
        ({
            let f = one_feed(kind, policy, state, input);
            &&& valid(f.state)
            &&& 0 <= f.body_start <= f.consumed <= input.len()
            &&& f.error is None && f.consumed == 0 ==> {
                &&& f.state == state
                &&& f.header == Seq::<u8>::empty()
                &&& f.authority is None
            }
            &&& !(state.phase is Header) ==> {
                &&& f.header == Seq::<u8>::empty()
                &&& f.authority is None
            }
        }),
{
    reveal(one_feed);
    law_states_stay_valid(kind, policy, state, input);
    let f = fed(kind, policy, state, input);
    if f.error is None && f.consumed == 0 {
        lemma_nothing_consumed(kind, policy, state, input);
    }
}

/// How a feed of `a` bears on a feed of `a` and `b`.
proof fn lemma_two_feeds(
    kind: Kind,
    policy: RewritePolicy,
    state: BodyState,
    a: Seq<u8>,
    b: Seq<u8>,
)
    requires
        valid(state),
    ensures
        ({
            let f = one_feed(kind, policy, state, a);
            let w = one_feed(kind, policy, state, a + b);
            let rest = (a + b).skip(f.consumed);
            let s = one_feed(kind, policy, f.state, rest);
            &&& f.error is Some ==> w.error == f.error
            &&& f.error is None && f.consumed > 0 && f.state.phase is Header ==> w == f
            &&& f.error is None && f.consumed > 0 && !(f.state.phase is Header) ==> {
                &&& w.consumed == f.consumed + s.consumed
                &&& w.state == s.state
                &&& w.error == s.error
                &&& w.header == f.header + s.header
                &&& w.authority == match f.authority {
                    Some(h) => Some(h),
                    None => s.authority,
                }
                &&& (a + b).subrange(w.body_start, w.consumed) == a.subrange(
                    f.body_start,
                    f.consumed,
                ) + rest.subrange(s.body_start, s.consumed)
            }
        }),
{
    reveal(one_feed);
    let f = fed(kind, policy, state, a);
    if f.error is Some {
        law_errors_stand(kind, policy, state, a, b);
    } else if f.consumed > 0 {
        if f.state.phase is Header {
            law_a_finished_message_stands(kind, policy, state, a, b);
        } else {
            law_feeding_in_pieces(kind, policy, state, a, b);
        }
    }
}

/// A run over `a` and `b` starts with what one feed of `a` yields.
proof fn lemma_run_peels(
    kind: Kind,
    policy: RewritePolicy,
    state: BodyState,
    a: Seq<u8>,
    b: Seq<u8>,
)
    requires
        valid(state),
        one_feed(kind, policy, state, a).error is None,
        one_feed(kind, policy, state, a).consumed > 0,
    ensures
        ({
            let f = one_feed(kind, policy, state, a);
            let whole = driven(kind, policy, state, a + b);
            let rest = driven(kind, policy, f.state, (a + b).skip(f.consumed));
            &&& whole.error == rest.error
            &&& rest.error is None ==> whole == (Run {
                sent: sent_by(f, a) + rest.sent,
                authorities: reported_by(f) + rest.authorities,
                ..rest
            })
        }),
{
    let ab = a + b;
    let f = one_feed(kind, policy, state, a);
    let c = f.consumed;
    lemma_one_feed(kind, policy, state, a);
    lemma_one_feed(kind, policy, state, ab);
    lemma_two_feeds(kind, policy, state, a, b);
    assert(ab.subrange(f.body_start, c) =~= a.subrange(f.body_start, c));
    if !(f.state.phase is Header) {
        let w = one_feed(kind, policy, state, ab);
        let rest = ab.skip(c);
        let s = one_feed(kind, policy, f.state, rest);
        lemma_one_feed(kind, policy, f.state, rest);
        assert(s.authority is None && s.header =~= Seq::<u8>::empty());
        if s.error is None {
            let tail = driven(kind, policy, s.state, rest.skip(s.consumed));
            assert(rest.skip(s.consumed) =~= ab.skip(w.consumed));
            assert(sent_by(w, ab) =~= sent_by(f, a) + sent_by(s, rest));
            assert(reported_by(w) =~= reported_by(f));
            if s.consumed == 0 {
                assert(rest.skip(0) =~= rest);
                assert(sent_by(s, rest) =~= Seq::<u8>::empty());
                assert(sent_by(w, ab) =~= sent_by(f, a));
            } else {
                assert(sent_by(w, ab) + tail.sent =~= sent_by(f, a) + (sent_by(s, rest)
                    + tail.sent));
                assert(reported_by(w) + tail.authorities =~= reported_by(f) + (reported_by(s)
                    + tail.authorities));
            }
        }
    }
}

/// Where a stream is cut does not matter. Driving a framer over `a`, and then over
/// what was left of `a` with the bytes `b` that arrived behind it, ends as driving
/// it over all of them at once does: with the same error, or with the same bytes
/// sent out, the same authorities reported, the same bytes left and the same state.
pub proof fn law_cuts_do_not_matter(
    kind: Kind,
    policy: RewritePolicy,
    state: BodyState,
    a: Seq<u8>,
    b: Seq<u8>,
)
    requires
        valid(state),
    ensures
        ({
            let whole = driven(kind, policy, state, a + b);
            let first = driven(kind, policy, state, a);
            let second = driven(kind, policy, first.state, first.left + b);
            if first.error is Some {
                whole.error == first.error
            } else {
                &&& whole.error == second.error
                &&& second.error is None ==> whole == (Run {
                    sent: first.sent + second.sent,
                    authorities: first.authorities + second.authorities,
                    ..second
                })
            }
        }),
    decreases a.len(),
{
    let ab = a + b;
    let f = one_feed(kind, policy, state, a);
    lemma_one_feed(kind, policy, state, a);
    lemma_two_feeds(kind, policy, state, a, b);
    if f.error is Some {
        lemma_one_feed(kind, policy, state, ab);
    } else if f.consumed == 0 {
        let whole = driven(kind, policy, state, ab);
        assert(Seq::<u8>::empty() + whole.sent =~= whole.sent);
        assert(Seq::<AuthorityHeader>::empty() + whole.authorities =~= whole.authorities);
    } else {
        let rest = a.skip(f.consumed);
        lemma_run_peels(kind, policy, state, a, b);
        law_cuts_do_not_matter(kind, policy, f.state, rest, b);
        assert(rest + b =~= ab.skip(f.consumed));
        let whole = driven(kind, policy, state, ab);
        let first = driven(kind, policy, state, a);
        let tail = driven(kind, policy, f.state, rest);
        let second = driven(kind, policy, first.state, first.left + b);
        if tail.error is None && second.error is None {
            assert(sent_by(f, a) + (tail.sent + second.sent) =~= first.sent + second.sent);
            assert(reported_by(f) + (tail.authorities + second.authorities)
                =~= first.authorities + second.authorities);
        }
    }
}

/// The lines as they go out under `policy`: the start line as it is, each other
/// with the authority that it carries, if any, replaced as the policy says.
pub open spec fn rewritten_lines(lines: Seq<Seq<u8>>, policy: RewritePolicy) -> Seq<u8>
    decreases lines.len(),
{
    if lines.len() == 0 {
        Seq::empty()
    } else if lines.len() == 1 {
        lines[0] + CRLF@
    } else {
        rewritten_lines(lines.drop_last(), policy) + rewritten(lines.last(), policy)
    }
}

/// A framing header carries no authority.
proof fn lemma_framing_lines_carry_none(line: Seq<u8>)
    requires
        stripped(line, text("Content-Length:"@)) is Some || stripped(
            line,
            text("Transfer-Encoding:"@),
        ) is Some,
    ensures
        line_authority(line) is None,
{
    reveal_strlit("Content-Length:");
    reveal_strlit("Transfer-Encoding:");
    reveal_strlit("Host:");
    reveal_strlit("Application-URL:");
    reveal_strlit("Location:");
    if stripped(line, text("Content-Length:"@)) is Some {
        assert(bytes::lower(line.take(15)[0]) == bytes::lower(text("Content-Length:"@)[0]));
        assert(line.take(15)[0] == line[0]);
    } else {
        assert(bytes::lower(line.take(18)[0]) == bytes::lower(text("Transfer-Encoding:"@)[0]));
        assert(line.take(18)[0] == line[0]);
    }
    assert(bytes::lower(line[0]) == 0x63 || bytes::lower(line[0]) == 0x74);
    if stripped(line, text("Host:"@)) is Some {
        assert(bytes::lower(line.take(5)[0]) == bytes::lower(text("Host:"@)[0]));
        assert(line.take(5)[0] == line[0]);
    }
    if stripped(line, text("Application-URL:"@)) is Some {
        assert(bytes::lower(line.take(16)[0]) == bytes::lower(text("Application-URL:"@)[0]));
        assert(line.take(16)[0] == line[0]);
    }
    if stripped(line, text("Location:"@)) is Some {
        assert(bytes::lower(line.take(9)[0]) == bytes::lower(text("Location:"@)[0]));
        assert(line.take(9)[0] == line[0]);
    }
}

/// What a scan finds does not depend on the policy, and what it emits is the
/// rewritten lines.
proof fn lemma_scans_agree(lines: Seq<Seq<u8>>, policy: RewritePolicy, other: RewritePolicy)
    ensures
        match scan_lines(lines, policy) {
            Ok(scan) => {
                &&& scan.out == rewritten_lines(lines, policy)
                &&& match scan_lines(lines, other) {
                    Ok(plain) => {
                        &&& plain.content_length == scan.content_length
                        &&& plain.chunked == scan.chunked
                        &&& plain.authority == scan.authority
                    },
                    Err(_) => false,
                }
            },
            Err(e) => scan_lines(lines, other) == Err::<Scan, FramingError>(e),
        },
    decreases lines.len(),
{
    if lines.len() > 1 {
        lemma_scans_agree(lines.drop_last(), policy, other);
        let line = lines.last();
        if stripped(line, text("Content-Length:"@)) is Some || stripped(
            line,
            text("Transfer-Encoding:"@),
        ) is Some {
            lemma_framing_lines_carry_none(line);
        }
        if let Ok(acc) = scan_lines(lines.drop_last(), policy) {
            assert(acc.out + line + CRLF@ =~= acc.out + (line + CRLF@));
        }
    }
}

/// A rewrite touches the authorities alone. Whatever the policy, a feed fails with
/// the error, takes the bytes, forwards the body, reports the authority and leaves
/// the state that it would where nothing is rewritten; the header block goes out
/// with nothing but the authorities of its lines replaced.
pub proof fn law_a_rewrite_touches_authorities_alone(
    kind: Kind,
    policy: RewritePolicy,
    plain: RewritePolicy,
    state: BodyState,
    input: Seq<u8>,
)
    requires
        rewrites_nothing(plain),
    ensures
        ({
            let f = fed(kind, policy, state, input);
            let g = fed(kind, plain, state, input);
            &&& f.error == g.error
            &&& f.consumed == g.consumed
            &&& f.body_start == g.body_start
            &&& f.authority == g.authority
            &&& f.state == g.state
            &&& if state.phase is Header && header_end(input) is Some && f.error is None {
                let block = input.take(header_end(input)->0);
                &&& g.header == block
                &&& f.header == rewritten_lines(lines_of(block), policy)
            } else {
                f.error is None ==> f.header == Seq::<u8>::empty() && g.header == Seq::<
                    u8,
                >::empty()
            }
        }),
{
    if state.phase is Header {
        lemma_first_occurrence(input, HEADER_TERMINATOR@, 0);
        if let Some(end) = header_end(input) {
            let block = input.take(end);
            let lines = lines_of(block);
            lemma_scans_agree(lines, policy, plain);
            lemma_scan_verbatim(lines, plain);
            assert(block.skip(end - 2) =~= CRLF@) by {
                let t = input.subrange(end - 4, end);
                assert(t == HEADER_TERMINATOR@);
                assert(block[end - 2] == t[2]);
                assert(block[end - 1] == t[3]);
            }
            lemma_lines_join(block);
        }
    }
}

/// Whether a response with this status has no body, whatever its headers say.
pub open spec fn bodyless(kind: Kind, status: u16) -> bool {
    kind is Response && (100 <= status <= 199 || status == 204 || status == 304)
}

/// What is forwarded of the bytes `stream` behind a header as the message's body,
/// where it is not chunked: nothing of a response whose status has no body; the
/// bytes that `Content-Length` counts, as far as they arrived; else nothing behind
/// a request, and everything behind a response. The message is finished once the
/// counted bytes are there, and a response without a count never is.
pub proof fn law_counted_bodies(
    kind: Kind,
    status: u16,
    content_length: Option<int>,
    chunked: bool,
    stream: Seq<u8>,
)
    requires
        content_length matches Some(n) ==> n >= 0,
        bodyless(kind, status) || !chunked,
    ensures
        ({
            let w = walk(body_state(kind, status, content_length, chunked), stream, 0);
            &&& w.error is None
            &&& if bodyless(kind, status) {
                w.pos == 0 && w.state.phase is Header
            } else {
                match content_length {
                    Some(n) => {
                        &&& w.pos == min(n, stream.len() as int)
                        &&& w.state.phase is Header <==> n <= stream.len()
                    },
                    None => if kind is Request {
                        w.pos == 0 && w.state.phase is Header
                    } else {
                        w.pos == stream.len() && w.state.phase is BodyCloseDelimited
                    },
                }
            }
        }),
{
}

/// A line: no carriage return in it is followed by a line feed.
pub open spec fn is_line(line: Seq<u8>) -> bool {
    forall|i: int| !#[trigger] breaks_at(line, i)
}

/// The first line break behind the start of a line is the one that ends it.
proof fn lemma_line_ends(line: Seq<u8>)
    requires
        is_line(line),
    ensures
        crlf_at(line + CRLF@) == Some(line.len() as int),
{
    let s = line + CRLF@;
    law_lines_end_at_their_first_break(s);
    assert(breaks_at(s, line.len() as int));
    if let Some(i) = crlf_at(s) {
        if i < line.len() {
            assert(s[i] == line[i]);
            if i + 1 < line.len() {
                assert(s[i + 1] == line[i + 1]);
                assert(breaks_at(line, i));
            }
        }
    }
}

/// A chunk: its size line, and its bytes.
pub struct Chunk {
    pub line: Seq<u8>,
    pub data: Seq<u8>,
}

/// Whether the size line of a chunk, of at most 256 bytes with its CRLF, writes the number of the
/// chunk's bytes in hexadecimal, by place value.
pub open spec fn announced(chunk: Chunk) -> bool {
    &&& is_line(chunk.line)
    &&& chunk.line.len() + 2 <= 256
    &&& writes_size(chunk.line, chunk.data.len() as int)
    &&& 0 < chunk.data.len() <= usize::MAX - 2
}

/// Whether a line can be the size line of the last chunk: it writes zero.
pub open spec fn announces_the_end(line: Seq<u8>) -> bool {
    is_line(line) && line.len() + 2 <= 256 && writes_size(line, 0)
}

/// The chunks as they travel: each size line and each chunk's bytes with a CRLF.
pub open spec fn chunk_bytes(chunks: Seq<Chunk>) -> Seq<u8>
    decreases chunks.len(),
{
    if chunks.len() == 0 {
        Seq::empty()
    } else {
        chunks[0].line + CRLF@ + chunks[0].data + CRLF@ + chunk_bytes(chunks.drop_first())
    }
}

/// Whether `line` can be a trailer field line: not blank, and of at most 1024 bytes with its CRLF.
pub open spec fn trailer(line: Seq<u8>) -> bool {
    is_line(line) && 0 < line.len() && line.len() + 2 <= 1024
}

/// The trailer field lines and the blank line behind them, as they travel.
pub open spec fn trailer_bytes(trailers: Seq<Seq<u8>>) -> Seq<u8>
    decreases trailers.len(),
{
    if trailers.len() == 0 {
        CRLF@
    } else {
        trailers[0] + CRLF@ + trailer_bytes(trailers.drop_first())
    }
}

/// The line at the front of bytes that start with it and its CRLF.
proof fn lemma_line_found(line: Seq<u8>, rest: Seq<u8>)
    requires
        is_line(line),
    ensures
        crlf_at((line + CRLF@ + rest).skip(0)) == Some(line.len() as int),
        (line + CRLF@ + rest).subrange(0, line.len() as int) == line,
        (line + CRLF@ + rest).skip(2 + line.len() as int) == rest,
{
    let s = line + CRLF@ + rest;
    lemma_line_ends(line);
    lemma_occurrence_prefix(line + CRLF@, rest, CRLF@, 0);
    assert(s.skip(0) =~= s);
    assert(s.subrange(0, line.len() as int) =~= line);
    assert(s.skip(2 + line.len() as int) =~= rest);
}

proof fn lemma_trailers_walked(state: BodyState, trailers: Seq<Seq<u8>>, more: Seq<u8>)
    requires
        state.phase is BodyChunkedTrailers,
        state.chunk_remaining >= 0,
        forall|i: int| 0 <= i < trailers.len() ==> trailer(#[trigger] trailers[i]),
    ensures
        walk(state, trailer_bytes(trailers) + more, 0) == (Walk {
            state: BodyState { phase: Phase::Header, ..state },
            pos: trailer_bytes(trailers).len() as int,
            error: None,
        }),
    decreases trailers.len(),
{
    let s = trailer_bytes(trailers) + more;
    if trailers.len() == 0 {
        let blank = Seq::<u8>::empty();
        assert(is_line(blank));
        lemma_line_found(blank, more);
        assert(blank + CRLF@ + more =~= s);
        let done = BodyState { phase: Phase::Header, ..state };
        assert(walk(done, s, 2) == (Walk { state: done, pos: 2, error: None }));
        assert(walk(state, s, 0) == walk(done, s, 2));
    } else {
        let line = trailers[0];
        let rest = trailer_bytes(trailers.drop_first());
        assert(trailer(line));
        assert forall|i: int| 0 <= i < trailers.drop_first().len() implies trailer(
            #[trigger] trailers.drop_first()[i],
        ) by {
            assert(trailers.drop_first()[i] == trailers[i + 1]);
        }
        lemma_trailers_walked(state, trailers.drop_first(), more);
        lemma_line_found(line, rest + more);
        assert(line + CRLF@ + (rest + more) =~= s);
        assert(walk(state, s, 0) == walk(state, s, 2 + line.len() as int));
        lemma_walk_shift(state, s, 2 + line.len() as int, 2 + line.len() as int);
    }
}

/// A walk passes over a chunk that stands at the front.
#[verifier::spinoff_prover]
proof fn lemma_chunk_walked(state: BodyState, chunk: Chunk, rest: Seq<u8>)
    requires
        state.phase is BodyChunked,
        state.chunk_remaining == 0,
        announced(chunk),
    ensures
        ({
            let front = chunk.line + CRLF@ + chunk.data + CRLF@;
            walk(state, front + rest, 0) == walk(state, front + rest, front.len() as int)
        }),
{
    let s = chunk.line + CRLF@ + chunk.data + CRLF@ + rest;
    let behind = chunk.data + CRLF@ + rest;
    let size = chunk.data.len() as int;
    let at = 2 + chunk.line.len() as int;
    law_written_sizes_are_read(chunk.line, size);
    lemma_line_found(chunk.line, behind);
    assert(chunk.line + CRLF@ + behind =~= s);
    let inside = BodyState { chunk_remaining: size + 2, ..state };
    assert(walk(state, s, 0) == walk(inside, s, at));
    assert(walk(inside, s, at) == walk(state, s, at + size + 2));
}

/// A walk passes over the size line of the last chunk.
#[verifier::spinoff_prover]
proof fn lemma_last_chunk_walked(state: BodyState, last: Seq<u8>, rest: Seq<u8>)
    requires
        state.phase is BodyChunked,
        state.chunk_remaining == 0,
        announces_the_end(last),
    ensures
        walk(state, last + CRLF@ + rest, 0) == walk(
            BodyState { phase: Phase::BodyChunkedTrailers, ..state },
            last + CRLF@ + rest,
            2 + last.len() as int,
        ),
{
    law_written_sizes_are_read(last, 0);
    lemma_line_found(last, rest);
}

proof fn lemma_chunks_walked(
    state: BodyState,
    chunks: Seq<Chunk>,
    last: Seq<u8>,
    trailers: Seq<Seq<u8>>,
    more: Seq<u8>,
)
    requires
        state.phase is BodyChunked,
        state.chunk_remaining == 0,
        forall|i: int| 0 <= i < chunks.len() ==> announced(#[trigger] chunks[i]),
        announces_the_end(last),
        forall|i: int| 0 <= i < trailers.len() ==> trailer(#[trigger] trailers[i]),
    ensures
        ({
            let body = chunk_bytes(chunks) + (last + CRLF@ + trailer_bytes(trailers));
            walk(state, body + more, 0) == (Walk {
                state: BodyState { phase: Phase::Header, ..state },
                pos: body.len() as int,
                error: None,
            })
        }),
    decreases chunks.len(),
{
    let end = last + CRLF@ + trailer_bytes(trailers);
    let body = chunk_bytes(chunks) + end;
    let s = body + more;
    if chunks.len() == 0 {
        let next = BodyState { phase: Phase::BodyChunkedTrailers, ..state };
        let rest = trailer_bytes(trailers) + more;
        lemma_last_chunk_walked(state, last, rest);
        assert(last + CRLF@ + rest =~= s);
        assert(s.skip(2 + last.len() as int) =~= rest);
        lemma_trailers_walked(next, trailers, more);
        lemma_walk_shift(next, s, 2 + last.len() as int, 2 + last.len() as int);
    } else {
        let chunk = chunks[0];
        assert(announced(chunk));
        let tail = chunk_bytes(chunks.drop_first()) + end;
        assert forall|i: int| 0 <= i < chunks.drop_first().len() implies announced(
            #[trigger] chunks.drop_first()[i],
        ) by {
            assert(chunks.drop_first()[i] == chunks[i + 1]);
        }
        lemma_chunks_walked(state, chunks.drop_first(), last, trailers, more);
        let front = chunk.line + CRLF@ + chunk.data + CRLF@;
        lemma_chunk_walked(state, chunk, tail + more);
        assert(front + (tail + more) =~= s);
        assert(s.skip(front.len() as int) =~= tail + more);
        lemma_walk_shift(state, s, front.len() as int, front.len() as int);
    }
}

/// A chunked body, where the status allows one, is forwarded up to the blank line behind its
/// zero-size chunk whatever `Content-Length` says, and with that the message is finished: what
/// follows belongs to the next one. The bytes of each chunk are not looked at.
pub proof fn law_chunked_bodies(
    kind: Kind,
    status: u16,
    content_length: Option<int>,
    chunks: Seq<Chunk>,
    last: Seq<u8>,
    trailers: Seq<Seq<u8>>,
    more: Seq<u8>,
)
    requires
        !bodyless(kind, status),
        forall|i: int| 0 <= i < chunks.len() ==> announced(#[trigger] chunks[i]),
        announces_the_end(last),
        forall|i: int| 0 <= i < trailers.len() ==> trailer(#[trigger] trailers[i]),
    ensures
        ({
            let body = chunk_bytes(chunks) + (last + CRLF@ + trailer_bytes(trailers));
            let w = walk(body_state(kind, status, content_length, true), body + more, 0);
            w.pos == body.len() && w.state.phase is Header && w.error is None
        }),
{
    let state = body_state(kind, status, content_length, true);
    lemma_chunks_walked(state, chunks, last, trailers, more);
}

/// The bytes of a body that a walk passes over are what a run sends out of them, as they are, and
/// the run goes on behind them.
pub proof fn law_walked_bodies_are_forwarded(
    kind: Kind,
    policy: RewritePolicy,
    state: BodyState,
    input: Seq<u8>,
)
    requires
        valid(state),
        !(state.phase is Header),
        walk(state, input, 0).error is None,
        walk(state, input, 0).pos > 0,
    ensures
        ({
            let w = walk(state, input, 0);
            let rest = driven(kind, policy, w.state, input.skip(w.pos));
            driven(kind, policy, state, input) == (Run {
                sent: input.take(w.pos) + rest.sent,
                ..rest
            })
        }),
{
    reveal(one_feed);
    lemma_walk_bounds(state, input, 0);
    let f = one_feed(kind, policy, state, input);
    let rest = driven(kind, policy, f.state, input.skip(f.consumed));
    assert(sent_by(f, input) =~= input.take(f.consumed));
    assert(reported_by(f) + rest.authorities =~= rest.authorities);
}

/// Nothing of a message is under way: the next bytes are a header.
pub open spec fn idle() -> BodyState {
    BodyState { phase: Phase::Header, body_remaining: 0, chunk_remaining: 0 }
}

/// What later feeds forward of the bytes behind a header as that message's body, where the body is
/// not chunked. Nothing, so that the bytes are read as the next header, behind a response whose
/// status has no body, a count of zero, or a request without a count. The counted bytes, as far as
/// they arrived, and the next header behind them. Every byte behind a response without a count.
pub proof fn law_later_feeds_forward_the_body(
    kind: Kind,
    policy: RewritePolicy,
    status: u16,
    content_length: Option<int>,
    chunked: bool,
    stream: Seq<u8>,
)
    requires
        content_length matches Some(n) ==> n >= 0,
        bodyless(kind, status) || !chunked,
    ensures
        ({
            let state = body_state(kind, status, content_length, chunked);
            let run = driven(kind, policy, state, stream);
            if bodyless(kind, status) {
                state == idle()
            } else {
                match content_length {
                    Some(n) => if n <= stream.len() {
                        let rest = driven(kind, policy, idle(), stream.skip(n));
                        run == (Run { sent: stream.take(n) + rest.sent, ..rest })
                    } else {
                        &&& run.sent == stream
                        &&& run.authorities == Seq::<AuthorityHeader>::empty()
                        &&& run.left == Seq::<u8>::empty()
                        &&& run.error is None
                        &&& run.state.phase is BodyContentLength
                        &&& run.state.body_remaining == n - stream.len()
                    },
                    None => if kind is Request {
                        state == idle()
                    } else {
                        &&& run.sent == stream
                        &&& run.authorities == Seq::<AuthorityHeader>::empty()
                        &&& run.left == Seq::<u8>::empty()
                        &&& run.error is None
                        &&& run.state == state
                        &&& run.state.phase is BodyCloseDelimited
                    },
                }
            }
        }),
{
    let state = body_state(kind, status, content_length, chunked);
    let run = driven(kind, policy, state, stream);
    law_counted_bodies(kind, status, content_length, chunked, stream);
    if !bodyless(kind, status) {
        if state.phase is Header {
            assert(stream.skip(0) =~= stream);
            assert(stream.take(0) + run.sent =~= run.sent);
        } else {
            let w = walk(state, stream, 0);
            if stream.len() == 0 {
                lemma_run_over_nothing(kind, policy, state, stream);
            } else {
                law_walked_bodies_are_forwarded(kind, policy, state, stream);
                if w.pos == stream.len() {
                    let rest = driven(kind, policy, w.state, stream.skip(w.pos));
                    lemma_run_over_nothing(kind, policy, w.state, stream.skip(w.pos));
                    assert(stream.take(w.pos) =~= stream);
                    assert(stream.take(w.pos) + rest.sent =~= stream);
                }
            }
        }
    }
}

/// A run over no bytes does nothing.
proof fn lemma_run_over_nothing(
    kind: Kind,
    policy: RewritePolicy,
    state: BodyState,
    input: Seq<u8>,
)
    requires
        valid(state),
        input.len() == 0,
    ensures
        driven(kind, policy, state, input) == (Run {
            sent: Seq::empty(),
            authorities: Seq::empty(),
            left: Seq::empty(),
            state,
            error: None,
        }),
{
    reveal(one_feed);
    lemma_first_occurrence(input, HEADER_TERMINATOR@, 0);
    assert(input =~= Seq::<u8>::empty());
}

/// What later feeds forward of the bytes behind a header as that message's body, where the body is
/// chunked and the status allows one: everything up to the blank line behind the zero-size chunk,
/// whatever `Content-Length` says, and the next header behind it.
pub proof fn law_later_feeds_forward_the_chunks(
    kind: Kind,
    policy: RewritePolicy,
    status: u16,
    content_length: Option<int>,
    chunks: Seq<Chunk>,
    last: Seq<u8>,
    trailers: Seq<Seq<u8>>,
    more: Seq<u8>,
)
    requires
        !bodyless(kind, status),
        forall|i: int| 0 <= i < chunks.len() ==> announced(#[trigger] chunks[i]),
        announces_the_end(last),
        forall|i: int| 0 <= i < trailers.len() ==> trailer(#[trigger] trailers[i]),
    ensures
        ({
            let body = chunk_bytes(chunks) + (last + CRLF@ + trailer_bytes(trailers));
            let state = body_state(kind, status, content_length, true);
            let rest = driven(kind, policy, idle(), more);
            driven(kind, policy, state, body + more) == (Run { sent: body + rest.sent, ..rest })
        }),
{
    let body = chunk_bytes(chunks) + (last + CRLF@ + trailer_bytes(trailers));
    let state = body_state(kind, status, content_length, true);
    lemma_chunks_walked(state, chunks, last, trailers, more);
    law_walked_bodies_are_forwarded(kind, policy, state, body + more);
    assert((body + more).take(body.len() as int) =~= body);
    assert((body + more).skip(body.len() as int) =~= more);
}

} // verus!
