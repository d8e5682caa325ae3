//! Laws of whole HTTP messages: where a header ends, what its lines say of the body, and how far
//! the message reaches.

#[allow(unused_imports)]
use crate::bytes;
#[allow(unused_imports)]
use crate::laws::http::{
    breaks_at, law_headers_end_at_the_first_blank_line, law_lines_end_at_their_first_break, spells,
};
#[allow(unused_imports)]
use crate::net::http::framing::streaming::{idle, is_line};
#[allow(unused_imports)]
use crate::net::http::framing::{
    body_state, chunk_size, content_length, crlf_at, fed, has_chunked, header_end, line_authority,
    lines_of, message_status, rewritten, scan_line, scan_lines, status_code, walk, AuthorityHeader,
    BodyState, Fed, FramingError, Kind, Phase, RewritePolicy, Scan, CRLF,
};
#[allow(unused_imports)]
use crate::net::http::{stripped, text};
use vstd::prelude::*;

verus! {

/// A line break.
pub open spec fn eol() -> Seq<u8> {
    seq![13u8, 10]
}

/// Lines, each with its line break.
pub open spec fn stacked(lines: Seq<Seq<u8>>) -> Seq<u8>
    decreases lines.len(),
{
    if lines.len() == 0 {
        Seq::empty()
    } else {
        lines[0] + eol() + stacked(lines.drop_first())
    }
}

/// Whether these can be the lines of a header: at least one, and none of them blank.
pub open spec fn header_lines(lines: Seq<Seq<u8>>) -> bool {
    lines.len() > 0 && forall|i: int|
        0 <= i < lines.len() ==> is_line(#[trigger] lines[i]) && lines[i].len() > 0
}

proof fn lemma_first_line(line: Seq<u8>, rest: Seq<u8>)
    requires
        is_line(line),
    ensures
        breaks_at(line + eol() + rest, line.len() as int),
        forall|j: int| 0 <= j < line.len() ==> !#[trigger] breaks_at(line + eol() + rest, j),
        crlf_at(line + eol() + rest) == Some(line.len() as int),
{
    let s = line + eol() + rest;
    let n = line.len() as int;
    assert(s[n] == 13 && s[n + 1] == 10);
    assert forall|j: int| 0 <= j < n implies !#[trigger] breaks_at(s, j) by {
        assert(s[j] == line[j]);
        if j + 1 < n {
            assert(s[j + 1] == line[j + 1]);
            assert(!breaks_at(line, j));
        }
    }
    law_lines_end_at_their_first_break(s);
    assert(breaks_at(s, n));
    if let Some(i) = crlf_at(s) {
        if i < n {
            assert(!breaks_at(s, i));
        } else if i > n {
            assert(!breaks_at(s, n));
        }
    }
}

proof fn lemma_no_blank_line_before(lines: Seq<Seq<u8>>, rest: Seq<u8>, j: int)
    requires
        header_lines(lines),
        0 <= j < stacked(lines).len() - 2,
    ensures
        ({
            let s = stacked(lines) + eol() + rest;
            !(breaks_at(s, j) && breaks_at(s, j + 2))
        }),
    decreases lines.len(),
{
    let s = stacked(lines) + eol() + rest;
    let line = lines[0];
    let others = lines.drop_first();
    let n = line.len() as int;
    let behind = stacked(others) + eol() + rest;
    assert(is_line(line));
    assert(s =~= line + eol() + behind);
    lemma_first_line(line, behind);
    if j < n {
        assert(!breaks_at(s, j));
    } else if j == n + 1 {
        assert(s[j] == 10);
    } else if others.len() == 0 {
        assert(stacked(others) =~= Seq::<u8>::empty());
    } else {
        assert forall|i: int| 0 <= i < others.len() implies is_line(#[trigger] others[i])
            && others[i].len() > 0 by {
            assert(others[i] == lines[i + 1]);
        }
        assert(s.skip(n + 2) =~= behind);
        if j == n {
            let next = others[0];
            assert(is_line(next) && next.len() > 0);
            let tail = stacked(others.drop_first()) + eol() + rest;
            assert(behind =~= next + eol() + tail);
            lemma_first_line(next, tail);
            assert(!breaks_at(behind, 0));
            assert(behind[0] == s[n + 2] && behind[1] == s[n + 3]);
        } else {
            lemma_no_blank_line_before(others, rest, j - n - 2);
            let k = j - n - 2;
            assert(behind[k] == s[j] && behind[k + 1] == s[j + 1]);
            if j + 3 < s.len() {
                assert(behind[k + 2] == s[j + 2] && behind[k + 3] == s[j + 3]);
            }
        }
    }
}

proof fn lemma_stacked_ends(lines: Seq<Seq<u8>>)
    requires
        lines.len() > 0,
    ensures
        stacked(lines).len() >= 2,
        stacked(lines)[stacked(lines).len() - 2] == 13,
        stacked(lines)[stacked(lines).len() - 1] == 10,
    decreases lines.len(),
{
    let others = lines.drop_first();
    if others.len() > 0 {
        lemma_stacked_ends(others);
    } else {
        assert(stacked(others) =~= Seq::<u8>::empty());
    }
}

/// A header is its lines and the blank line behind them, whatever follows.
pub proof fn law_a_blank_line_ends_the_header(lines: Seq<Seq<u8>>, rest: Seq<u8>)
    requires
        header_lines(lines),
    ensures
        header_end(stacked(lines) + eol() + rest) == Some(stacked(lines).len() as int + 2),
        lines_of(stacked(lines) + eol()) == lines.push(Seq::empty()),
{
    let s = stacked(lines) + eol() + rest;
    let n = stacked(lines).len() as int;
    lemma_stacked_ends(lines);
    law_headers_end_at_the_first_blank_line(s);
    assert(s[n - 2] == stacked(lines)[n - 2] && s[n - 1] == stacked(lines)[n - 1]);
    assert(breaks_at(s, n - 2) && breaks_at(s, n));
    assert(breaks_at(s, (n - 2) + 2));
    let e = header_end(s)->0;
    if e - 4 < n - 2 {
        lemma_no_blank_line_before(lines, rest, e - 4);
        assert(breaks_at(s, (e - 4) + 2));
    }
    lemma_lines_of(lines);
}

proof fn lemma_lines_of(lines: Seq<Seq<u8>>)
    requires
        forall|i: int| 0 <= i < lines.len() ==> is_line(#[trigger] lines[i]),
    ensures
        lines_of(stacked(lines) + eol()) == lines.push(Seq::empty()),
    decreases lines.len(),
{
    let s = stacked(lines) + eol();
    if lines.len() == 0 {
        let blank = Seq::<u8>::empty();
        assert(s =~= blank + eol() + blank);
        assert(is_line(blank));
        lemma_first_line(blank, blank);
        assert(s.take(0) =~= blank);
        assert(s.skip(2) =~= blank);
        assert(lines_of(blank) =~= Seq::<Seq<u8>>::empty());
        assert(lines_of(s) =~= lines.push(blank));
    } else {
        let line = lines[0];
        assert(is_line(line));
        let others = lines.drop_first();
        assert forall|i: int| 0 <= i < others.len() implies is_line(#[trigger] others[i]) by {
            assert(others[i] == lines[i + 1]);
        }
        lemma_lines_of(others);
        let behind = stacked(others) + eol();
        assert(s =~= line + eol() + behind);
        lemma_first_line(line, behind);
        assert(s.take(line.len() as int) =~= line);
        assert(s.skip(line.len() as int + 2) =~= behind);
        assert(lines_of(s) =~= lines.push(Seq::empty()));
    }
}

/// `content-length:`.
pub open spec fn count_name() -> Seq<u8> {
    seq![99u8, 111, 110, 116, 101, 110, 116, 45, 108, 101, 110, 103, 116, 104, 58]
}

/// `transfer-encoding:`.
pub open spec fn coding_name() -> Seq<u8> {
    seq![
        116u8,
        114,
        97,
        110,
        115,
        102,
        101,
        114,
        45,
        101,
        110,
        99,
        111,
        100,
        105,
        110,
        103,
        58,
    ]
}

/// Whether a line begins with a name, in any case.
pub open spec fn has_field(line: Seq<u8>, name: Seq<u8>) -> bool {
    line.len() >= name.len() && spells(line.take(name.len() as int), name)
}

/// The count that a line states.
pub open spec fn stated_count(line: Seq<u8>) -> Option<int> {
    content_length(line.skip(15))
}

/// Whether a line says that the body is chunked.
pub open spec fn says_chunked(line: Seq<u8>) -> bool {
    has_field(line, coding_name()) && has_chunked(line.skip(18))
}

proof fn lemma_framing_names(line: Seq<u8>)
    ensures
        stripped(line, text("Content-Length:"@)) == if has_field(line, count_name()) {
            Some(line.skip(15))
        } else {
            None
        },
        stripped(line, text("Transfer-Encoding:"@)) == if has_field(line, coding_name()) {
            Some(line.skip(18))
        } else {
            None
        },
        !(has_field(line, count_name()) && has_field(line, coding_name())),
{
    reveal_strlit("Content-Length:");
    reveal_strlit("Transfer-Encoding:");
    let a = text("Content-Length:"@);
    let b = text("Transfer-Encoding:"@);
    if line.len() >= 15 {
        lemma_spelling(line.take(15), a, count_name());
        assert(line.take(15)[0] == line[0]);
    }
    if line.len() >= 18 {
        lemma_spelling(line.take(18), b, coding_name());
        assert(line.take(18)[0] == line[0]);
    }
}

proof fn lemma_spelling(s: Seq<u8>, name: Seq<u8>, word: Seq<u8>)
    requires
        name.len() == word.len(),
        forall|i: int|
            0 <= i < name.len() ==> (#[trigger] name[i] == word[i] || 65 <= name[i] <= 90
                && name[i] + 32 == word[i]) && !(65 <= word[i] <= 90),
    ensures
        bytes::same_ignoring_case(s, name) <==> spells(s, word),
{
    crate::laws::strings::law_case_is_ignored_for_letters_alone(s, name);
    if s.len() == name.len() {
        if bytes::same_ignoring_case(s, name) {
            assert forall|i: int| 0 <= i < s.len() implies (#[trigger] s[i] == word[i] || 65 <= s[i]
                <= 90 && s[i] + 32 == word[i]) by {
                assert(crate::laws::strings::same_letter(s[i], name[i]));
                assert(name[i] == name[i]);
            }
        }
        if spells(s, word) {
            assert forall|i: int| 0 <= i < s.len() implies crate::laws::strings::same_letter(
                #[trigger] s[i],
                name[i],
            ) by {
                assert(s[i] == word[i] || 65 <= s[i] <= 90 && s[i] + 32 == word[i]);
                assert(name[i] == name[i]);
            }
        }
    }
}

/// Whether some field line states a malformed count.
pub open spec fn miscounts(lines: Seq<Seq<u8>>) -> bool {
    exists|k: int|
        1 <= k < lines.len() && has_field(#[trigger] lines[k], count_name()) && stated_count(
            lines[k],
        ) is None
}

/// Whether some field line says that the body is chunked.
pub open spec fn chunked_by(lines: Seq<Seq<u8>>) -> bool {
    exists|k: int| 1 <= k < lines.len() && says_chunked(#[trigger] lines[k])
}

/// Whether the last field line with a count, at `k`, states it.
pub open spec fn last_count(lines: Seq<Seq<u8>>, k: int) -> bool {
    &&& 1 <= k < lines.len()
    &&& has_field(lines[k], count_name())
    &&& forall|i: int| k < i < lines.len() ==> !has_field(#[trigger] lines[i], count_name())
}

/// Whether no field line states a count.
pub open spec fn uncounted(lines: Seq<Seq<u8>>) -> bool {
    forall|i: int| 1 <= i < lines.len() ==> !has_field(#[trigger] lines[i], count_name())
}

/// A line that carries an authority, and is not one of the two that frame the body.
pub open spec fn names_authority(line: Seq<u8>) -> bool {
    !has_field(line, count_name()) && !has_field(line, coding_name()) && line_authority(line) is Some
}

/// The authority that such a line names.
pub open spec fn named_authority(line: Seq<u8>) -> AuthorityHeader {
    let (_, _, header) = line_authority(line)->0;
    header
}

/// What a header's field lines say of the body, whatever the start line holds. A malformed count
/// is refused wherever it stands; else the last count holds, the body is chunked where any line
/// says so, and the last authority is reported.
#[verifier::spinoff_prover]
pub proof fn law_field_lines_frame_the_body(lines: Seq<Seq<u8>>, policy: RewritePolicy)
    requires
        lines.len() > 0,
    ensures
        miscounts(lines) ==> scan_lines(lines, policy) == Err::<Scan, FramingError>(
            FramingError::MalformedContentLength,
        ),
        !miscounts(lines) ==> scan_lines(lines, policy) is Ok,
        scan_lines(lines, policy) matches Ok(scan) ==> {
            &&& scan.chunked <==> chunked_by(lines)
            &&& uncounted(lines) ==> scan.content_length is None
            &&& forall|k: int| #[trigger]
                last_count(lines, k) ==> scan.content_length == stated_count(lines[k])
            &&& forall|k: int|
                1 <= k < lines.len() && names_authority(#[trigger] lines[k]) && (forall|i: int|
                    k < i < lines.len() ==> !names_authority(#[trigger] lines[i]))
                    ==> scan.authority == Some(named_authority(lines[k]))
            &&& (forall|i: int| 1 <= i < lines.len() ==> !names_authority(#[trigger] lines[i]))
                ==> scan.authority is None
        },
    decreases lines.len(),
{
    if lines.len() > 1 {
        let rest = lines.drop_last();
        let n = lines.len() - 1;
        let line = lines.last();
        assert(lines[n] == line);
        law_field_lines_frame_the_body(rest, policy);
        lemma_framing_names(line);
        assert forall|i: int| 0 <= i < n implies #[trigger] rest[i] == lines[i] by {}
        lemma_miscounts_step(lines);
        lemma_chunked_step(lines);
        if let Ok(scan) = scan_lines(lines, policy) {
            let acc = scan_lines(rest, policy)->Ok_0;
            if has_field(line, count_name()) {
                assert forall|k: int| #[trigger] last_count(lines, k) implies scan.content_length
                    == stated_count(lines[k]) by {
                    if k < n {
                        assert(!has_field(lines[n], count_name()));
                    }
                }
                if uncounted(lines) {
                    assert(!has_field(lines[n], count_name()));
                }
            } else {
                assert(scan.content_length == acc.content_length);
                assert forall|k: int| #[trigger] last_count(lines, k) implies scan.content_length
                    == stated_count(lines[k]) by {
                    assert(k < n);
                    assert(rest[k] == lines[k]);
                    assert forall|i: int| k < i < rest.len() implies !has_field(
                        #[trigger] rest[i],
                        count_name(),
                    ) by {
                        assert(!has_field(lines[i], count_name()));
                    }
                    assert(last_count(rest, k));
                }
                if uncounted(lines) {
                    assert forall|i: int| 1 <= i < rest.len() implies !has_field(
                        #[trigger] rest[i],
                        count_name(),
                    ) by {
                        assert(!has_field(lines[i], count_name()));
                    }
                    assert(uncounted(rest));
                }
            }
            assert forall|k: int|
                1 <= k < lines.len() && names_authority(#[trigger] lines[k]) && (forall|i: int|
                    k < i < lines.len() ==> !names_authority(#[trigger] lines[i]))
                implies scan.authority == Some(named_authority(lines[k])) by {
                if k < n {
                    assert(!names_authority(lines[n]));
                    assert(rest[k] == lines[k]);
                    assert forall|i: int| k < i < rest.len() implies !names_authority(
                        #[trigger] rest[i],
                    ) by {
                        assert(!names_authority(lines[i]));
                    }
                }
            }
            if forall|i: int| 1 <= i < lines.len() ==> !names_authority(#[trigger] lines[i]) {
                assert(!names_authority(lines[n]));
                assert forall|i: int| 1 <= i < rest.len() implies !names_authority(
                    #[trigger] rest[i],
                ) by {
                    assert(!names_authority(lines[i]));
                }
            }
        }
    }
}

proof fn lemma_miscounts_step(lines: Seq<Seq<u8>>)
    requires
        lines.len() > 1,
    ensures
        miscounts(lines) <==> miscounts(lines.drop_last()) || (has_field(
            lines.last(),
            count_name(),
        ) && stated_count(lines.last()) is None),
{
    let rest = lines.drop_last();
    let n = lines.len() - 1;
    assert(lines[n] == lines.last());
    if miscounts(rest) {
        let k = choose|k: int|
            1 <= k < rest.len() && has_field(#[trigger] rest[k], count_name()) && stated_count(
                rest[k],
            ) is None;
        assert(lines[k] == rest[k]);
    }
    if miscounts(lines) {
        let k = choose|k: int|
            1 <= k < lines.len() && has_field(#[trigger] lines[k], count_name()) && stated_count(
                lines[k],
            ) is None;
        if k < n {
            assert(rest[k] == lines[k]);
        }
    }
}

proof fn lemma_chunked_step(lines: Seq<Seq<u8>>)
    requires
        lines.len() > 1,
    ensures
        chunked_by(lines) <==> chunked_by(lines.drop_last()) || says_chunked(lines.last()),
{
    let rest = lines.drop_last();
    let n = lines.len() - 1;
    assert(lines[n] == lines.last());
    if chunked_by(rest) {
        let k = choose|k: int| 1 <= k < rest.len() && says_chunked(#[trigger] rest[k]);
        assert(lines[k] == rest[k]);
    }
    if chunked_by(lines) {
        let k = choose|k: int| 1 <= k < lines.len() && says_chunked(#[trigger] lines[k]);
        if k < n {
            assert(rest[k] == lines[k]);
        }
    }
}

/// Whether the status of a response says that it has no body.
pub open spec fn without_body(kind: Kind, lines: Seq<Seq<u8>>) -> bool {
    let status = status_code(lines[0]);
    kind is Response && (100 <= status < 200 || status == 204 || status == 304)
}

proof fn lemma_blank_line_says_nothing(lines: Seq<Seq<u8>>, policy: RewritePolicy)
    requires
        lines.len() > 0,
    ensures
        ({
            let all = lines.push(Seq::empty());
            match scan_lines(lines, policy) {
                Ok(scan) => {
                    &&& scan_lines(all, policy) matches Ok(more)
                    &&& more.content_length == scan.content_length
                    &&& more.chunked == scan.chunked
                    &&& more.authority == scan.authority
                    &&& more.out == scan.out + eol()
                },
                Err(e) => scan_lines(all, policy) == Err::<Scan, FramingError>(e),
            }
        }),
{
    reveal_strlit("Host:");
    reveal_strlit("Application-URL:");
    reveal_strlit("Location:");
    let blank = Seq::<u8>::empty();
    let all = lines.push(blank);
    assert(all.drop_last() =~= lines);
    lemma_framing_names(blank);
    assert(line_authority(blank) is None);
    assert(rewritten(blank, policy) =~= eol());
}

/// How far a message reaches that is fed from its first byte on. A malformed count is refused, and
/// nothing of the message taken. Else the header is taken, and behind it: nothing, where a
/// response's status says that there is no body, or a request states no count; as many bytes as
/// the last count states, as far as they are there, and the message is over once they are; of a
/// response without a count everything, and it is never over. A chunked body takes precedence over
/// a count.
#[verifier::spinoff_prover]
pub proof fn law_messages_reach_as_far_as_they_say(
    kind: Kind,
    policy: RewritePolicy,
    lines: Seq<Seq<u8>>,
    rest: Seq<u8>,
)
    requires
        header_lines(lines),
        stacked(lines).len() + 2 <= 2048,
    ensures
        ({
            let f = fed(kind, policy, idle(), stacked(lines) + eol() + rest);
            let end = stacked(lines).len() + 2;
            if miscounts(lines) {
                &&& f.error == Some(FramingError::MalformedContentLength)
                &&& f.consumed == 0
                &&& f.header.len() == 0
                &&& f.state == idle()
            } else {
                &&& f.body_start == end
                &&& without_body(kind, lines) ==> f.error is None && f.consumed == end
                    && f.state.phase is Header
                &&& !without_body(kind, lines) && !chunked_by(lines) ==> {
                    &&& f.error is None
                    &&& forall|k: int| #[trigger]
                        last_count(lines, k) ==> {
                            let n = stated_count(lines[k])->0;
                            &&& n <= rest.len() ==> f.consumed == end + n && f.state.phase is Header
                            &&& n > rest.len() ==> f.consumed == end + rest.len()
                                && f.state.phase is BodyContentLength && f.state.body_remaining == n
                                - rest.len()
                        }
                    &&& uncounted(lines) && kind is Request ==> f.consumed == end
                        && f.state.phase is Header
                    &&& uncounted(lines) && kind is Response ==> f.consumed == end + rest.len()
                        && f.state.phase is BodyCloseDelimited
                }
                &&& !without_body(kind, lines) && chunked_by(lines) ==> {
                    let w = walk(
                        BodyState { phase: Phase::BodyChunked, body_remaining: 0, chunk_remaining: 0 },
                        stacked(lines) + eol() + rest,
                        end as int,
                    );
                    f.error == w.error && f.consumed == w.pos && f.state == w.state
                }
                &&& forall|k: int|
                    1 <= k < lines.len() && names_authority(#[trigger] lines[k]) && (forall|i: int|
                        k < i < lines.len() ==> !names_authority(#[trigger] lines[i]))
                        ==> f.authority == Some(named_authority(lines[k]))
                &&& (forall|i: int| 1 <= i < lines.len() ==> !names_authority(#[trigger] lines[i]))
                    ==> f.authority is None
            }
        }),
{
    let input = stacked(lines) + eol() + rest;
    let end = stacked(lines).len() as int + 2;
    law_a_blank_line_ends_the_header(lines, rest);
    assert(input.take(end) =~= stacked(lines) + eol());
    let all = lines.push(Seq::empty());
    lemma_blank_line_says_nothing(lines, policy);
    law_field_lines_frame_the_body(lines, policy);
    assert(all[0] == lines[0]);
    assert(message_status(kind, all) == if kind is Response { status_code(lines[0]) } else { 0 });
    if let Ok(scan) = scan_lines(lines, policy) {
        lemma_counts_nonneg(lines);
        let state = body_state(kind, message_status(kind, all), scan.content_length, scan.chunked);
        lemma_plain_walk(state, input, end);
    }
}

proof fn lemma_counts_nonneg(lines: Seq<Seq<u8>>)
    ensures
        forall|k: int| #[trigger]
            last_count(lines, k) && stated_count(lines[k]) is Some ==> stated_count(lines[k])->0
                >= 0,
{
    assert forall|k: int| #[trigger]
        last_count(lines, k) && stated_count(lines[k]) is Some implies stated_count(lines[k])->0
        >= 0 by {
        bytes::lemma_digits_value_nonneg(bytes::trimmed(lines[k].skip(15)), 10);
    }
}

/// How far a walk comes through a body that is not chunked.
proof fn lemma_plain_walk(state: BodyState, input: Seq<u8>, at: int)
    requires
        0 <= at <= input.len(),
    ensures
        state.phase is Header ==> walk(state, input, at).pos == at && walk(state, input, at).state
            == state && walk(state, input, at).error is None,
        state.phase is BodyCloseDelimited ==> walk(state, input, at).pos == input.len() && walk(
            state,
            input,
            at,
        ).state == state && walk(state, input, at).error is None,
        state.phase is BodyContentLength && state.body_remaining > 0 ==> {
            let w = walk(state, input, at);
            let n = state.body_remaining;
            &&& w.error is None
            &&& n <= input.len() - at ==> w.pos == at + n && w.state.phase is Header
            &&& n > input.len() - at ==> w.pos == input.len() && w.state.phase is BodyContentLength
                && w.state.body_remaining == n - (input.len() - at)
        },
{
}

/// A header whose blank line has not arrived is waited for while it is no longer than 2048 bytes,
/// and refused beyond that; so is one whose blank line ends beyond 2048 bytes.
pub proof fn law_headers_are_capped(kind: Kind, policy: RewritePolicy, input: Seq<u8>)
    requires
        forall|j: int|
            j + 4 <= 2048 ==> !(#[trigger] breaks_at(input, j) && breaks_at(input, j + 2)),
    ensures
        ({
            let f = fed(kind, policy, idle(), input);
            let complete = exists|j: int| #[trigger]
                breaks_at(input, j) && breaks_at(input, j + 2);
            &&& f.consumed == 0
            &&& f.header.len() == 0
            &&& f.state == idle()
            &&& input.len() > 2048 || complete ==> f.error == Some(FramingError::HeaderTooLong)
            &&& input.len() <= 2048 && !complete ==> f.error is None
        }),
{
    law_headers_end_at_the_first_blank_line(input);
    match header_end(input) {
        Some(e) => {
            assert(breaks_at(input, e - 4) && breaks_at(input, (e - 4) + 2));
        },
        None => {},
    }
}

/// In a chunked body, a chunk's line is waited for while it is no longer than 256 bytes, its line
/// break with it, and refused beyond that; one that is no size, or that no length can hold together
/// with the chunk's line break, is refused. Nothing of a refused line is taken.
pub proof fn law_chunk_lines_are_checked(input: Seq<u8>)
    requires
        input.len() > 0,
    ensures
        ({
            let state = BodyState {
                phase: Phase::BodyChunked,
                body_remaining: 0,
                chunk_remaining: 0,
            };
            let w = walk(state, input, 0);
            &&& (forall|j: int| !#[trigger] breaks_at(input, j)) ==> w.pos == 0 && w.state == state
                && (w.error == if input.len() > 256 {
                Some(FramingError::ChunkLineTooLong)
            } else {
                None
            })
            &&& forall|i: int|
                #![trigger input.take(i)]
                breaks_at(input, i) && is_line(input.take(i)) ==> {
                    &&& i + 2 > 256 ==> w.error == Some(FramingError::ChunkLineTooLong) && w.pos
                        == 0
                    &&& i + 2 <= 256 && (chunk_size(input.take(i)) is None || chunk_size(
                        input.take(i),
                    )->0 > usize::MAX - 2) ==> w.error == Some(FramingError::MalformedChunkSize)
                        && w.pos == 0
                }
        }),
{
    assert(input.skip(0) =~= input);
    law_lines_end_at_their_first_break(input);
    assert forall|i: int|
        #![trigger input.take(i)]
        breaks_at(input, i) && is_line(input.take(i)) implies crlf_at(input) == Some(i)
        && input.subrange(0, i) == input.take(i) by {
        let line = input.take(i);
        assert(input =~= line + eol() + input.skip(i + 2));
        lemma_first_line(line, input.skip(i + 2));
        assert(input.subrange(0, i) =~= line);
    }
}

/// Behind the last chunk, a trailer line is waited for while it is no longer than 1024 bytes, its
/// line break with it, and refused beyond that.
pub proof fn law_trailer_lines_are_capped(input: Seq<u8>)
    requires
        input.len() > 0,
        forall|j: int| j + 2 <= 1024 ==> !#[trigger] breaks_at(input, j),
    ensures
        ({
            let state = BodyState {
                phase: Phase::BodyChunkedTrailers,
                body_remaining: 0,
                chunk_remaining: 0,
            };
            let w = walk(state, input, 0);
            let complete = exists|j: int| #[trigger] breaks_at(input, j);
            &&& w.pos == 0
            &&& w.state == state
            &&& input.len() > 1024 || complete ==> w.error == Some(FramingError::TrailerLineTooLong)
            &&& input.len() <= 1024 && !complete ==> w.error is None
        }),
{
    assert(input.skip(0) =~= input);
    law_lines_end_at_their_first_break(input);
}

/// A header as it is sent on: the start line as it came, each field line rewritten, and the blank
/// line.
pub open spec fn sent_on(lines: Seq<Seq<u8>>, policy: RewritePolicy) -> Seq<u8>
    decreases lines.len(),
{
    if lines.len() == 0 {
        Seq::empty()
    } else if lines.len() == 1 {
        lines[0] + eol()
    } else {
        sent_on(lines.drop_last(), policy) + rewritten(lines.last(), policy)
    }
}

proof fn lemma_framing_lines_stay(line: Seq<u8>, policy: RewritePolicy)
    requires
        has_field(line, count_name()) || has_field(line, coding_name()),
    ensures
        rewritten(line, policy) == line + eol(),
{
    if has_field(line, count_name()) {
        assert(line.take(15)[0] == line[0]);
    } else {
        assert(line.take(18)[0] == line[0]);
    }
    assert forall|c: crate::laws::http::Carrier|
        #![trigger crate::laws::http::carrier_name(c)]
        line.len() >= crate::laws::http::carrier_name(c).len() implies !spells(
        line.take(crate::laws::http::carrier_name(c).len() as int),
        crate::laws::http::carrier_name(c),
    ) by {
        let name = crate::laws::http::carrier_name(c);
        assert(name.len() >= 5);
        assert(line.take(name.len() as int)[0] == line[0]);
        assert(name[0] == 104 || name[0] == 97 || name[0] == 108);
    }
    crate::laws::http::law_other_lines_carry_no_authority(line, policy);
}

proof fn lemma_sent_on(lines: Seq<Seq<u8>>, policy: RewritePolicy)
    requires
        lines.len() > 0,
    ensures
        scan_lines(lines, policy) matches Ok(scan) ==> scan.out == sent_on(lines, policy),
    decreases lines.len(),
{
    assert(CRLF@ =~= eol());
    if lines.len() > 1 {
        let line = lines.last();
        lemma_sent_on(lines.drop_last(), policy);
        lemma_framing_names(line);
        if has_field(line, count_name()) || has_field(line, coding_name()) {
            lemma_framing_lines_stay(line, policy);
        }
        if let Ok(acc) = scan_lines(lines.drop_last(), policy) {
            assert(acc.out + line + CRLF@ =~= acc.out + (line + eol()));
        }
    }
}

/// What is sent on of a header that is taken: its start line as it came, each field line rewritten
/// as the policy says, in order, and the blank line.
pub proof fn law_headers_are_sent_on_line_by_line(
    kind: Kind,
    policy: RewritePolicy,
    lines: Seq<Seq<u8>>,
    rest: Seq<u8>,
)
    requires
        header_lines(lines),
        stacked(lines).len() + 2 <= 2048,
        !miscounts(lines),
    ensures
        fed(kind, policy, idle(), stacked(lines) + eol() + rest).header == sent_on(lines, policy)
            + eol(),
{
    let input = stacked(lines) + eol() + rest;
    let end = stacked(lines).len() as int + 2;
    law_a_blank_line_ends_the_header(lines, rest);
    assert(input.take(end) =~= stacked(lines) + eol());
    lemma_blank_line_says_nothing(lines, policy);
    law_field_lines_frame_the_body(lines, policy);
    lemma_sent_on(lines, policy);
}

/// A buffer whose end has been reached starts over behind its unread bytes, and any other goes on
/// where it is: there is room again exactly where the unread bytes leave some.
pub proof fn law_buffers_reclaim_what_was_read(buffer: crate::net::stream_buffer::StreamBuffer)
    requires
        buffer@.len() <= buffer.written() <= buffer.spec_capacity(),
    ensures
        ({
            let at = crate::net::stream_buffer::reclaimed(buffer);
            &&& buffer@.len() <= at <= buffer.written()
            &&& at < buffer.spec_capacity() <==> buffer@.len() < buffer.spec_capacity()
            &&& buffer.written() < buffer.spec_capacity() ==> at == buffer.written()
            &&& at < buffer.written() ==> at == buffer@.len()
        }),
{
}

} // verus!
