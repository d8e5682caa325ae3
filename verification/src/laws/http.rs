//! Laws of HTTP's texts: sizes, counts, status codes, codings, addresses and header lines.

#[allow(unused_imports)]
use crate::bytes;
#[allow(unused_imports)]
use crate::laws::strings::{
    blank, face, glued, is_numeral, law_case_is_ignored_for_letters_alone,
    law_first_occurrence_found, law_numerals_have_their_place_value, law_splitting_undoes_gluing,
    law_trimming_takes_white_space_away, place_value, same_letter, tight,
};
#[allow(unused_imports)]
use crate::net::addr::{endpoint_text, ipv4_value, octet_value, Ipv4Addr, SocketAddrV4};
#[allow(unused_imports)]
use crate::net::http::framing::{
    chunk_size, content_length, crlf_at, has_chunked, header_end, is_chunked_coding, line_authority,
    rewritten, status_code, value_authority, AuthorityHeader, RewritePolicy, CRLF,
    HEADER_TERMINATOR,
};
#[allow(unused_imports)]
use crate::net::http::{
    authority_len, authority_of, authority_start, endpoint_of, last_index, stripped, text,
    Authority,
};
use vstd::prelude::*;

verus! {

/// A text without the plus sign in front of it, where there is one.
pub open spec fn unsigned(s: Seq<u8>) -> Seq<u8> {
    if s.len() > 0 && s[0] == 43 {
        s.drop_first()
    } else {
        s
    }
}

/// The number that a text reads as: a numeral, behind a plus sign or without one, whose number is
/// no more than the limit.
pub open spec fn number(s: Seq<u8>, radix: int, max: int) -> Option<int> {
    let digits = unsigned(s);
    if is_numeral(digits, radix) && place_value(digits, radix) <= max {
        Some(place_value(digits, radix))
    } else {
        None
    }
}

pub proof fn lemma_number(s: Seq<u8>, radix: int, max: int)
    requires
        radix == 2 || radix == 8 || radix == 10 || radix == 16,
    ensures
        bytes::unsigned_value(s, radix, max) == number(s, radix, max),
{
    law_numerals_have_their_place_value(s, radix, max);
    if s.len() > 0 && s[0] == 43 {
        let digits = s.drop_first();
        law_numerals_have_their_place_value(digits, radix, max);
        assert(seq![43u8] + digits =~= s);
    }
    if s.len() == 0 {
        assert(bytes::unsigned_body(s) == s);
    }
}

proof fn lemma_no_semicolon(s: Seq<u8>)
    requires
        blank(s) || is_numeral(s, 16),
    ensures
        !s.contains(59),
{
    if s.contains(59) {
        let i = choose|i: int| 0 <= i < s.len() && s[i] == 59;
        assert(s[i] == 59);
        if !blank(s) {
            assert(face(s[i]) < 16);
        }
    }
}

/// The size of a chunk is the number that the part of its line before the first semicolon writes
/// in hexadecimal, white space around it left out; what follows the semicolon does not matter.
pub proof fn law_chunk_sizes_are_read_before_extensions(
    before: Seq<u8>,
    core: Seq<u8>,
    behind: Seq<u8>,
    extensions: Seq<u8>,
)
    requires
        blank(before),
        blank(behind),
        tight(core),
        !core.contains(59),
        extensions.len() > 0 ==> extensions[0] == 59,
    ensures
        chunk_size(before + core + behind + extensions) == number(core, 16, usize::MAX as int),
{
    let part = before + core + behind;
    let line = part + extensions;
    lemma_no_semicolon(before);
    lemma_no_semicolon(behind);
    bytes::lemma_first_index(line, 59, 0);
    let n = part.len() as int;
    assert forall|i: int| 0 <= i < n implies line[i] != 59 by {
        if i < before.len() {
            assert(line[i] == before[i]);
        } else if i < before.len() + core.len() {
            assert(line[i] == core[i - before.len()]);
        } else {
            assert(line[i] == behind[i - before.len() - core.len()]);
        }
    }
    if extensions.len() > 0 {
        assert(line[n] == 59);
        assert(bytes::first_index(line, 59, 0) == Some(n));
        assert(line.take(n) =~= part);
    } else {
        assert(line =~= part);
        assert(bytes::first_index(line, 59, 0) is None);
    }
    law_trimming_takes_white_space_away(before, core, behind);
    lemma_number(core, 16, usize::MAX as int);
}

/// A character that writes a hexadecimal digit, a capital where asked.
pub open spec fn hex_digit(d: int, capital: bool) -> u8 {
    if d < 10 {
        (48 + d) as u8
    } else if capital {
        (55 + d) as u8
    } else {
        (87 + d) as u8
    }
}

/// A number in hexadecimal.
pub open spec fn hexadecimal(n: nat, capital: bool) -> Seq<u8>
    decreases n,
{
    if n < 16 {
        seq![hex_digit(n as int, capital)]
    } else {
        hexadecimal(n / 16, capital).push(hex_digit((n % 16) as int, capital))
    }
}

proof fn lemma_hexadecimal(n: nat, capital: bool)
    ensures
        is_numeral(hexadecimal(n, capital), 16),
        place_value(hexadecimal(n, capital), 16) == n,
    decreases n,
{
    let s = hexadecimal(n, capital);
    if n < 16 {
        assert(s.drop_last() =~= Seq::<u8>::empty());
        assert(place_value(s.drop_last(), 16) == 0);
        assert(place_value(s, 16) == face(s.last()));
    } else {
        let front = hexadecimal(n / 16, capital);
        lemma_hexadecimal(n / 16, capital);
        assert(s.drop_last() =~= front);
        assert(face(s.last()) == n % 16);
        assert forall|i: int| 0 <= i < s.len() implies face(#[trigger] s[i]) < 16 by {
            if i < front.len() {
                assert(s[i] == front[i]);
            }
        }
    }
}

/// A chunk-size line that writes a number in hexadecimal, white space around it and extensions
/// behind it or not, has that number as its chunk size, as far as a length can be that number; a
/// greater one is no size.
pub proof fn law_chunk_sizes_are_hexadecimal(
    n: nat,
    capital: bool,
    before: Seq<u8>,
    behind: Seq<u8>,
    extensions: Seq<u8>,
)
    requires
        blank(before),
        blank(behind),
        extensions.len() > 0 ==> extensions[0] == 59,
    ensures
        n <= usize::MAX ==> chunk_size(before + hexadecimal(n, capital) + behind + extensions)
            == Some(n as int),
        n > usize::MAX ==> chunk_size(before + hexadecimal(n, capital) + behind + extensions)
            is None,
{
    let core = hexadecimal(n, capital);
    lemma_hexadecimal(n, capital);
    lemma_numeral_tight(core, 16);
    lemma_no_semicolon(core);
    law_chunk_sizes_are_read_before_extensions(before, core, behind, extensions);
}

proof fn lemma_numeral_tight(s: Seq<u8>, radix: int)
    requires
        is_numeral(s, radix),
        radix <= 16,
    ensures
        tight(s),
        s[0] != 43,
{
    assert(face(s[0]) < 16);
    assert(face(s[s.len() - 1]) < 16);
    let a = seq![s[0]];
    let b = seq![s.last()];
    assert(a[0] == s[0]);
    assert(b[0] == s[s.len() - 1]);
}

/// Whether the places `a..b` of a line hold a hexadecimal numeral, a plus sign in front of it or
/// not, `..a` and `b..c` white space, and `c` is the line's end or a semicolon.
pub open spec fn size_stands(line: Seq<u8>, a: int, b: int, c: int) -> bool {
    &&& 0 <= a < b <= c <= line.len()
    &&& blank(line.take(a))
    &&& is_numeral(unsigned(line.subrange(a, b)), 16)
    &&& blank(line.subrange(b, c))
    &&& c < line.len() ==> line[c] == 59
}

/// Whether a line writes `n` in hexadecimal, by place value, as a chunk's size.
pub open spec fn writes_size(line: Seq<u8>, n: int) -> bool {
    exists|a: int, b: int, c: int| #[trigger]
        size_stands(line, a, b, c) && place_value(unsigned(line.subrange(a, b)), 16) == n
}

/// A line that writes a number as a chunk's size has it as its chunk size, as far as a length can
/// be that number.
pub proof fn law_written_sizes_are_read(line: Seq<u8>, n: int)
    requires
        writes_size(line, n),
    ensures
        n <= usize::MAX ==> chunk_size(line) == Some(n),
        n > usize::MAX ==> chunk_size(line) is None,
{
    let (a, b, c) = choose|a: int, b: int, c: int| #[trigger]
        size_stands(line, a, b, c) && place_value(unsigned(line.subrange(a, b)), 16) == n;
    let core = line.subrange(a, b);
    let digits = unsigned(core);
    lemma_numeral_tight(digits, 16);
    lemma_no_semicolon(digits);
    let first = seq![core[0]];
    let last = seq![core.last()];
    assert(first[0] == core[0]);
    assert(last[0] == digits.last());
    assert(last =~= seq![digits.last()]);
    assert(tight(core)) by {
        if core[0] == 43 {
            assert(first[0] == 43);
        } else {
            assert(first =~= seq![digits[0]]);
        }
    }
    assert(!core.contains(59)) by {
        if core.contains(59) {
            let i = choose|i: int| 0 <= i < core.len() && core[i] == 59;
            if core[0] == 43 {
                assert(digits[i - 1] == 59);
            } else {
                assert(digits[i] == 59);
            }
        }
    }
    law_chunk_sizes_are_read_before_extensions(
        line.take(a),
        core,
        line.subrange(b, c),
        line.skip(c),
    );
    assert(line =~= line.take(a) + core + line.subrange(b, c) + line.skip(c));
}

/// The count that a `Content-Length` value states is the number that its digits write in decimal,
/// white space around them left out. A value with anything else in it, a sign with it, states none,
/// nor does one whose number no length can be.
pub proof fn law_counts_are_bare_decimals(before: Seq<u8>, core: Seq<u8>, behind: Seq<u8>)
    requires
        blank(before),
        blank(behind),
        tight(core),
    ensures
        content_length(before + core + behind) == if is_numeral(core, 10) && place_value(core, 10)
            <= usize::MAX {
            Some(place_value(core, 10))
        } else {
            None
        },
{
    law_trimming_takes_white_space_away(before, core, behind);
    law_numerals_have_their_place_value(core, 10, usize::MAX as int);
    if core.len() > 0 {
        if is_numeral(core, 10) {
            assert(face(core[0]) < 10);
            assert(bytes::unsigned_body(core) == core);
            lemma_all_digits(core);
            law_numerals_have_their_place_value(core, 10, place_value(core, 10));
        } else {
            lemma_all_digits(core);
        }
    }
}

proof fn lemma_all_digits(s: Seq<u8>)
    ensures
        bytes::all_digits(s, 10) <==> (forall|i: int|
            0 <= i < s.len() ==> face(#[trigger] s[i]) < 10),
{
    if bytes::all_digits(s, 10) {
        assert forall|i: int| 0 <= i < s.len() implies face(#[trigger] s[i]) < 10 by {
            assert(bytes::digit(s[i], 10) is Some);
        }
    }
    if forall|i: int| 0 <= i < s.len() ==> face(#[trigger] s[i]) < 10 {
        assert forall|i: int| 0 <= i < s.len() implies bytes::digit(#[trigger] s[i], 10) is Some by {
            assert(face(s[i]) < 10);
        }
    }
}

/// The status of a response is the number between the first and the second space of its start
/// line, and 0 where no number of 16 bits stands there.
pub proof fn law_the_status_is_the_second_field(fields: Seq<Seq<u8>>)
    requires
        fields.len() > 0,
        forall|i: int| 0 <= i < fields.len() ==> !(#[trigger] fields[i]).contains(32),
    ensures
        status_code(glued(fields, 32)) == if fields.len() >= 2 && number(fields[1], 10, 65535)
            is Some {
            number(fields[1], 10, 65535)->0
        } else {
            0
        },
{
    law_splitting_undoes_gluing(fields, 32);
    if fields.len() >= 2 {
        lemma_number(fields[1], 10, 65535);
        lemma_place_value_nonneg(fields[1]);
        if fields[1].len() > 0 {
            lemma_place_value_nonneg(fields[1].drop_first());
        }
    }
}

proof fn lemma_place_value_nonneg(s: Seq<u8>)
    ensures
        place_value(s, 10) >= 0,
    decreases s.len(),
{
    if s.len() > 0 {
        lemma_place_value_nonneg(s.drop_last());
    }
}

/// Two texts the same but for the case of letters, the second in small letters.
pub open spec fn spells(s: Seq<u8>, word: Seq<u8>) -> bool {
    s.len() == word.len() && forall|i: int|
        0 <= i < s.len() ==> (#[trigger] s[i] == word[i] || 65 <= s[i] <= 90 && s[i] + 32
            == word[i])
}

proof fn lemma_spells(s: Seq<u8>, name: Seq<u8>, word: Seq<u8>)
    requires
        name.len() == word.len(),
        forall|i: int|
            0 <= i < name.len() ==> (#[trigger] name[i] == word[i] || 65 <= name[i] <= 90
                && name[i] + 32 == word[i]) && !(65 <= word[i] <= 90),
    ensures
        bytes::same_ignoring_case(s, name) <==> spells(s, word),
{
    law_case_is_ignored_for_letters_alone(s, name);
    if s.len() == name.len() {
        if bytes::same_ignoring_case(s, name) {
            assert forall|i: int| 0 <= i < s.len() implies (#[trigger] s[i] == word[i] || 65 <= s[i]
                <= 90 && s[i] + 32 == word[i]) by {
                assert(same_letter(s[i], name[i]));
                assert(name[i] == name[i]);
            }
        }
        if spells(s, word) {
            assert forall|i: int| 0 <= i < s.len() implies same_letter(
                #[trigger] s[i],
                name[i],
            ) by {
                assert(s[i] == word[i] || 65 <= s[i] <= 90 && s[i] + 32 == word[i]);
                assert(name[i] == name[i]);
            }
        }
    }
}

/// `chunked`.
pub open spec fn chunked_word() -> Seq<u8> {
    seq![99u8, 104, 117, 110, 107, 101, 100]
}

/// A text between white space.
pub struct Padded {
    pub before: Seq<u8>,
    pub core: Seq<u8>,
    pub behind: Seq<u8>,
}

/// Whether the parts of a padded text are what they are named for.
pub open spec fn padded(p: Padded) -> bool {
    blank(p.before) && tight(p.core) && blank(p.behind)
}

/// A list of padded texts, comma by comma.
pub open spec fn listed(items: Seq<Padded>) -> Seq<u8> {
    glued(items.map_values(|p: Padded| p.before + p.core + p.behind), 44)
}

/// A list of codings has `chunked` in it exactly where one of its items, white space around it left
/// out, is that word in any case.
pub proof fn law_chunked_is_one_of_the_codings(items: Seq<Padded>)
    requires
        items.len() > 0,
        forall|i: int| 0 <= i < items.len() ==> padded(#[trigger] items[i]),
        forall|i: int| 0 <= i < items.len() ==> !(#[trigger] items[i]).core.contains(44),
    ensures
        has_chunked(listed(items)) <==> exists|i: int|
            0 <= i < items.len() && spells((#[trigger] items[i]).core, chunked_word()),
{
    reveal_strlit("chunked");
    let word = text("chunked"@);
    assert(word =~= chunked_word());
    let pieces = items.map_values(|p: Padded| p.before + p.core + p.behind);
    assert forall|i: int| 0 <= i < pieces.len() implies !(#[trigger] pieces[i]).contains(44) by {
        let p = items[i];
        assert(padded(p));
        assert(!items[i].core.contains(44));
        if pieces[i].contains(44) {
            let j = choose|j: int| 0 <= j < pieces[i].len() && pieces[i][j] == 44;
            if j < p.before.len() {
                assert(p.before[j] == 44);
            } else if j < p.before.len() + p.core.len() {
                assert(p.core[j - p.before.len()] == 44);
            } else {
                assert(p.behind[j - p.before.len() - p.core.len()] == 44);
            }
        }
    }
    law_splitting_undoes_gluing(pieces, 44);
    assert forall|i: int| 0 <= i < items.len() implies is_chunked_coding(#[trigger] pieces[i])
        == spells(items[i].core, chunked_word()) by {
        let p = items[i];
        assert(padded(p));
        law_trimming_takes_white_space_away(p.before, p.core, p.behind);
        lemma_spells(p.core, word, chunked_word());
    }
    if has_chunked(listed(items)) {
        let i = choose|i: int|
            0 <= i < pieces.len() && is_chunked_coding(#[trigger] bytes::split_on(
                listed(items),
                0x2c,
            )[i]);
        assert(is_chunked_coding(pieces[i]));
        assert(spells(items[i].core, chunked_word()));
    }
    if exists|i: int| 0 <= i < items.len() && spells((#[trigger] items[i]).core, chunked_word()) {
        let i = choose|i: int|
            0 <= i < items.len() && spells((#[trigger] items[i]).core, chunked_word());
        assert(is_chunked_coding(pieces[i]));
        assert(is_chunked_coding(bytes::split_on(listed(items), 0x2c)[i]));
    }
}

/// A line break at place `i`.
pub open spec fn breaks_at(s: Seq<u8>, i: int) -> bool {
    0 <= i && i + 2 <= s.len() && s[i] == 13 && s[i + 1] == 10
}

/// The first line break in a string is where a carriage return and a line feed first stand side by
/// side.
pub proof fn law_lines_end_at_their_first_break(s: Seq<u8>)
    ensures
        match crlf_at(s) {
            Some(i) => breaks_at(s, i) && forall|j: int| 0 <= j < i ==> !#[trigger] breaks_at(s, j),
            None => forall|j: int| !#[trigger] breaks_at(s, j),
        },
{
    law_first_occurrence_found(s, CRLF@, 0);
    assert forall|j: int| 0 <= j && j + 2 <= s.len() implies (#[trigger] breaks_at(s, j) <==> s.subrange(
        j,
        j + 2,
    ) == CRLF@) by {
        let t = s.subrange(j, j + 2);
        assert(t[0] == s[j] && t[1] == s[j + 1]);
        if breaks_at(s, j) {
            assert(t =~= CRLF@);
        }
    }
    match crlf_at(s) {
        Some(i) => {
            assert(s.subrange(i, i + 2) == CRLF@);
            assert(breaks_at(s, i));
            assert forall|j: int| 0 <= j < i implies !#[trigger] breaks_at(s, j) by {
                assert(s.subrange(j, j + 2) != CRLF@);
            }
        },
        None => {
            assert forall|j: int| !#[trigger] breaks_at(s, j) by {
                if breaks_at(s, j) {
                    assert(s.subrange(j, j + 2) != CRLF@);
                }
            }
        },
    }
}

/// A header block ends behind the first two line breaks that follow each other.
pub proof fn law_headers_end_at_the_first_blank_line(s: Seq<u8>)
    ensures
        match header_end(s) {
            Some(e) => {
                &&& breaks_at(s, e - 4)
                &&& breaks_at(s, e - 2)
                &&& forall|j: int|
                    0 <= j < e - 4 ==> !(#[trigger] breaks_at(s, j) && breaks_at(s, j + 2))
            },
            None => forall|j: int| !(#[trigger] breaks_at(s, j) && breaks_at(s, j + 2)),
        },
{
    law_first_occurrence_found(s, HEADER_TERMINATOR@, 0);
    assert forall|j: int| 0 <= j && j + 4 <= s.len() implies ((#[trigger] breaks_at(s, j) && breaks_at(
        s,
        j + 2,
    )) <==> s.subrange(j, j + 4) == HEADER_TERMINATOR@) by {
        let t = s.subrange(j, j + 4);
        assert(t[0] == s[j] && t[1] == s[j + 1] && t[2] == s[j + 2] && t[3] == s[j + 3]);
        if breaks_at(s, j) && breaks_at(s, j + 2) {
            assert(t =~= HEADER_TERMINATOR@);
        }
    }
    match header_end(s) {
        Some(e) => {
            assert(s.subrange(e - 4, e) == HEADER_TERMINATOR@);
            assert(breaks_at(s, e - 4) && breaks_at(s, e - 2));
            assert forall|j: int| 0 <= j < e - 4 implies !(#[trigger] breaks_at(s, j)
                && breaks_at(s, j + 2)) by {
                assert(s.subrange(j, j + 4) != HEADER_TERMINATOR@);
            }
        },
        None => {
            assert forall|j: int| !(#[trigger] breaks_at(s, j) && breaks_at(s, j + 2)) by {
                if breaks_at(s, j) && breaks_at(s, j + 2) {
                    assert(s.subrange(j, j + 4) != HEADER_TERMINATOR@);
                }
            }
        },
    }
}

/// Whether a text writes an octet: one to three digits, no more than 255, and no zero in front of
/// another digit.
pub open spec fn writes_octet(s: Seq<u8>) -> bool {
    &&& is_numeral(s, 10)
    &&& s.len() <= 3
    &&& s.len() > 1 ==> s[0] != 48
    &&& place_value(s, 10) <= 255
}

/// A text is an IPv4 address exactly where it is four octets with dots between them, and it is the
/// address of those octets.
pub proof fn law_addresses_are_four_octets(pieces: Seq<Seq<u8>>)
    requires
        pieces.len() > 0,
        forall|i: int| 0 <= i < pieces.len() ==> !(#[trigger] pieces[i]).contains(46),
    ensures
        match ipv4_value(glued(pieces, 46)) {
            Some(ip) => pieces.len() == 4 && forall|i: int|
                0 <= i < 4 ==> writes_octet(#[trigger] pieces[i]) && ip@[i] == place_value(
                    pieces[i],
                    10,
                ),
            None => pieces.len() != 4 || exists|i: int|
                0 <= i < 4 && !writes_octet(#[trigger] pieces[i]),
        },
{
    law_splitting_undoes_gluing(pieces, 46);
    if pieces.len() == 4 {
        lemma_octet(pieces[0]);
        lemma_octet(pieces[1]);
        lemma_octet(pieces[2]);
        lemma_octet(pieces[3]);
        if let Some(ip) = ipv4_value(glued(pieces, 46)) {
            assert forall|i: int| 0 <= i < 4 implies writes_octet(#[trigger] pieces[i]) && ip@[i]
                == place_value(pieces[i], 10) by {
                assert(i == 0 || i == 1 || i == 2 || i == 3);
            }
        } else {
            assert(!writes_octet(pieces[0]) || !writes_octet(pieces[1]) || !writes_octet(pieces[2])
                || !writes_octet(pieces[3]));
        }
    }
}

proof fn lemma_octet(s: Seq<u8>)
    ensures
        match octet_value(s) {
            Some(v) => writes_octet(s) && v == place_value(s, 10),
            None => !writes_octet(s),
        },
{
    lemma_all_digits(s);
    lemma_place_value_nonneg(s);
    if s.len() > 0 && bytes::all_digits(s, 10) {
        assert(is_numeral(s, 10));
        assert(face(s[0]) < 10);
        assert(bytes::unsigned_body(s) == s);
        law_numerals_have_their_place_value(s, 10, place_value(s, 10));
        assert(bytes::digits_value(s, 10) == place_value(s, 10));
    }
}

/// An authority names the address before its last colon and the port behind it, which is a number
/// from 1 to 65535; without a colon, the address that it is, and port 80. Where one of them is
/// missing or malformed it names nothing.
pub proof fn law_authorities_name_address_and_port(host: Seq<u8>, port: Seq<u8>)
    requires
        !port.contains(58),
    ensures
        endpoint_of(host + seq![58u8] + port) == match (ipv4_value(host), number(port, 10, 65535)) {
            (Some(ip), Some(n)) => if n > 0 {
                Some(SocketAddrV4 { ip, port: n as u16 })
            } else {
                None
            },
            _ => None,
        },
        endpoint_of(port) == match ipv4_value(port) {
            Some(ip) => Some(SocketAddrV4 { ip, port: 80 }),
            None => None,
        },
{
    let s = host + seq![58u8] + port;
    let at = host.len() as int;
    assert forall|i: int| at < i < s.len() implies s[i] != 58 by {
        assert(s[i] == port[i - at - 1]);
    }
    lemma_last_colon(s, at, s.len() as int);
    assert(s.take(at) =~= host);
    assert(s.skip(at + 1) =~= port);
    lemma_number(port, 10, 65535);
    lemma_place_value_nonneg(port);
    if port.len() > 0 {
        lemma_place_value_nonneg(port.drop_first());
    }
    assert forall|i: int| 0 <= i < port.len() implies port[i] != 58 by {
        assert(!port.contains(58));
    }
    lemma_no_colon(port, port.len() as int);
}

proof fn lemma_last_colon(s: Seq<u8>, at: int, end: int)
    requires
        0 <= at < end <= s.len(),
        s[at] == 58,
        forall|i: int| at < i < end ==> s[i] != 58,
    ensures
        last_index(s, 58, end) == Some(at),
    decreases end,
{
    if end - 1 > at {
        lemma_last_colon(s, at, end - 1);
    }
}

proof fn lemma_no_colon(s: Seq<u8>, end: int)
    requires
        0 <= end <= s.len(),
        forall|i: int| 0 <= i < s.len() ==> s[i] != 58,
    ensures
        last_index(s, 58, end) is None,
    decreases end,
{
    if end > 0 {
        lemma_no_colon(s, end - 1);
    }
}

/// A number in decimal is a numeral of that number, without a zero in front.
pub proof fn law_endpoint_numbers_are_decimals(n: nat)
    ensures
        is_numeral(crate::net::addr::decimal(n), 10),
        place_value(crate::net::addr::decimal(n), 10) == n,
        n > 0 ==> crate::net::addr::decimal(n)[0] != 48,
        n == 0 ==> crate::net::addr::decimal(n) == seq![48u8],
    decreases n,
{
    let s = crate::net::addr::decimal(n);
    if n < 10 {
        assert(s.drop_last() =~= Seq::<u8>::empty());
        assert(place_value(s.drop_last(), 10) == 0);
        assert(place_value(s, 10) == face(s.last()));
    } else {
        law_endpoint_numbers_are_decimals(n / 10);
        let front = crate::net::addr::decimal(n / 10);
        assert(s.drop_last() =~= front);
        assert(face(s.last()) == n % 10);
        assert forall|i: int| 0 <= i < s.len() implies face(#[trigger] s[i]) < 10 by {
            if i < front.len() {
                assert(s[i] == front[i]);
            }
        }
    }
}

/// The header lines that carry an authority.
pub enum Carrier {
    Host,
    ApplicationUrl,
    Location,
}

/// The names of those lines, their colon with them, in small letters.
pub open spec fn carrier_name(c: Carrier) -> Seq<u8> {
    match c {
        Carrier::Host => seq![104u8, 111, 115, 116, 58],
        Carrier::ApplicationUrl => seq![
            97u8,
            112,
            112,
            108,
            105,
            99,
            97,
            116,
            105,
            111,
            110,
            45,
            117,
            114,
            108,
            58,
        ],
        Carrier::Location => seq![108u8, 111, 99, 97, 116, 105, 111, 110, 58],
    }
}

/// `http://`.
pub open spec fn scheme() -> Seq<u8> {
    seq![104u8, 116, 116, 112, 58, 47, 47]
}

/// What such a line reports of the endpoint it names.
pub open spec fn reported(c: Carrier, endpoint: SocketAddrV4) -> AuthorityHeader {
    match c {
        Carrier::Host => AuthorityHeader::Host(endpoint),
        Carrier::ApplicationUrl => AuthorityHeader::ApplicationUrl(endpoint),
        Carrier::Location => AuthorityHeader::Location(endpoint),
    }
}

/// Where a policy directs the endpoint of such a line.
pub open spec fn directed(policy: RewritePolicy, c: Carrier) -> Option<SocketAddrV4> {
    match c {
        Carrier::Host => policy.host,
        Carrier::ApplicationUrl => policy.application_url,
        Carrier::Location => policy.location,
    }
}

/// A byte that ends an authority: a slash, a space, a tab or a carriage return.
pub open spec fn closes(b: u8) -> bool {
    b == 47 || b == 32 || b == 9 || b == 13
}

proof fn lemma_carriers()
    ensures
        text("Host:"@).len() == 5,
        text("Application-URL:"@).len() == 16,
        text("Location:"@).len() == 9,
        forall|s: Seq<u8>|
            bytes::same_ignoring_case(s, #[trigger] text("Host:"@)) <==> spells(
                s,
                carrier_name(Carrier::Host),
            ),
        forall|s: Seq<u8>|
            bytes::same_ignoring_case(s, #[trigger] text("Application-URL:"@)) <==> spells(
                s,
                carrier_name(Carrier::ApplicationUrl),
            ),
        forall|s: Seq<u8>|
            bytes::same_ignoring_case(s, #[trigger] text("Location:"@)) <==> spells(
                s,
                carrier_name(Carrier::Location),
            ),
        text("http://"@).len() == 7,
        forall|s: Seq<u8>|
            bytes::same_ignoring_case(s, #[trigger] text("http://"@)) <==> spells(s, scheme()),
{
    reveal_strlit("Host:");
    reveal_strlit("Application-URL:");
    reveal_strlit("Location:");
    reveal_strlit("http://");
    assert forall|s: Seq<u8>|
        bytes::same_ignoring_case(s, #[trigger] text("Host:"@)) <==> spells(
            s,
            carrier_name(Carrier::Host),
        ) by {
        lemma_spells(s, text("Host:"@), carrier_name(Carrier::Host));
    }
    assert forall|s: Seq<u8>|
        bytes::same_ignoring_case(s, #[trigger] text("Application-URL:"@)) <==> spells(
            s,
            carrier_name(Carrier::ApplicationUrl),
        ) by {
        lemma_spells(s, text("Application-URL:"@), carrier_name(Carrier::ApplicationUrl));
    }
    assert forall|s: Seq<u8>|
        bytes::same_ignoring_case(s, #[trigger] text("Location:"@)) <==> spells(
            s,
            carrier_name(Carrier::Location),
        ) by {
        lemma_spells(s, text("Location:"@), carrier_name(Carrier::Location));
    }
    assert forall|s: Seq<u8>|
        bytes::same_ignoring_case(s, #[trigger] text("http://"@)) <==> spells(s, scheme()) by {
        lemma_spells(s, text("http://"@), scheme());
    }
}

/// A `Host` line carries the authority that stands behind its name and the white space that
/// follows; an `Application-URL` or `Location` line the one behind `http://` there. It runs up to
/// the first slash, space, tab or carriage return, and its bytes are what a rewrite replaces: all
/// else of the line stays. Where it names no endpoint, the line carries none and stays as it is.
#[verifier::spinoff_prover]
pub proof fn law_lines_carry_the_authority_behind_their_name(
    c: Carrier,
    name: Seq<u8>,
    pad: Seq<u8>,
    prefix: Seq<u8>,
    authority: Seq<u8>,
    rest: Seq<u8>,
    policy: RewritePolicy,
)
    requires
        spells(name, carrier_name(c)),
        blank(pad),
        c is Host ==> prefix.len() == 0,
        !(c is Host) ==> spells(prefix, scheme()),
        forall|i: int| 0 <= i < authority.len() ==> !closes(#[trigger] authority[i]),
        rest.len() > 0 ==> closes(rest[0]),
        c is Host && authority.len() > 0 ==> !blank(seq![authority[0]]),
        authority.len() > 0,
        (name + pad + prefix + authority + rest).len() <= usize::MAX,
    ensures
        ({
            let line = name + pad + prefix + authority + rest;
            match endpoint_of(authority) {
                Some(endpoint) => {
                    &&& line_authority(line) matches Some((off, a, h))
                    &&& off + a.offset == name.len() + pad.len() + prefix.len()
                    &&& a.len == authority.len()
                    &&& a.endpoint == endpoint
                    &&& h == reported(c, endpoint)
                    &&& match directed(policy, c) {
                        Some(to) => rewritten(line, policy) == name + pad + prefix + endpoint_text(
                            to,
                        ) + rest + seq![13u8, 10],
                        None => rewritten(line, policy) == line + seq![13u8, 10],
                    }
                },
                None => {
                    &&& line_authority(line) is None
                    &&& rewritten(line, policy) == line + seq![13u8, 10]
                },
            }
        }),
{
    let line = name + pad + prefix + authority + rest;
    let trimmed = prefix + authority + rest;
    let n = name.len() as int;
    assert(line.take(n) =~= name);
    assert(line.skip(n) =~= pad + trimmed);
    lemma_authority_behind(c is Host, prefix, authority, rest);
    lemma_line_carries(c, line, pad, trimmed);
    let at = n + pad.len() + prefix.len();
    assert(line.take(at) =~= name + pad + prefix);
    assert(line.skip(at + authority.len()) =~= rest);
    lemma_rewrite(line, policy);
}

/// The authority of a line under one of the three names, told by its value's.
#[verifier::spinoff_prover]
proof fn lemma_line_carries(c: Carrier, line: Seq<u8>, pad: Seq<u8>, trimmed: Seq<u8>)
    requires
        line.len() >= carrier_name(c).len(),
        spells(line.take(carrier_name(c).len() as int), carrier_name(c)),
        line.skip(carrier_name(c).len() as int) == pad + trimmed,
        blank(pad),
        trimmed.len() > 0,
        !blank(seq![trimmed[0]]),
    ensures
        line_authority(line) == match authority_of(trimmed, c is Host) {
            Some(a) => Some((line.len() - trimmed.len(), a, reported(c, a.endpoint))),
            None => None,
        },
{
    lemma_carrier_found(c, line);
    lemma_trim_pad(pad, trimmed);
    assert(value_authority(line, pad + trimmed, c is Host) == match authority_of(
        trimmed,
        c is Host,
    ) {
        Some(a) => Some((line.len() - trimmed.len(), a)),
        None => None,
    });
}

/// What a rewrite makes of a line, told by the authority it carries.
proof fn lemma_rewrite(line: Seq<u8>, policy: RewritePolicy)
    ensures
        match line_authority(line) {
            Some((off, a, h)) => {
                let to = match h {
                    AuthorityHeader::Host(_) => policy.host,
                    AuthorityHeader::ApplicationUrl(_) => policy.application_url,
                    AuthorityHeader::Location(_) => policy.location,
                };
                match to {
                    Some(t) => rewritten(line, policy) == line.take(off + a.offset) + endpoint_text(
                        t,
                    ) + line.skip(off + a.offset + a.len) + seq![13u8, 10],
                    None => rewritten(line, policy) == line + seq![13u8, 10],
                }
            },
            None => rewritten(line, policy) == line + seq![13u8, 10],
        },
{
    assert(CRLF@ =~= seq![13u8, 10]);
}

#[verifier::spinoff_prover]
proof fn lemma_authority_behind(bare: bool, prefix: Seq<u8>, authority: Seq<u8>, rest: Seq<u8>)
    requires
        bare ==> prefix.len() == 0,
        !bare ==> spells(prefix, scheme()),
        forall|i: int| 0 <= i < authority.len() ==> !closes(#[trigger] authority[i]),
        rest.len() > 0 ==> closes(rest[0]),
        bare ==> !blank(seq![authority[0]]),
        authority.len() > 0,
        (prefix + authority + rest).len() <= usize::MAX,
    ensures
        authority_of(prefix + authority + rest, bare) == match endpoint_of(authority) {
            Some(endpoint) => Some(
                Authority {
                    endpoint,
                    offset: prefix.len() as usize,
                    len: authority.len() as usize,
                },
            ),
            None => None,
        },
        (prefix + authority + rest).len() > 0,
        !blank(seq![(prefix + authority + rest)[0]]),
{
    lemma_carriers();
    let trimmed = prefix + authority + rest;
    let start = authority + rest;
    let one = seq![trimmed[0]];
    assert(one[0] == trimmed[0]);
    if bare {
        assert(trimmed =~= start);
        assert(one =~= seq![authority[0]]);
    } else {
        assert(prefix[0] == 104 || prefix[0] == 72);
        assert(trimmed[0] == prefix[0]);
        assert(trimmed.take(7) =~= prefix);
        assert(trimmed.skip(7) =~= start);
    }
    let len = authority.len() as int;
    assert forall|i: int| 0 <= i < len implies !crate::net::http::ends_authority(
        #[trigger] start[i],
    ) by {
        assert(start[i] == authority[i]);
    }
    if len < start.len() {
        assert(start[len] == rest[0]);
    }
    crate::net::http::lemma_authority_len_at(start, 0, len);
    assert(start.take(len) =~= authority);
    assert(authority_start(trimmed, bare) == Some(start));
}

proof fn lemma_trim_pad(pad: Seq<u8>, rest: Seq<u8>)
    requires
        blank(pad),
        rest.len() > 0,
        !blank(seq![rest[0]]),
    ensures
        bytes::trimmed_start(pad + rest) == rest,
    decreases pad.len(),
{
    let all = pad + rest;
    if pad.len() > 0 {
        assert(all[0] == pad[0]);
        let fewer = pad.drop_first();
        assert forall|i: int| 0 <= i < fewer.len() implies (#[trigger] fewer[i] == 32 || fewer[i]
            == 9 || fewer[i] == 10 || fewer[i] == 12 || fewer[i] == 13) by {
            assert(fewer[i] == pad[i + 1]);
        }
        assert(all.drop_first() =~= fewer + rest);
        lemma_trim_pad(fewer, rest);
    } else {
        assert(all =~= rest);
        let one = seq![rest[0]];
        assert(one[0] == rest[0]);
        if bytes::is_space(rest[0]) {
            assert(blank(one));
        }
    }
}

/// Which of the three names a line has, where it has one.
proof fn lemma_carrier_found(c: Carrier, line: Seq<u8>)
    requires
        line.len() >= carrier_name(c).len(),
        spells(line.take(carrier_name(c).len() as int), carrier_name(c)),
    ensures
        c is Host ==> stripped(line, text("Host:"@)) == Some(line.skip(5)),
        c is ApplicationUrl ==> stripped(line, text("Host:"@)) is None && stripped(
            line,
            text("Application-URL:"@),
        ) == Some(line.skip(16)),
        c is Location ==> stripped(line, text("Host:"@)) is None && stripped(
            line,
            text("Application-URL:"@),
        ) is None && stripped(line, text("Location:"@)) == Some(line.skip(9)),
{
    lemma_carriers();
    let name = carrier_name(c);
    let n = name.len() as int;
    assert(line.take(n)[0] == line[0]);
    if !(c is Host) {
        if line.len() >= 5 && spells(line.take(5), carrier_name(Carrier::Host)) {
            assert(line.take(5)[0] == line[0]);
        }
    }
    if c is Location {
        if line.len() >= 16 && spells(line.take(16), carrier_name(Carrier::ApplicationUrl)) {
            assert(line.take(16)[0] == line[0]);
        }
    }
}

/// A line under none of the three names carries no authority, and stays as it is.
pub proof fn law_other_lines_carry_no_authority(line: Seq<u8>, policy: RewritePolicy)
    requires
        forall|c: Carrier|
            #![trigger carrier_name(c)]
            line.len() >= carrier_name(c).len() ==> !spells(
                line.take(carrier_name(c).len() as int),
                carrier_name(c),
            ),
    ensures
        line_authority(line) is None,
        rewritten(line, policy) == line + seq![13u8, 10],
{
    lemma_carriers();
    assert(carrier_name(Carrier::Host).len() == 5);
    assert(carrier_name(Carrier::ApplicationUrl).len() == 16);
    assert(carrier_name(Carrier::Location).len() == 9);
    assert(CRLF@ =~= seq![13u8, 10]);
}

/// An `Application-URL` or `Location` line whose value, the white space in front left out, does not
/// begin with `http://` carries no authority, and stays as it is.
pub proof fn law_other_schemes_carry_no_authority(
    c: Carrier,
    name: Seq<u8>,
    pad: Seq<u8>,
    value: Seq<u8>,
    policy: RewritePolicy,
)
    requires
        !(c is Host),
        spells(name, carrier_name(c)),
        blank(pad),
        value.len() > 0,
        !blank(seq![value[0]]),
        value.len() >= 7 ==> !spells(value.take(7), scheme()),
    ensures
        line_authority(name + pad + value) is None,
        rewritten(name + pad + value, policy) == name + pad + value + seq![13u8, 10],
{
    lemma_carriers();
    let line = name + pad + value;
    let n = name.len() as int;
    assert(line.take(n) =~= name);
    lemma_carrier_found(c, line);
    assert(line.skip(n) =~= pad + value);
    lemma_trim_pad(pad, value);
    assert(CRLF@ =~= seq![13u8, 10]);
}

/// The text of an endpoint is its four octets in decimal with dots between them, a colon, and its
/// port in decimal.
pub proof fn law_endpoints_are_written(a: SocketAddrV4)
    ensures
        ({
            let octet = |i: int| crate::net::addr::decimal(a.ip@[i] as nat);
            endpoint_text(a) == glued(seq![octet(0), octet(1), octet(2), octet(3)], 46) + seq![58u8]
                + crate::net::addr::decimal(a.port as nat)
        }),
{
    let octet = |i: int| crate::net::addr::decimal(a.ip@[i] as nat);
    let all = seq![octet(0), octet(1), octet(2), octet(3)];
    let p = all.drop_first();
    let q = p.drop_first();
    let r = q.drop_first();
    assert(p =~= seq![octet(1), octet(2), octet(3)]);
    assert(q =~= seq![octet(2), octet(3)]);
    assert(r =~= seq![octet(3)]);
    assert(glued(r, 46) == octet(3));
    assert(glued(q, 46) == octet(2) + seq![46u8] + octet(3));
    assert(glued(p, 46) == octet(1) + seq![46u8] + glued(q, 46));
    assert(glued(all, 46) == octet(0) + seq![46u8] + glued(p, 46));
    assert(endpoint_text(a) =~= glued(all, 46) + seq![58u8] + crate::net::addr::decimal(
        a.port as nat,
    ));
}

} // verus!
