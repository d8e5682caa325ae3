//! Laws of byte strings and texts: case, white space, separators, numerals, order.

#[allow(unused_imports)]
use crate::bytes;
#[allow(unused_imports)]
use crate::text;
use vstd::prelude::*;

verus! {

/// The same byte, or one ASCII letter in its two cases.
pub open spec fn same_letter(a: u8, b: u8) -> bool {
    ||| a == b
    ||| 65 <= a <= 90 && b == a + 32
    ||| 65 <= b <= 90 && a == b + 32
}

/// Two strings are the same up to ASCII case exactly where they are as long and agree, letter by
/// letter, up to case.
pub proof fn law_case_is_ignored_for_letters_alone(a: Seq<u8>, b: Seq<u8>)
    ensures
        bytes::same_ignoring_case(a, b) <==> a.len() == b.len() && forall|i: int|
            0 <= i < a.len() ==> same_letter(#[trigger] a[i], b[i]),
{
    if a.len() == b.len() {
        if forall|i: int| 0 <= i < a.len() ==> same_letter(#[trigger] a[i], b[i]) {
            assert forall|i: int| 0 <= i < a.len() implies bytes::lower(#[trigger] a[i])
                == bytes::lower(b[i]) by {
                assert(same_letter(a[i], b[i]));
            }
        }
        if bytes::same_ignoring_case(a, b) {
            assert forall|i: int| 0 <= i < a.len() implies same_letter(#[trigger] a[i], b[i]) by {
                assert(bytes::lower(a[i]) == bytes::lower(b[i]));
            }
        }
    }
}

/// A string of white space: spaces, tabs, line feeds, form feeds and carriage returns.
pub open spec fn blank(s: Seq<u8>) -> bool {
    forall|i: int|
        0 <= i < s.len() ==> (#[trigger] s[i] == 32 || s[i] == 9 || s[i] == 10 || s[i] == 12
            || s[i] == 13)
}

/// A string with no white space at either end.
pub open spec fn tight(s: Seq<u8>) -> bool {
    s.len() > 0 ==> !blank(seq![s[0]]) && !blank(seq![s.last()])
}

proof fn lemma_one_blank(b: u8)
    ensures
        blank(seq![b]) <==> bytes::is_space(b),
{
    let s = seq![b];
    assert(s[0] == b);
}

proof fn lemma_trim_start(pad: Seq<u8>, s: Seq<u8>)
    requires
        blank(pad),
        s.len() > 0 ==> !bytes::is_space(s[0]),
    ensures
        bytes::trimmed_start(pad + s) == s,
    decreases pad.len(),
{
    let all = pad + s;
    if pad.len() > 0 {
        assert(all[0] == pad[0]);
        let rest = pad.drop_first();
        assert forall|i: int| 0 <= i < rest.len() implies (#[trigger] rest[i] == 32 || rest[i] == 9
            || rest[i] == 10 || rest[i] == 12 || rest[i] == 13) by {
            assert(rest[i] == pad[i + 1]);
        }
        assert(all.drop_first() =~= rest + s);
        lemma_trim_start(rest, s);
    } else {
        assert(all =~= s);
    }
}

proof fn lemma_trim_end(s: Seq<u8>, pad: Seq<u8>)
    requires
        blank(pad),
        s.len() > 0 ==> !bytes::is_space(s.last()),
    ensures
        bytes::trimmed_end(s + pad) == s,
    decreases pad.len(),
{
    let all = s + pad;
    if pad.len() > 0 {
        assert(all.last() == pad.last());
        assert(pad[pad.len() - 1] == pad.last());
        let rest = pad.drop_last();
        assert forall|i: int| 0 <= i < rest.len() implies (#[trigger] rest[i] == 32 || rest[i] == 9
            || rest[i] == 10 || rest[i] == 12 || rest[i] == 13) by {
            assert(rest[i] == pad[i]);
        }
        assert(all.drop_last() =~= s + rest);
        lemma_trim_end(s, rest);
    } else {
        assert(all =~= s);
    }
}

/// Trimming takes the white space around a string away, and nothing else.
pub proof fn law_trimming_takes_white_space_away(before: Seq<u8>, s: Seq<u8>, behind: Seq<u8>)
    requires
        blank(before),
        blank(behind),
        tight(s),
    ensures
        bytes::trimmed(before + s + behind) == s,
        bytes::trimmed_start(before + s) == s,
{
    if s.len() > 0 {
        lemma_one_blank(s[0]);
        lemma_one_blank(s.last());
        lemma_trim_start(before, s + behind);
        assert(before + s + behind =~= before + (s + behind));
        lemma_trim_start(before, s);
        lemma_trim_end(s, behind);
    } else {
        let all = before + behind;
        assert(before + s + behind =~= all);
        assert forall|i: int| 0 <= i < all.len() implies (#[trigger] all[i] == 32 || all[i] == 9
            || all[i] == 10 || all[i] == 12 || all[i] == 13) by {
            if i < before.len() {
                assert(all[i] == before[i]);
            } else {
                assert(all[i] == behind[i - before.len()]);
            }
        }
        lemma_trim_start(all, Seq::empty());
        assert(all + Seq::<u8>::empty() =~= all);
        lemma_trim_start(before, s);
        assert(bytes::trimmed_end(Seq::<u8>::empty()) =~= Seq::<u8>::empty());
        assert(s =~= Seq::<u8>::empty());
    }
}

/// Pieces with a separator between each and the next.
pub open spec fn glued<T>(pieces: Seq<Seq<T>>, sep: T) -> Seq<T>
    decreases pieces.len(),
{
    if pieces.len() == 0 {
        Seq::empty()
    } else if pieces.len() == 1 {
        pieces[0]
    } else {
        pieces[0] + seq![sep] + glued(pieces.drop_first(), sep)
    }
}

/// Splitting undoes gluing: pieces without the separator in them, glued by it, split into those
/// pieces.
pub proof fn law_splitting_undoes_gluing(pieces: Seq<Seq<u8>>, sep: u8)
    requires
        pieces.len() > 0,
        forall|i: int| 0 <= i < pieces.len() ==> !(#[trigger] pieces[i]).contains(sep),
    ensures
        bytes::split_on(glued(pieces, sep), sep) == pieces,
    decreases pieces.len(),
{
    let s = glued(pieces, sep);
    bytes::lemma_first_index(s, sep, 0);
    if pieces.len() == 1 {
        assert(!pieces[0].contains(sep));
        if let Some(i) = bytes::first_index(s, sep, 0) {
            assert(pieces[0][i] == sep);
        }
        assert(seq![s] =~= pieces);
    } else {
        let rest = pieces.drop_first();
        assert forall|i: int| 0 <= i < rest.len() implies !(#[trigger] rest[i]).contains(sep) by {
            assert(rest[i] == pieces[i + 1]);
        }
        let n = pieces[0].len() as int;
        assert(s[n] == sep);
        assert(bytes::first_index(s, sep, 0) == Some(n)) by {
            let found = bytes::first_index(s, sep, 0);
            assert(found is Some);
            let i = found->0;
            if i < n {
                assert(pieces[0][i] == s[i]);
                assert(pieces[0].contains(sep));
            } else if i > n {
                assert(s[n] != sep);
            }
        }
        assert(s.take(n) =~= pieces[0]);
        assert(s.skip(n + 1) =~= glued(rest, sep));
        law_splitting_undoes_gluing(rest, sep);
        assert(seq![pieces[0]] + rest =~= pieces);
    }
}

/// The same of texts.
pub proof fn law_splitting_a_text_undoes_gluing(pieces: Seq<Seq<char>>, sep: char)
    requires
        pieces.len() > 0,
        forall|i: int| 0 <= i < pieces.len() ==> !(#[trigger] pieces[i]).contains(sep),
    ensures
        text::split_on(glued(pieces, sep), sep) == pieces,
    decreases pieces.len(),
{
    let s = glued(pieces, sep);
    law_first_character_found(s, sep, 0);
    if pieces.len() == 1 {
        assert(!pieces[0].contains(sep));
        if let Some(i) = text::first_index(s, sep, 0) {
            assert(pieces[0][i] == sep);
        }
        assert(seq![s] =~= pieces);
    } else {
        let rest = pieces.drop_first();
        assert forall|i: int| 0 <= i < rest.len() implies !(#[trigger] rest[i]).contains(sep) by {
            assert(rest[i] == pieces[i + 1]);
        }
        let n = pieces[0].len() as int;
        assert(s[n] == sep);
        assert(text::first_index(s, sep, 0) == Some(n)) by {
            let found = text::first_index(s, sep, 0);
            assert(found is Some);
            let i = found->0;
            if i < n {
                assert(pieces[0][i] == s[i]);
                assert(pieces[0].contains(sep));
            } else if i > n {
                assert(s[n] != sep);
            }
        }
        assert(s.take(n) =~= pieces[0]);
        assert(s.skip(n + 1) =~= glued(rest, sep));
        law_splitting_a_text_undoes_gluing(rest, sep);
        assert(seq![pieces[0]] + rest =~= pieces);
    }
}

/// A search for a character finds the first one, and fails only where there is none.
pub proof fn law_first_character_found(s: Seq<char>, c: char, from: int)
    requires
        0 <= from,
    ensures
        match text::first_index(s, c, from) {
            Some(i) => from <= i < s.len() && s[i] == c && forall|j: int|
                from <= j < i ==> s[j] != c,
            None => forall|j: int| from <= j < s.len() ==> s[j] != c,
        },
    decreases s.len() - from,
{
    if from < s.len() && s[from] != c {
        law_first_character_found(s, c, from + 1);
    }
}

/// A search for a string finds its first occurrence, and fails only where it does not occur.
pub proof fn law_first_occurrence_found(s: Seq<u8>, pattern: Seq<u8>, from: int)
    requires
        0 <= from,
    ensures
        match bytes::first_occurrence(s, pattern, from) {
            Some(i) => {
                &&& from <= i
                &&& i + pattern.len() <= s.len()
                &&& s.subrange(i, i + pattern.len()) == pattern
                &&& forall|j: int|
                    from <= j < i ==> #[trigger] s.subrange(j, j + pattern.len()) != pattern
            },
            None => forall|j: int|
                from <= j && j + pattern.len() <= s.len() ==> #[trigger] s.subrange(
                    j,
                    j + pattern.len(),
                ) != pattern,
        },
    decreases s.len() - from + 1,
{
    if from + pattern.len() <= s.len() && s.subrange(from, from + pattern.len()) != pattern {
        law_first_occurrence_found(s, pattern, from + 1);
    }
}

/// The face value of a numeral's character: the digits, and the letters from `a` as 10 on, in
/// either case. Anything else is worth more than any digit.
pub open spec fn face(b: u8) -> int {
    if 48 <= b <= 57 {
        b - 48
    } else if 97 <= b <= 122 {
        b - 87
    } else if 65 <= b <= 90 {
        b - 55
    } else {
        99
    }
}

/// Whether every character is a digit of the radix, and there is one.
pub open spec fn is_numeral(s: Seq<u8>, radix: int) -> bool {
    s.len() > 0 && forall|i: int| 0 <= i < s.len() ==> face(#[trigger] s[i]) < radix
}

/// The number that a numeral writes by place value: its last digit, and the radix times what the
/// digits before it write.
pub open spec fn place_value(s: Seq<u8>, radix: int) -> int
    decreases s.len(),
{
    if s.len() == 0 {
        0
    } else {
        radix * place_value(s.drop_last(), radix) + face(s.last())
    }
}

/// A numeral without a sign, or with a plus sign, is read as the number that its digits write by
/// place value, where that is no more than the limit; nothing else is read as a number.
pub proof fn law_numerals_have_their_place_value(s: Seq<u8>, radix: int, max: int)
    requires
        radix == 2 || radix == 8 || radix == 10 || radix == 16,
    ensures
        is_numeral(s, radix) && place_value(s, radix) <= max ==> bytes::unsigned_value(s, radix, max)
            == Some(place_value(s, radix)),
        is_numeral(s, radix) && place_value(s, radix) <= max ==> bytes::unsigned_value(
            seq![43u8] + s,
            radix,
            max,
        ) == Some(place_value(s, radix)),
        bytes::unsigned_value(s, radix, max) matches Some(n) ==> {
            let digits = if s[0] == 43 {
                s.drop_first()
            } else {
                s
            };
            is_numeral(digits, radix) && n == place_value(digits, radix) && n <= max
        },
{
    lemma_place_value(s, radix);
    let signed = seq![43u8] + s;
    assert(signed.drop_first() =~= s);
    assert(bytes::unsigned_body(signed) == s);
    if is_numeral(s, radix) {
        assert(face(s[0]) < radix);
        assert(s[0] != 43);
        assert(bytes::unsigned_body(s) == s);
    }
    let body = bytes::unsigned_body(s);
    lemma_place_value(body, radix);
}

proof fn lemma_place_value(s: Seq<u8>, radix: int)
    requires
        radix == 2 || radix == 8 || radix == 10 || radix == 16,
    ensures
        bytes::all_digits(s, radix) <==> (forall|i: int|
            0 <= i < s.len() ==> face(#[trigger] s[i]) < radix),
        bytes::all_digits(s, radix) ==> bytes::digits_value(s, radix) == place_value(s, radix),
    decreases s.len(),
{
    assert(forall|b: u8| #[trigger] bytes::digit(b, radix) is Some <==> face(b) < radix);
    if bytes::all_digits(s, radix) {
        assert forall|i: int| 0 <= i < s.len() implies face(#[trigger] s[i]) < radix by {
            assert(bytes::digit(s[i], radix) is Some);
        }
    }
    if forall|i: int| 0 <= i < s.len() ==> face(#[trigger] s[i]) < radix {
        assert forall|i: int| 0 <= i < s.len() implies bytes::digit(#[trigger] s[i], radix) is Some by {
            assert(face(s[i]) < radix);
        }
    }
    if s.len() > 0 {
        let rest = s.drop_last();
        lemma_place_value(rest, radix);
        if bytes::all_digits(s, radix) {
            assert(bytes::all_digits(rest, radix)) by {
                assert forall|i: int| 0 <= i < rest.len() implies bytes::digit(
                    #[trigger] rest[i],
                    radix,
                ) is Some by {
                    assert(rest[i] == s[i]);
                }
            }
            assert(bytes::digit(s[s.len() - 1], radix) is Some);
            let d = bytes::digits_value(rest, radix);
            assert(d * radix == radix * d) by (nonlinear_arith);
        }
    }
}

/// A text in lower case has its ASCII capitals, and nothing else, replaced by the small letters.
pub proof fn law_lower_case(s: Seq<char>)
    ensures
        text::lowered(s).len() == s.len(),
        forall|i: int|
            0 <= i < s.len() ==> {
                let c = #[trigger] text::lowered(s)[i];
                if 65 <= s[i] as int && s[i] as int <= 90 {
                    c as int == s[i] as int + 32
                } else {
                    c == s[i]
                }
            },
{
    assert forall|i: int| 0 <= i < s.len() implies {
        let c = #[trigger] text::lowered(s)[i];
        if 65 <= s[i] as int && s[i] as int <= 90 {
            c as int == s[i] as int + 32
        } else {
            c == s[i]
        }
    } by {
        assert('A' as int == 65 && 'Z' as int == 90);
    }
}

/// A white-space character: of Unicode's `White_Space` property.
pub open spec fn white(c: char) -> bool {
    let u = c as u32;
    ||| 9 <= u <= 13
    ||| u == 32
    ||| u == 133
    ||| u == 160
    ||| u == 5760
    ||| 8192 <= u <= 8202
    ||| u == 8232
    ||| u == 8233
    ||| u == 8239
    ||| u == 8287
    ||| u == 12288
}

/// Trimming a text takes the white space around it away, and nothing else.
pub proof fn law_trimming_a_text(before: Seq<char>, s: Seq<char>, behind: Seq<char>)
    requires
        forall|i: int| 0 <= i < before.len() ==> white(#[trigger] before[i]),
        forall|i: int| 0 <= i < behind.len() ==> white(#[trigger] behind[i]),
        s.len() > 0 ==> !white(s[0]) && !white(s.last()),
    ensures
        text::trimmed(before + s + behind) == s,
{
    if s.len() > 0 {
        lemma_text_trim_start(before, s + behind);
        assert(before + s + behind =~= before + (s + behind));
        lemma_text_trim_end(s, behind);
    } else {
        let all = before + behind;
        assert(before + s + behind =~= all);
        assert forall|i: int| 0 <= i < all.len() implies white(#[trigger] all[i]) by {
            if i < before.len() {
                assert(all[i] == before[i]);
            } else {
                assert(all[i] == behind[i - before.len()]);
            }
        }
        lemma_text_trim_start(all, Seq::empty());
        assert(all + Seq::<char>::empty() =~= all);
        assert(text::trimmed_end(Seq::<char>::empty()) =~= Seq::<char>::empty());
        assert(s =~= Seq::<char>::empty());
    }
}

proof fn lemma_text_trim_start(pad: Seq<char>, s: Seq<char>)
    requires
        forall|i: int| 0 <= i < pad.len() ==> white(#[trigger] pad[i]),
        s.len() > 0 ==> !white(s[0]),
    ensures
        text::trimmed_start(pad + s) == s,
    decreases pad.len(),
{
    let all = pad + s;
    if pad.len() > 0 {
        assert(all[0] == pad[0]);
        let rest = pad.drop_first();
        assert forall|i: int| 0 <= i < rest.len() implies white(#[trigger] rest[i]) by {
            assert(rest[i] == pad[i + 1]);
        }
        assert(all.drop_first() =~= rest + s);
        lemma_text_trim_start(rest, s);
    } else {
        assert(all =~= s);
    }
}

proof fn lemma_text_trim_end(s: Seq<char>, pad: Seq<char>)
    requires
        forall|i: int| 0 <= i < pad.len() ==> white(#[trigger] pad[i]),
        s.len() > 0 ==> !white(s.last()),
    ensures
        text::trimmed_end(s + pad) == s,
    decreases pad.len(),
{
    let all = s + pad;
    if pad.len() > 0 {
        assert(all.last() == pad.last());
        assert(pad[pad.len() - 1] == pad.last());
        let rest = pad.drop_last();
        assert forall|i: int| 0 <= i < rest.len() implies white(#[trigger] rest[i]) by {
            assert(rest[i] == pad[i]);
        }
        assert(all.drop_last() =~= s + rest);
        lemma_text_trim_end(s, rest);
    } else {
        assert(all =~= s);
    }
}

/// One text comes before another exactly where, behind what both start with, it ends first or has
/// the lesser character.
pub proof fn law_texts_are_ordered_by_their_first_difference(
    common: Seq<char>,
    a: Seq<char>,
    b: Seq<char>,
)
    requires
        a.len() > 0 && b.len() > 0 ==> a[0] != b[0],
    ensures
        text::less(common + a, common + b) <==> b.len() > 0 && (a.len() == 0 || (a[0] as int)
            < b[0] as int),
    decreases common.len(),
{
    if common.len() == 0 {
        assert(common + a =~= a);
        assert(common + b =~= b);
    } else {
        assert((common + a).drop_first() =~= common.drop_first() + a);
        assert((common + b).drop_first() =~= common.drop_first() + b);
        law_texts_are_ordered_by_their_first_difference(common.drop_first(), a, b);
    }
}

/// The characters of a text of ASCII as numbers.
pub open spec fn codes(s: Seq<char>) -> Seq<u8> {
    Seq::new(s.len(), |i: int| s[i] as u8)
}

/// A number in decimal writes that number: its digits have it as their place value, and the first
/// is no zero unless the number is.
pub proof fn law_decimals_write_the_number(n: nat)
    ensures
        is_numeral(codes(text::decimal(n)), 10),
        place_value(codes(text::decimal(n)), 10) == n,
        n > 0 ==> text::decimal(n)[0] != '0',
        n == 0 ==> text::decimal(n) == seq!['0'],
    decreases n,
{
    let t = text::decimal(n);
    let c = codes(t);
    let d = (n % 10) as int;
    assert((48 + d) as char as u8 == 48 + d);
    if n < 10 {
        assert(t.len() == 1 && c.len() == 1);
        assert(c[0] == 48 + n);
        assert(c.drop_last() =~= Seq::<u8>::empty());
        assert(place_value(c.drop_last(), 10) == 0);
        assert(place_value(c, 10) == face(c.last()));
    } else {
        law_decimals_write_the_number(n / 10);
        let rest = codes(text::decimal(n / 10));
        assert(c.drop_last() =~= rest);
        assert(c.last() == 48 + d);
        assert forall|i: int| 0 <= i < c.len() implies face(#[trigger] c[i]) < 10 by {
            if i < rest.len() {
                assert(c[i] == rest[i]);
            }
        }
        assert(t[0] == text::decimal(n / 10)[0]);
    }
}

/// A number padded to a width is its decimal with zeros in front, as long as the width or as the
/// decimal, whichever is longer.
pub proof fn law_padding_puts_zeros_in_front(n: nat, width: nat)
    ensures
        ({
            let t = text::padded(n, width);
            let digits = text::decimal(n);
            &&& t.len() >= width
            &&& t.len() >= digits.len()
            &&& t.len() == width || t.len() == digits.len()
            &&& t.skip(t.len() - digits.len()) == digits
            &&& forall|i: int| 0 <= i < t.len() - digits.len() ==> #[trigger] t[i] == '0'
        }),
{
    let t = text::padded(n, width);
    let digits = text::decimal(n);
    assert(t.skip(t.len() - digits.len()) =~= digits);
}

/// Joined texts are the texts with the separator between each and the next.
pub proof fn law_joining_puts_the_separator_between(
    front: Seq<Seq<char>>,
    sep: Seq<char>,
    last: Seq<char>,
)
    ensures
        text::joined(seq![last], sep) == last,
        text::joined(Seq::empty(), sep) == Seq::<char>::empty(),
        front.len() > 0 ==> text::joined(front.push(last), sep) == text::joined(front, sep) + sep
            + last,
{
    assert(front.push(last).drop_last() =~= front);
}

} // verus!
