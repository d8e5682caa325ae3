//! Laws of lists in texts: tokens, addresses and ports, and what repeats.

#[allow(unused_imports)]
use crate::config::value::{
    first_bad_port, first_repeat as first_repeated_port, port_named, ports_of, ports_text,
    WolPortsFault,
};
#[allow(unused_imports)]
use crate::laws::http::{number, unsigned};
#[allow(unused_imports)]
use crate::laws::strings::{
    face, glued, is_numeral, law_numerals_have_their_place_value,
    law_splitting_a_text_undoes_gluing, law_trimming_a_text, place_value, white,
};
#[allow(unused_imports)]
use crate::net::mac::{
    first_bad_mac, first_repeat as first_repeated_mac, mac_value, octets_text, set_of, set_text,
    tokens, MacAddr, MacSetFault,
};
#[allow(unused_imports)]
use crate::text;
use vstd::prelude::*;

verus! {

/// A character as a byte; one that is not ASCII as a byte that is no digit.
pub open spec fn ascii(c: char) -> u8 {
    if (c as int) < 128 {
        c as u8
    } else {
        255
    }
}

/// A text as bytes.
pub open spec fn ascii_text(s: Seq<char>) -> Seq<u8> {
    Seq::new(s.len(), |i: int| ascii(s[i]))
}

/// A character's worth as a digit, a letter's from 10 on.
pub open spec fn worth(c: char) -> int {
    face(ascii(c))
}

/// A text between white space.
pub struct PaddedText {
    pub before: Seq<char>,
    pub core: Seq<char>,
    pub behind: Seq<char>,
}

/// Whether the parts of a padded text are what they are named for, with no comma in them.
pub open spec fn padded_text(p: PaddedText) -> bool {
    &&& forall|i: int| 0 <= i < p.before.len() ==> white(#[trigger] p.before[i])
    &&& forall|i: int| 0 <= i < p.behind.len() ==> white(#[trigger] p.behind[i])
    &&& p.core.len() > 0 ==> !white(p.core[0]) && !white(p.core.last())
    &&& !p.core.contains(',')
}

/// A list of padded texts, comma by comma.
pub open spec fn comma_list(items: Seq<PaddedText>) -> Seq<char> {
    glued(items.map_values(|p: PaddedText| p.before + p.core + p.behind), ',')
}

/// The tokens of a list are the texts between its commas, the white space around each left out.
pub proof fn law_tokens_are_what_stands_between_commas(items: Seq<PaddedText>)
    requires
        items.len() > 0,
        forall|i: int| 0 <= i < items.len() ==> padded_text(#[trigger] items[i]),
    ensures
        tokens(comma_list(items)) == items.map_values(|p: PaddedText| p.core),
{
    let pieces = items.map_values(|p: PaddedText| p.before + p.core + p.behind);
    assert forall|i: int| 0 <= i < pieces.len() implies !(#[trigger] pieces[i]).contains(',') by {
        let p = items[i];
        assert(padded_text(p));
        if pieces[i].contains(',') {
            let j = choose|j: int| 0 <= j < pieces[i].len() && pieces[i][j] == ',';
            assert(!white(','));
            if j < p.before.len() {
                assert(p.before[j] == ',');
            } else if j < p.before.len() + p.core.len() {
                assert(p.core[j - p.before.len()] == ',');
            } else {
                assert(p.behind[j - p.before.len() - p.core.len()] == ',');
            }
        }
    }
    law_splitting_a_text_undoes_gluing(pieces, ',');
    assert forall|i: int| 0 <= i < items.len() implies text::trimmed(#[trigger] pieces[i])
        == items[i].core by {
        let p = items[i];
        assert(padded_text(p));
        law_trimming_a_text(p.before, p.core, p.behind);
    }
    assert(tokens(comma_list(items)) =~= items.map_values(|p: PaddedText| p.core));
}

proof fn lemma_narrowed(s: Seq<char>)
    ensures
        text::narrowed(s) == ascii_text(s),
{
    assert(text::narrowed(s) =~= ascii_text(s));
}

/// A token names a port exactly where it writes, in decimal, a number from 1 to 65535, and names
/// that number.
pub proof fn law_ports_are_decimal_numbers(token: Seq<char>)
    ensures
        port_named(token) == match number(ascii_text(token), 10, 65535) {
            Some(n) => if n > 0 {
                Some(n as u16)
            } else {
                None
            },
            None => None,
        },
{
    lemma_narrowed(token);
    let s = ascii_text(token);
    law_numerals_have_their_place_value(s, 10, 65535);
    if s.len() > 0 && s[0] == 43 {
        let digits = s.drop_first();
        law_numerals_have_their_place_value(digits, 10, 65535);
        assert(seq![43u8] + digits =~= s);
    }
    if s.len() == 0 {
        assert(crate::bytes::unsigned_body(s) == s);
    }
    lemma_nonneg(unsigned(s));
}

proof fn lemma_nonneg(s: Seq<u8>)
    ensures
        place_value(s, 10) >= 0,
    decreases s.len(),
{
    if s.len() > 0 {
        lemma_nonneg(s.drop_last());
    }
}

/// Whether a text is six pairs of hexadecimal digits with colons between them.
pub open spec fn is_six_octets(s: Seq<char>) -> bool {
    &&& s.len() == 17
    &&& forall|k: int| 0 <= k < 6 ==> #[trigger] is_pair(s, k)
    &&& s[2] == ':' && s[5] == ':' && s[8] == ':' && s[11] == ':' && s[14] == ':'
}

/// Whether the `k`-th pair is of hexadecimal digits.
pub open spec fn is_pair(s: Seq<char>, k: int) -> bool {
    worth(s[3 * k]) < 16 && worth(s[3 * k + 1]) < 16
}

/// The number that the `k`-th pair of digits writes.
pub open spec fn octet_written(s: Seq<char>, k: int) -> int {
    16 * worth(s[3 * k]) + worth(s[3 * k + 1])
}

/// A text is a MAC address exactly where it is six pairs of hexadecimal digits, in either case,
/// with colons between them; its octets are the numbers that the pairs write.
#[verifier::spinoff_prover]
pub proof fn law_addresses_are_six_octets(s: Seq<char>)
    ensures
        mac_value(s) is Some <==> is_six_octets(s),
        mac_value(s) matches Some(m) ==> forall|k: int|
            0 <= k < 6 ==> m@[k] == #[trigger] octet_written(s, k),
{
    lemma_narrowed(s);
    let b = ascii_text(s);
    assert(forall|x: u8| #[trigger] crate::bytes::digit(x, 16) is Some <==> face(x) < 16);
    assert(forall|x: u8| #[trigger]
        crate::bytes::digit(x, 16) matches Some(d) ==> d == face(x) && 0 <= d < 16);
    if s.len() == 17 {
        if is_six_octets(s) {
            assert forall|k: int| 0 <= k < 6 implies #[trigger] crate::net::mac::hex_at(b, k) by {
                assert(is_pair(s, k));
                assert(b[3 * k] == ascii(s[3 * k]) && b[3 * k + 1] == ascii(s[3 * k + 1]));
            }
            assert forall|k: int| 0 <= k < 5 implies #[trigger] crate::net::mac::colon_at(b, k) by {
                assert(b[3 * k + 2] == ascii(s[3 * k + 2]));
                lemma_colon(s[3 * k + 2]);
                assert(k == 0 || k == 1 || k == 2 || k == 3 || k == 4);
            }
            assert(crate::net::mac::is_mac_text(b));
        }
        if crate::net::mac::is_mac_text(b) {
            assert forall|k: int| 0 <= k < 6 implies #[trigger] is_pair(s, k) by {
                assert(crate::net::mac::hex_at(b, k));
                assert(b[3 * k] == ascii(s[3 * k]) && b[3 * k + 1] == ascii(s[3 * k + 1]));
            }
            assert(crate::net::mac::colon_at(b, 0));
            assert(crate::net::mac::colon_at(b, 1));
            assert(crate::net::mac::colon_at(b, 2));
            assert(crate::net::mac::colon_at(b, 3));
            assert(crate::net::mac::colon_at(b, 4));
            assert(b[2] == ascii(s[2]) && b[5] == ascii(s[5]) && b[8] == ascii(s[8]) && b[11]
                == ascii(s[11]) && b[14] == ascii(s[14]));
            lemma_colon(s[2]);
            lemma_colon(s[5]);
            lemma_colon(s[8]);
            lemma_colon(s[11]);
            lemma_colon(s[14]);
            assert(is_six_octets(s));
        }
    }
    if let Some(m) = mac_value(s) {
        let octets = Seq::new(6, |k: int| crate::net::mac::octet_at(b, k));
        assert(m@ =~= octets);
        assert forall|k: int| 0 <= k < 6 implies m@[k] == #[trigger] octet_written(s, k) by {
            assert(crate::net::mac::hex_at(b, k));
            assert(b[3 * k] == ascii(s[3 * k]) && b[3 * k + 1] == ascii(s[3 * k + 1]));
        }
    }
}

proof fn lemma_colon(c: char)
    ensures
        ascii(c) == 58 <==> c == ':',
{
    assert(':' as int == 58);
}

/// Whether the item at `i` stands earlier in a list, and nothing before it does.
pub open spec fn first_repeats_at<T>(s: Seq<T>, i: int) -> bool {
    &&& 0 <= i < s.len()
    &&& s.take(i).contains(s[i])
    &&& s.take(i).no_duplicates()
}

proof fn lemma_no_duplicates_push<T>(s: Seq<T>, i: int)
    requires
        0 <= i < s.len(),
        s.take(i).no_duplicates(),
        !s.take(i).contains(s[i]),
    ensures
        s.take(i + 1).no_duplicates(),
{
    let t = s.take(i + 1);
    let u = s.take(i);
    assert forall|a: int, b: int| 0 <= a < t.len() && 0 <= b < t.len() && a != b implies t[a]
        != t[b] by {
        if a == i {
            assert(u[b] == t[b]);
        } else if b == i {
            assert(u[a] == t[a]);
        } else {
            assert(u[a] == t[a] && u[b] == t[b]);
        }
    }
}

proof fn lemma_repeated_mac(s: Seq<MacAddr>, from: int)
    requires
        0 <= from <= s.len(),
        s.take(from).no_duplicates(),
    ensures
        match first_repeated_mac(s, from) {
            Some(i) => first_repeats_at(s, i),
            None => s.no_duplicates(),
        },
    decreases s.len() - from,
{
    if from < s.len() {
        if !s.take(from).contains(s[from]) {
            lemma_no_duplicates_push(s, from);
            lemma_repeated_mac(s, from + 1);
        }
    } else {
        assert(s.take(from) =~= s);
    }
}

proof fn lemma_repeated_port(s: Seq<u16>, from: int)
    requires
        0 <= from <= s.len(),
        s.take(from).no_duplicates(),
    ensures
        match first_repeated_port(s, from) {
            Some(i) => first_repeats_at(s, i),
            None => s.no_duplicates(),
        },
    decreases s.len() - from,
{
    if from < s.len() {
        if !s.take(from).contains(s[from]) {
            lemma_no_duplicates_push(s, from);
            lemma_repeated_port(s, from + 1);
        }
    } else {
        assert(s.take(from) =~= s);
    }
}

/// Addresses make a set exactly where there are any and none repeats; the set is those addresses,
/// in order. An empty list, and the first address that repeats an earlier one, are refused.
pub proof fn law_sets_of_addresses_repeat_nothing(macs: Seq<MacAddr>)
    ensures
        match set_of(macs) {
            Ok(set) => set == macs && macs.len() > 0 && macs.no_duplicates(),
            Err(MacSetFault::Empty) => macs.len() == 0,
            Err(MacSetFault::Duplicate(mac)) => exists|i: int| #[trigger]
                first_repeats_at(macs, i) && macs[i] == mac,
            Err(MacSetFault::BadMac(_)) => false,
        },
{
    assert(macs.take(0) =~= Seq::<MacAddr>::empty());
    lemma_repeated_mac(macs, 0);
}

/// Ports make a list exactly where there are any and none repeats; the list is those ports, in
/// order. An empty list, and the first port that repeats an earlier one, are refused.
pub proof fn law_lists_of_ports_repeat_nothing(ports: Seq<u16>)
    ensures
        match ports_of(ports) {
            Ok(list) => list == ports && ports.len() > 0 && ports.no_duplicates(),
            Err(WolPortsFault::Empty) => ports.len() == 0,
            Err(WolPortsFault::Duplicate(port)) => exists|i: int| #[trigger]
                first_repeats_at(ports, i) && ports[i] == port,
            Err(WolPortsFault::BadPort(_)) => false,
        },
{
    assert(ports.take(0) =~= Seq::<u16>::empty());
    lemma_repeated_port(ports, 0);
}

/// A text writes a set of addresses through its tokens: the first that is no address is refused;
/// else the addresses make the set.
pub proof fn law_texts_of_addresses(s: Seq<char>)
    ensures
        match set_text(s) {
            Err(MacSetFault::BadMac(token)) => exists|k: int|
                #![trigger tokens(s)[k]]
                {
                    &&& 0 <= k < tokens(s).len()
                    &&& tokens(s)[k] == token
                    &&& mac_value(token) is None
                    &&& forall|i: int| 0 <= i < k ==> mac_value(#[trigger] tokens(s)[i]) is Some
                },
            r => (forall|i: int|
                0 <= i < tokens(s).len() ==> mac_value(#[trigger] tokens(s)[i]) is Some) && r
                == set_of(Seq::new(tokens(s).len(), |i: int| mac_value(tokens(s)[i])->0)),
        },
{
    lemma_first_bad_mac(tokens(s));
    let macs = Seq::new(tokens(s).len(), |i: int| mac_value(tokens(s)[i])->0);
    law_sets_of_addresses_repeat_nothing(macs);
}

proof fn lemma_first_bad_mac(list: Seq<Seq<char>>)
    ensures
        match first_bad_mac(list) {
            Some(token) => exists|k: int|
                #![trigger list[k]]
                {
                    &&& 0 <= k < list.len()
                    &&& list[k] == token
                    &&& mac_value(token) is None
                    &&& forall|i: int| 0 <= i < k ==> mac_value(#[trigger] list[i]) is Some
                },
            None => forall|i: int| 0 <= i < list.len() ==> mac_value(#[trigger] list[i]) is Some,
        },
    decreases list.len(),
{
    if list.len() > 0 && mac_value(list[0]) is Some {
        let rest = list.drop_first();
        lemma_first_bad_mac(rest);
        match first_bad_mac(rest) {
            Some(token) => {
                let k = choose|k: int|
                    #![trigger rest[k]]
                    {
                        &&& 0 <= k < rest.len()
                        &&& rest[k] == token
                        &&& mac_value(token) is None
                        &&& forall|i: int| 0 <= i < k ==> mac_value(#[trigger] rest[i]) is Some
                    };
                assert(list[k + 1] == rest[k]);
                assert forall|i: int| 0 <= i < k + 1 implies mac_value(
                    #[trigger] list[i],
                ) is Some by {
                    if i > 0 {
                        assert(rest[i - 1] == list[i]);
                    }
                }
            },
            None => {
                assert forall|i: int| 0 <= i < list.len() implies mac_value(
                    #[trigger] list[i],
                ) is Some by {
                    if i > 0 {
                        assert(rest[i - 1] == list[i]);
                    }
                }
            },
        }
    } else if list.len() > 0 {
        assert(list[0] == first_bad_mac(list)->0);
    }
}

/// A text writes a list of ports through its tokens: the first that is no port is refused; else the
/// ports make the list.
pub proof fn law_texts_of_ports(s: Seq<char>)
    ensures
        match ports_text(s) {
            Err(WolPortsFault::BadPort(token)) => exists|k: int|
                #![trigger tokens(s)[k]]
                {
                    &&& 0 <= k < tokens(s).len()
                    &&& tokens(s)[k] == token
                    &&& port_named(token) is None
                    &&& forall|i: int| 0 <= i < k ==> port_named(#[trigger] tokens(s)[i]) is Some
                },
            r => (forall|i: int|
                0 <= i < tokens(s).len() ==> port_named(#[trigger] tokens(s)[i]) is Some) && r
                == ports_of(Seq::new(tokens(s).len(), |i: int| port_named(tokens(s)[i])->0)),
        },
{
    lemma_first_bad_port(tokens(s));
    let ports = Seq::new(tokens(s).len(), |i: int| port_named(tokens(s)[i])->0);
    law_lists_of_ports_repeat_nothing(ports);
}

proof fn lemma_first_bad_port(list: Seq<Seq<char>>)
    ensures
        match first_bad_port(list) {
            Some(token) => exists|k: int|
                #![trigger list[k]]
                {
                    &&& 0 <= k < list.len()
                    &&& list[k] == token
                    &&& port_named(token) is None
                    &&& forall|i: int| 0 <= i < k ==> port_named(#[trigger] list[i]) is Some
                },
            None => forall|i: int| 0 <= i < list.len() ==> port_named(#[trigger] list[i]) is Some,
        },
    decreases list.len(),
{
    if list.len() > 0 && port_named(list[0]) is Some {
        let rest = list.drop_first();
        lemma_first_bad_port(rest);
        match first_bad_port(rest) {
            Some(token) => {
                let k = choose|k: int|
                    #![trigger rest[k]]
                    {
                        &&& 0 <= k < rest.len()
                        &&& rest[k] == token
                        &&& port_named(token) is None
                        &&& forall|i: int| 0 <= i < k ==> port_named(#[trigger] rest[i]) is Some
                    };
                assert(list[k + 1] == rest[k]);
                assert forall|i: int| 0 <= i < k + 1 implies port_named(
                    #[trigger] list[i],
                ) is Some by {
                    if i > 0 {
                        assert(rest[i - 1] == list[i]);
                    }
                }
            },
            None => {
                assert forall|i: int| 0 <= i < list.len() implies port_named(
                    #[trigger] list[i],
                ) is Some by {
                    if i > 0 {
                        assert(rest[i - 1] == list[i]);
                    }
                }
            },
        }
    } else if list.len() > 0 {
        assert(list[0] == first_bad_port(list)->0);
    }
}

/// The text of an address is six pairs of small hexadecimal digits with colons between them, which
/// write its octets.
pub proof fn law_addresses_are_written_as_six_octets(m: MacAddr)
    ensures
        is_six_octets(octets_text(m@, 6)),
        forall|k: int| 0 <= k < 6 ==> #[trigger] octet_written(octets_text(m@, 6), k) == m@[k],
        forall|i: int|
            0 <= i < 17 ==> !(65 <= (#[trigger] octets_text(m@, 6)[i]) as int && octets_text(
                m@,
                6,
            )[i] as int <= 90),
{
    crate::net::mac::law_text_round_trips(m);
    crate::net::mac::law_parsed_text_is_the_text(octets_text(m@, 6));
    lemma_written(octets_text(m@, 6), m);
}

proof fn lemma_written(t: Seq<char>, m: MacAddr)
    requires
        mac_value(t) == Some(m),
        text::lowered(t) == t,
    ensures
        is_six_octets(t),
        forall|k: int| 0 <= k < 6 ==> #[trigger] octet_written(t, k) == m@[k],
        forall|i: int|
            0 <= i < 17 ==> !(65 <= (#[trigger] t[i]) as int && t[i] as int <= 90),
{
    law_addresses_are_six_octets(t);
    assert forall|k: int| 0 <= k < 6 implies #[trigger] octet_written(t, k) == m@[k] by {
        let parsed = mac_value(t)->0;
        assert(parsed@[k] == octet_written(t, k));
    }
    crate::laws::strings::law_lower_case(t);
    assert forall|i: int| 0 <= i < 17 implies !(65 <= (#[trigger] t[i]) as int && t[i] as int
        <= 90) by {
        assert(text::lowered(t)[i] == t[i]);
    }
}

} // verus!
