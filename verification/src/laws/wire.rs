//! Laws of what stands on the wire: numbers in bytes, checksums, and the two multicast protocols'
//! messages.

#[allow(unused_imports)]
use crate::bytes;
#[allow(unused_imports)]
use crate::laws::strings::{
    blank, face, glued, is_numeral, law_numerals_have_their_place_value,
    law_splitting_undoes_gluing, law_trimming_takes_white_space_away, place_value,
};
#[allow(unused_imports)]
use crate::net;
#[allow(unused_imports)]
use crate::net::checksum::{
    checksum_of, datagram_words, header_words, lemma_words_bound, ones_complement, pseudo_v4,
    pseudo_v6, udp_checksum_of, words,
};
#[allow(unused_imports)]
use crate::net::mdns::{self, MdnsKind};
#[allow(unused_imports)]
use crate::net::ssdp::{self, SsdpKind};
#[allow(unused_imports)]
use crate::net::ByteOrder;
use vstd::prelude::*;

verus! {

/// A number of 16 bits is written in network byte order with its high byte first, and read back.
pub proof fn law_network_order_puts_the_high_byte_first(n: int, before: Seq<u8>, behind: Seq<u8>)
    requires
        0 <= n < 65536,
    ensures
        net::be16(n).len() == 2,
        256 * net::be16(n)[0] + net::be16(n)[1] == n,
        net::be16_at(before + net::be16(n) + behind, before.len() as int) == n,
{
}

/// The number that bytes write with the low byte first.
pub open spec fn low_first(s: Seq<u8>) -> int
    decreases s.len(),
{
    if s.len() == 0 {
        0
    } else {
        s[0] + 256 * low_first(s.drop_first())
    }
}

/// A little-endian host stores a number with its low byte first, a big-endian host with its low
/// byte last; each reads back what it stored.
pub proof fn law_hosts_read_what_they_store(n: u32, m: u16, before: Seq<u8>, behind: Seq<u8>)
    ensures
        low_first(net::host32(ByteOrder::Little, n)) == n,
        low_first(net::host32(ByteOrder::Big, n).reverse()) == n,
        net::host32(ByteOrder::Little, n).len() == 4,
        low_first(crate::interface::rtnetlink::host16(ByteOrder::Little, m)) == m,
        low_first(crate::interface::rtnetlink::host16(ByteOrder::Big, m).reverse()) == m,
        forall|order: ByteOrder|
            #![auto]
            net::host32_at(order, before + net::host32(order, n) + behind, before.len() as int)
                == n,
        forall|order: ByteOrder|
            #![auto]
            net::host16_at(
                order,
                before + crate::interface::rtnetlink::host16(order, m) + behind,
                before.len() as int,
            ) == m,
{
    reveal_with_fuel(low_first, 5);
    let l = net::host32(ByteOrder::Little, n);
    let b = net::host32(ByteOrder::Big, n).reverse();
    assert(l =~= b);
    assert(l.drop_first().drop_first().drop_first().drop_first().len() == 0);
    let l2 = crate::interface::rtnetlink::host16(ByteOrder::Little, m);
    assert(l2 =~= crate::interface::rtnetlink::host16(ByteOrder::Big, m).reverse());
    assert forall|order: ByteOrder|
        #![auto]
        net::host32_at(order, before + net::host32(order, n) + behind, before.len() as int) == n by {
        let h = net::host32(order, n);
        let s = before + h + behind;
        let i = before.len() as int;
        assert(s[i] == h[0] && s[i + 1] == h[1] && s[i + 2] == h[2] && s[i + 3] == h[3]);
    }
    assert forall|order: ByteOrder|
        #![auto]
        net::host16_at(
            order,
            before + crate::interface::rtnetlink::host16(order, m) + behind,
            before.len() as int,
        ) == m by {
        let h = crate::interface::rtnetlink::host16(order, m);
        let s = before + h + behind;
        let i = before.len() as int;
        assert(s[i] == h[0] && s[i + 1] == h[1]);
    }
}

/// What bytes add to a sum of 16-bit words: a byte at an even place counts 256-fold, one at an odd
/// place once.
pub open spec fn weighed(s: Seq<u8>) -> int
    decreases s.len(),
{
    if s.len() == 0 {
        0
    } else if s.len() % 2 == 1 {
        weighed(s.drop_last()) + 256 * s.last()
    } else {
        weighed(s.drop_last()) + s.last()
    }
}

proof fn lemma_weighed_concat(a: Seq<u8>, b: Seq<u8>)
    requires
        a.len() % 2 == 0,
    ensures
        weighed(a + b) == weighed(a) + weighed(b),
    decreases b.len(),
{
    if b.len() == 0 {
        assert(a + b =~= a);
    } else {
        assert((a + b).drop_last() =~= a + b.drop_last());
        lemma_weighed_concat(a, b.drop_last());
    }
}

/// The sum of the words of a string is what its bytes add to it.
pub proof fn law_words_weigh_their_bytes(s: Seq<u8>)
    ensures
        words(s) == weighed(s),
    decreases s.len(),
{
    if s.len() == 1 {
        assert(s.drop_last() =~= Seq::<u8>::empty());
        assert(weighed(s.drop_last()) == 0);
    } else if s.len() >= 2 {
        let head = s.take(2);
        assert(s =~= head + s.skip(2));
        lemma_weighed_concat(head, s.skip(2));
        assert(head.drop_last().drop_last() =~= Seq::<u8>::empty());
        assert(weighed(head.drop_last().drop_last()) == 0);
        assert(weighed(head.drop_last()) == 256 * s[0]);
        law_words_weigh_their_bytes(s.skip(2));
    }
}

proof fn lemma_checksum_completes(sum: int, c: int)
    requires
        sum >= 0,
        c == checksum_of(sum) || (checksum_of(sum) == 0 && c == 65535),
    ensures
        (sum + c) % 65535 == 0,
        sum > 0 ==> checksum_of(sum) < 65535,
{
    if sum > 0 {
        let q = (sum - 1) / 65535;
        assert(sum - 1 == 65535 * q + (sum - 1) % 65535);
        if c == checksum_of(sum) {
            vstd::arithmetic::div_mod::lemma_fundamental_div_mod_converse(
                sum + c,
                65535,
                q + 1,
                0,
            );
        } else {
            vstd::arithmetic::div_mod::lemma_fundamental_div_mod_converse(
                sum + c,
                65535,
                q + 2,
                0,
            );
        }
    }
}

/// A header that carries its checksum sums, word by word, to a multiple of all ones; and the
/// checksum of a header that is not all zeros is not all ones.
pub proof fn law_headers_sum_to_all_ones(header: Seq<u8>)
    requires
        12 <= header.len(),
        256 * header[10] + header[11] == checksum_of(header_words(header)),
    ensures
        weighed(header) % 65535 == 0,
        weighed(header) > 256 * header[10] + header[11] ==> 256 * header[10] + header[11] < 65535,
{
    let field = header.subrange(10, 12);
    let sum = header_words(header);
    assert(header =~= header.take(10) + (field + header.skip(12)));
    lemma_weighed_concat(header.take(10), field + header.skip(12));
    lemma_weighed_concat(field, header.skip(12));
    law_words_weigh_their_bytes(header.take(10));
    law_words_weigh_their_bytes(header.skip(12));
    lemma_words_bound(header.take(10));
    lemma_words_bound(header.skip(12));
    lemma_field(field);
    lemma_checksum_completes(sum, checksum_of(sum) as int);
}

proof fn lemma_field(field: Seq<u8>)
    requires
        field.len() == 2,
    ensures
        weighed(field) == 256 * field[0] + field[1],
{
    assert(field.drop_last().drop_last() =~= Seq::<u8>::empty());
    assert(weighed(field.drop_last().drop_last()) == 0);
    assert(weighed(field.drop_last()) == 256 * field[0]);
}

/// The IPv4 pseudo-header is twelve bytes: the source, the destination, a zero, the number of UDP,
/// and the length with its high byte first.
pub proof fn law_ipv4_pseudo_header(src: Seq<u8>, dst: Seq<u8>, length: int)
    requires
        src.len() == 4,
        dst.len() == 4,
        0 <= length < 65536,
    ensures
        ({
            let p = pseudo_v4(src, dst, length);
            &&& p.len() == 12
            &&& forall|i: int| 0 <= i < 4 ==> #[trigger] p[i] == src[i]
            &&& forall|i: int| 4 <= i < 8 ==> #[trigger] p[i] == dst[i - 4]
            &&& p[8] == 0
            &&& p[9] == 17
            &&& 256 * p[10] + p[11] == length
        }),
{
}

/// The IPv6 pseudo-header is forty bytes: the source, the destination, the length in four bytes
/// with the high byte first, three zeros, and the number of UDP.
pub proof fn law_ipv6_pseudo_header(src: Seq<u8>, dst: Seq<u8>, length: int)
    requires
        src.len() == 16,
        dst.len() == 16,
        0 <= length < 65536,
    ensures
        ({
            let p = pseudo_v6(src, dst, length);
            &&& p.len() == 40
            &&& forall|i: int| 0 <= i < 16 ==> #[trigger] p[i] == src[i]
            &&& forall|i: int| 16 <= i < 32 ==> #[trigger] p[i] == dst[i - 16]
            &&& p[32] == 0
            &&& p[33] == 0
            &&& 256 * p[34] + p[35] == length
            &&& p[36] == 0
            &&& p[37] == 0
            &&& p[38] == 0
            &&& p[39] == 17
        }),
{
}

proof fn lemma_datagram_completes(pseudo: Seq<u8>, udp: Seq<u8>)
    requires
        pseudo.len() % 2 == 0,
        8 <= udp.len(),
        256 * udp[6] + udp[7] == udp_checksum_of(pseudo, udp),
    ensures
        (weighed(pseudo) + weighed(udp)) % 65535 == 0,
        256 * udp[6] + udp[7] > 0,
{
    let field = udp.subrange(6, 8);
    let sum = words(pseudo) + datagram_words(udp);
    assert(udp =~= udp.take(6) + (field + udp.skip(8)));
    lemma_weighed_concat(udp.take(6), field + udp.skip(8));
    lemma_weighed_concat(field, udp.skip(8));
    law_words_weigh_their_bytes(pseudo);
    law_words_weigh_their_bytes(udp.take(6));
    law_words_weigh_their_bytes(udp.skip(8));
    lemma_words_bound(pseudo);
    lemma_words_bound(udp.take(6));
    lemma_words_bound(udp.skip(8));
    lemma_field(field);
    lemma_checksum_completes(sum, udp_checksum_of(pseudo, udp) as int);
}

/// A receiver's check passes on a datagram over IPv4 whose length field states its length and whose
/// checksum field holds its checksum: the words of the source, of the destination, the number of
/// UDP, the datagram's own length field and the words of the whole datagram sum to a multiple of
/// all ones. The checksum field is never zero, which would say that there is none.
pub proof fn law_ipv4_datagrams_verify(src: Seq<u8>, dst: Seq<u8>, udp: Seq<u8>)
    requires
        src.len() == 4,
        dst.len() == 4,
        8 <= udp.len() <= 65535,
        256 * udp[4] + udp[5] == udp.len(),
        256 * udp[6] + udp[7] == udp_checksum_of(pseudo_v4(src, dst, udp.len() as int), udp),
    ensures
        (weighed(src) + weighed(dst) + 17 + (256 * udp[4] + udp[5]) + weighed(udp)) % 65535 == 0,
        256 * udp[6] + udp[7] > 0,
{
    let p = pseudo_v4(src, dst, udp.len() as int);
    law_ipv4_pseudo_header(src, dst, udp.len() as int);
    lemma_datagram_completes(p, udp);
    let tail = p.subrange(8, 12);
    assert(p =~= src + (dst + tail));
    lemma_weighed_concat(src, dst + tail);
    lemma_weighed_concat(dst, tail);
    assert(tail =~= tail.take(2) + tail.skip(2));
    lemma_weighed_concat(tail.take(2), tail.skip(2));
    lemma_field(tail.take(2));
    lemma_field(tail.skip(2));
}

/// The same over IPv6.
pub proof fn law_ipv6_datagrams_verify(src: Seq<u8>, dst: Seq<u8>, udp: Seq<u8>)
    requires
        src.len() == 16,
        dst.len() == 16,
        8 <= udp.len() <= 65535,
        256 * udp[4] + udp[5] == udp.len(),
        256 * udp[6] + udp[7] == udp_checksum_of(pseudo_v6(src, dst, udp.len() as int), udp),
    ensures
        (weighed(src) + weighed(dst) + 17 + (256 * udp[4] + udp[5]) + weighed(udp)) % 65535 == 0,
        256 * udp[6] + udp[7] > 0,
{
    let p = pseudo_v6(src, dst, udp.len() as int);
    law_ipv6_pseudo_header(src, dst, udp.len() as int);
    lemma_datagram_completes(p, udp);
    let tail = p.subrange(32, 40);
    assert(p =~= src + (dst + tail));
    lemma_weighed_concat(src, dst + tail);
    lemma_weighed_concat(dst, tail);
    let a = tail.subrange(0, 2);
    let b = tail.subrange(2, 4);
    let c = tail.subrange(4, 6);
    let d = tail.subrange(6, 8);
    assert(tail =~= a + (b + (c + d)));
    lemma_weighed_concat(a, b + (c + d));
    lemma_weighed_concat(b, c + d);
    lemma_weighed_concat(c, d);
    lemma_field(a);
    lemma_field(b);
    lemma_field(c);
    lemma_field(d);
}

/// A payload is a search exactly where it begins with `M-SEARCH` and a space, and an advertisement
/// exactly where it begins with `NOTIFY` and a space.
pub proof fn law_ssdp_messages_are_told_by_their_method(payload: Seq<u8>)
    ensures
        ssdp::kind_of(payload) == Some(SsdpKind::Search) <==> seq![
            77u8,
            45,
            83,
            69,
            65,
            82,
            67,
            72,
            32,
        ].is_prefix_of(payload),
        ssdp::kind_of(payload) == Some(SsdpKind::Advertisement) <==> seq![
            78u8,
            79,
            84,
            73,
            70,
            89,
            32,
        ].is_prefix_of(payload),
{
    reveal_strlit("M-SEARCH ");
    reveal_strlit("NOTIFY ");
    let search = seq![77u8, 45, 83, 69, 65, 82, 67, 72, 32];
    let notify = seq![78u8, 79, 84, 73, 70, 89, 32];
    assert(crate::net::http::text("M-SEARCH "@) =~= search);
    assert(crate::net::http::text("NOTIFY "@) =~= notify);
    assert(search[0] == 77 && notify[0] == 78);
    if search.is_prefix_of(payload) {
        assert(payload.take(9) =~= search);
    }
    if notify.is_prefix_of(payload) {
        assert(payload.take(7) =~= notify);
        assert(payload[0] == 78);
        if payload.len() >= 9 {
            assert(payload.take(9)[0] == 78);
        }
    }
    if payload.len() >= 9 && payload.take(9) == search {
        assert(payload[0] == 77);
        assert(payload.take(7)[0] == 77);
    }
}

/// Whether a line is an MX header: it begins with `MX:`, in any case.
pub open spec fn is_mx_line(line: Seq<u8>) -> bool {
    &&& line.len() >= 3
    &&& line[0] == 77 || line[0] == 109
    &&& line[1] == 88 || line[1] == 120
    &&& line[2] == 58
}

/// Whether `n` digits stand at `from`, and no more.
pub open spec fn digits_stand(line: Seq<u8>, from: int, n: int) -> bool {
    &&& 0 <= n
    &&& from + n <= line.len()
    &&& forall|i: int| from <= i < from + n ==> 48 <= #[trigger] line[i] <= 57
    &&& from + n < line.len() ==> !(48 <= line[from + n] <= 57)
}

/// The window that an MX line states, where behind the name stand `pad` blanks and `n` digits: none
/// where there are no digits or 32 bits do not hold their number; else the number, but no less than
/// 1 and no more than 5.
pub open spec fn stated_window(line: Seq<u8>, pad: int, n: int) -> Option<u8> {
    let number = place_value(line.subrange(3 + pad, 3 + pad + n), 10);
    if n == 0 || number > 0xffff_ffff {
        None
    } else if number < 1 {
        Some(1)
    } else if number > 5 {
        Some(5)
    } else {
        Some(number as u8)
    }
}

/// The first line that begins with `MX:` decides a search's window, whatever the other lines hold:
/// the window is that of the digits behind the name and the blanks that follow it.
pub proof fn law_the_first_mx_line_decides(lines: Seq<Seq<u8>>, k: int, pad: int, n: int)
    requires
        0 <= k < lines.len(),
        forall|i: int| 0 <= i < lines.len() ==> !(#[trigger] lines[i]).contains(10),
        forall|i: int| 0 <= i < k ==> !is_mx_line(#[trigger] lines[i]),
        is_mx_line(lines[k]),
        0 <= pad,
        3 + pad <= lines[k].len(),
        blank(lines[k].subrange(3, 3 + pad)),
        3 + pad < lines[k].len() ==> !blank(seq![lines[k][3 + pad]]),
        digits_stand(lines[k], 3 + pad, n),
    ensures
        ssdp::msearch_mx(glued(lines, 10)) == stated_window(lines[k], pad, n),
{
    law_splitting_undoes_gluing(lines, 10);
    lemma_first_mx(lines, k);
    lemma_mx_value(lines[k], pad, n);
}

/// A search has no window for lack of a header only where no line begins with `MX:`; and there it
/// has none.
pub proof fn law_no_mx_line_no_window(lines: Seq<Seq<u8>>)
    requires
        lines.len() > 0,
        forall|i: int| 0 <= i < lines.len() ==> !(#[trigger] lines[i]).contains(10),
        forall|i: int| 0 <= i < lines.len() ==> !is_mx_line(#[trigger] lines[i]),
    ensures
        ssdp::msearch_mx(glued(lines, 10)) is None,
{
    law_splitting_undoes_gluing(lines, 10);
    lemma_no_mx(lines);
}

/// What follows the name of an MX line, the carriage return at the line's end left out.
spec fn mx_field(line: Seq<u8>) -> Seq<u8> {
    ssdp::without_cr(line).skip(3)
}

proof fn lemma_mx_stripped(line: Seq<u8>)
    ensures
        is_mx_line(line) <==> crate::net::http::stripped(
            ssdp::without_cr(line),
            crate::net::http::text("MX:"@),
        ) is Some,
        is_mx_line(line) ==> crate::net::http::stripped(
            ssdp::without_cr(line),
            crate::net::http::text("MX:"@),
        ) == Some(mx_field(line)),
{
    reveal_strlit("MX:");
    let name = crate::net::http::text("MX:"@);
    assert(name =~= seq![77u8, 88, 58]);
    let cut = ssdp::without_cr(line);
    if cut.len() >= 3 {
        let head = cut.take(3);
        assert(head[0] == line[0] && head[1] == line[1] && head[2] == line[2]);
        crate::laws::strings::law_case_is_ignored_for_letters_alone(head, name);
        if bytes::same_ignoring_case(head, name) {
            assert(crate::laws::strings::same_letter(head[0], name[0]));
            assert(crate::laws::strings::same_letter(head[1], name[1]));
            assert(crate::laws::strings::same_letter(head[2], name[2]));
        }
        if is_mx_line(line) {
            assert forall|i: int| 0 <= i < head.len() implies crate::laws::strings::same_letter(
                #[trigger] head[i],
                name[i],
            ) by {
                assert(i == 0 || i == 1 || i == 2);
            }
        }
    } else if is_mx_line(line) {
        assert(line.len() == 3);
        assert(line.last() == 58);
    }
}

proof fn lemma_first_mx(lines: Seq<Seq<u8>>, k: int)
    requires
        0 <= k < lines.len(),
        forall|i: int| 0 <= i < k ==> !is_mx_line(#[trigger] lines[i]),
        is_mx_line(lines[k]),
    ensures
        ssdp::first_mx(lines) == ssdp::mx_value(mx_field(lines[k])),
    decreases k,
{
    lemma_mx_stripped(lines[0]);
    if k > 0 {
        let rest = lines.drop_first();
        assert(!is_mx_line(lines[0]));
        assert forall|i: int| 0 <= i < k - 1 implies !is_mx_line(#[trigger] rest[i]) by {
            assert(rest[i] == lines[i + 1]);
        }
        lemma_first_mx(rest, k - 1);
    }
}

proof fn lemma_no_mx(lines: Seq<Seq<u8>>)
    requires
        forall|i: int| 0 <= i < lines.len() ==> !is_mx_line(#[trigger] lines[i]),
    ensures
        ssdp::first_mx(lines) is None,
    decreases lines.len(),
{
    if lines.len() > 0 {
        lemma_mx_stripped(lines[0]);
        assert(!is_mx_line(lines[0]));
        let rest = lines.drop_first();
        assert forall|i: int| 0 <= i < rest.len() implies !is_mx_line(#[trigger] rest[i]) by {
            assert(rest[i] == lines[i + 1]);
        }
        lemma_no_mx(rest);
    }
}

proof fn lemma_digit_run(digits: Seq<u8>, rest: Seq<u8>)
    requires
        forall|i: int| 0 <= i < digits.len() ==> 48 <= #[trigger] digits[i] <= 57,
        rest.len() > 0 ==> !(48 <= rest[0] <= 57),
    ensures
        ssdp::digit_run(digits + rest) == digits.len(),
    decreases digits.len(),
{
    let all = digits + rest;
    if digits.len() > 0 {
        assert(all[0] == digits[0]);
        assert(all.drop_first() =~= digits.drop_first() + rest);
        let fewer = digits.drop_first();
        assert forall|i: int| 0 <= i < fewer.len() implies 48 <= #[trigger] fewer[i] <= 57 by {
            assert(fewer[i] == digits[i + 1]);
        }
        lemma_digit_run(fewer, rest);
    } else {
        assert(all =~= rest);
    }
}

proof fn lemma_trimmed_field(pad: Seq<u8>, rest: Seq<u8>)
    requires
        blank(pad),
        rest.len() > 0 ==> !blank(seq![rest[0]]),
    ensures
        bytes::trimmed_start(pad + rest) == rest,
    decreases pad.len(),
{
    let all = pad + rest;
    if pad.len() > 0 {
        assert(all[0] == pad[0]);
        let fewer = pad.drop_first();
        assert forall|i: int| 0 <= i < fewer.len() implies (#[trigger] fewer[i] == 32 || fewer[i]
            == 9 || fewer[i] == 10 || fewer[i] == 12 || fewer[i] == 13) by {
            assert(fewer[i] == pad[i + 1]);
        }
        assert(all.drop_first() =~= fewer + rest);
        lemma_trimmed_field(fewer, rest);
    } else {
        assert(all =~= rest);
        if rest.len() > 0 {
            let one = seq![rest[0]];
            assert(one[0] == rest[0]);
            if bytes::is_space(rest[0]) {
                assert(blank(one));
            }
        }
    }
}

proof fn lemma_mx_value(line: Seq<u8>, pad: int, n: int)
    requires
        is_mx_line(line),
        0 <= pad,
        3 + pad <= line.len(),
        blank(line.subrange(3, 3 + pad)),
        3 + pad < line.len() ==> !blank(seq![line[3 + pad]]),
        digits_stand(line, 3 + pad, n),
    ensures
        ssdp::mx_value(mx_field(line)) == stated_window(line, pad, n),
{
    let cut = ssdp::without_cr(line);
    let field = mx_field(line);
    let digits = line.subrange(3 + pad, 3 + pad + n);
    assert forall|i: int| 0 <= i < digits.len() implies 48 <= #[trigger] digits[i] <= 57 by {
        assert(digits[i] == line[3 + pad + i]);
    }
    // A carriage return at the end is among the blanks, or behind the digits.
    let cr = line.len() - cut.len();
    if cr == 1 {
        assert(line[line.len() - 1] == 13);
        if 3 + pad < line.len() {
            let one = seq![line[3 + pad]];
            if line[3 + pad] == 13 {
                assert forall|i: int| 0 <= i < one.len() implies (#[trigger] one[i] == 32 || one[i]
                    == 9 || one[i] == 10 || one[i] == 12 || one[i] == 13) by {}
                assert(blank(one));
            }
        }
        if n > 0 && 3 + pad + n == line.len() {
            assert(digits[n - 1] == 13);
        }
    }
    let before = if 3 + pad <= cut.len() {
        pad
    } else {
        pad - 1
    };
    let pads = line.subrange(3, 3 + before);
    assert forall|i: int| 0 <= i < pads.len() implies (#[trigger] pads[i] == 32 || pads[i] == 9
        || pads[i] == 10 || pads[i] == 12 || pads[i] == 13) by {
        assert(pads[i] == line.subrange(3, 3 + pad)[i]);
    }
    let rest = cut.skip(3 + before);
    assert(field =~= pads + rest);
    if rest.len() > 0 {
        assert(rest[0] == line[3 + pad]);
        assert(seq![rest[0]] =~= seq![line[3 + pad]]);
    }
    lemma_trimmed_field(pads, rest);
    assert(bytes::trimmed_start(field) == rest);
    let tail = rest.skip(n);
    assert(rest =~= digits + tail);
    if tail.len() > 0 {
        assert(tail[0] == line[3 + pad + n]);
    }
    lemma_digit_run(digits, tail);
    assert(rest.take(n) =~= digits);
    law_numerals_have_their_place_value(digits, 10, 0xffff_ffff);
    if n > 0 {
        assert(is_numeral(digits, 10));
        assert(digits[0] != 43);
    }
}

/// A payload is a query or a response by the highest bit of its third byte, and neither where it
/// is shorter than a header.
pub proof fn law_mdns_messages_are_told_by_their_highest_flag(payload: Seq<u8>)
    ensures
        mdns::kind_of(payload) is None <==> payload.len() < 12,
        mdns::kind_of(payload) == Some(MdnsKind::Response) <==> payload.len() >= 12 && payload[2]
            / 128 == 1,
{
}

/// The well-known numbers of the two protocols: mDNS is port 5353 with a time to live of 255, to
/// 224.0.0.251 and ff02::fb; SSDP is port 1900 with a time to live of 2, to 239.255.255.250, ff02::c
/// and ff05::c.
pub proof fn law_well_known_numbers()
    ensures
        mdns::MDNS_PORT == 5353,
        mdns::MDNS_TTL == 255,
        mdns::MDNS_GROUP_V4@ == seq![224u8, 0, 0, 251],
        mdns::MDNS_GROUP_V6@ == seq![255u8, 2, 0, 0, 0, 0, 0, 0, 0, 0, 0, 0, 0, 0, 0, 251],
        ssdp::SSDP_PORT == 1900,
        ssdp::SSDP_TTL == 2,
        ssdp::SSDP_GROUP_V4@ == seq![239u8, 255, 255, 250],
        ssdp::SSDP_GROUP_V6_LINK_LOCAL@ == seq![
            255u8,
            2,
            0,
            0,
            0,
            0,
            0,
            0,
            0,
            0,
            0,
            0,
            0,
            0,
            0,
            12,
        ],
        ssdp::SSDP_GROUP_V6_SITE_LOCAL@ == seq![
            255u8,
            5,
            0,
            0,
            0,
            0,
            0,
            0,
            0,
            0,
            0,
            0,
            0,
            0,
            0,
            12,
        ],
        ssdp::MSEARCH_MX_DEFAULT == 3,
{
    assert(mdns::MDNS_GROUP_V4@ =~= seq![224u8, 0, 0, 251]);
    assert(mdns::MDNS_GROUP_V6@ =~= seq![255u8, 2, 0, 0, 0, 0, 0, 0, 0, 0, 0, 0, 0, 0, 0, 251]);
    assert(ssdp::SSDP_GROUP_V4@ =~= seq![239u8, 255, 255, 250]);
    assert(ssdp::SSDP_GROUP_V6_LINK_LOCAL@ =~= seq![
        255u8,
        2,
        0,
        0,
        0,
        0,
        0,
        0,
        0,
        0,
        0,
        0,
        0,
        0,
        0,
        12,
    ]);
    assert(ssdp::SSDP_GROUP_V6_SITE_LOCAL@ =~= seq![
        255u8,
        5,
        0,
        0,
        0,
        0,
        0,
        0,
        0,
        0,
        0,
        0,
        0,
        0,
        0,
        12,
    ]);
}

} // verus!
