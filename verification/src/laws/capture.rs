//! Laws of captured batches, of address-change notifications, and of the calendar.

#[allow(unused_imports)]
use crate::capture::bpf::{aligned, next_of, record_of, BatchError, BpfLayout, Next, Record};
#[allow(unused_imports)]
use crate::config::value::LogLevel;
#[allow(unused_imports)]
use crate::interface::address_monitor::{
    changes, reported, route, rtnetlink, step_after, Backend, DrainStep, RecvFailure,
};
#[allow(unused_imports)]
use crate::interface::rtnetlink::MessageView;
#[allow(unused_imports)]
use crate::laws::strings::{codes, is_numeral, law_decimals_write_the_number, place_value};
#[allow(unused_imports)]
use crate::logging::{
    day_number, days_before_month, days_before_year, days_in_month, is_date, is_instant, iso_text,
    leap, level_column, Utc,
};
#[allow(unused_imports)]
use crate::net::{host16_at, host32_at, ByteOrder};
#[allow(unused_imports)]
use crate::text;
use vstd::prelude::*;

verus! {

/// A length is aligned to the next multiple: the least that is no less.
pub proof fn law_alignment_is_the_next_multiple(x: int, align: int)
    requires
        x >= 0,
        align == 4 || align == 8,
    ensures
        aligned(x, align) % align == 0,
        x <= aligned(x, align) < x + align,
        crate::interface::rtnetlink::aligned(x) % 4 == 0,
        x <= crate::interface::rtnetlink::aligned(x) < x + 4,
{
}

/// What a record at the front of a batch is. Its header states where its frame starts, how many
/// bytes of it were captured, and how many it had. One that was captured whole is a frame; one that
/// was cut is oversized; and the next record stands at the next multiple behind. A batch that ends
/// within the header or the frame, or a record of no length, is malformed.
pub proof fn law_records_are_told_by_their_header(layout: BpfLayout, record: Seq<u8>)
    requires
        layout.wf(),
        record.len() <= usize::MAX,
    ensures
        ({
            let start = host16_at(layout.order, record, layout.hdrlen_at as int);
            let captured = host32_at(layout.order, record, layout.caplen_at as int);
            let whole = host32_at(layout.order, record, layout.datalen_at as int);
            match record_of(layout, record) {
                Ok((Record::Frame { start: s, end: e }, next)) => {
                    &&& record.len() >= layout.header_size
                    &&& s == start
                    &&& e == start + captured
                    &&& 0 < e <= record.len()
                    &&& whole <= captured
                    &&& e <= next < e + layout.align
                    &&& next % layout.align as int == 0
                },
                Ok((Record::Oversized { datalen }, next)) => {
                    &&& record.len() >= layout.header_size
                    &&& datalen == whole
                    &&& whole > captured
                    &&& 0 < start + captured <= record.len()
                    &&& start + captured <= next < start + captured + layout.align
                    &&& next % layout.align as int == 0
                },
                Err(BatchError::MidHeader) => record.len() < layout.header_size,
                Err(BatchError::PastEnd) => record.len() >= layout.header_size && start + captured
                    > record.len(),
                Err(BatchError::NoAdvance) => record.len() >= layout.header_size && start + captured
                    == 0,
            }
        }),
{
    let start = host16_at(layout.order, record, layout.hdrlen_at as int);
    let captured = host32_at(layout.order, record, layout.caplen_at as int);
    crate::net::lemma_host32_at(layout.order, record, layout.caplen_at as int);
    crate::net::lemma_host32_at(layout.order, record, layout.datalen_at as int);
    assert(0 <= start <= 65535);
    law_alignment_is_the_next_multiple(start + captured, layout.align as int);
}

/// A batch is walked record by record: a frame is handed out at its place in the batch, an oversized
/// record is passed over, and a malformed one abandons the rest.
pub proof fn law_batches_are_walked(layout: BpfLayout, batch: Seq<u8>, offset: int)
    requires
        layout.wf(),
        batch.len() <= usize::MAX - 8,
        0 <= offset,
    ensures
        offset >= batch.len() ==> next_of(layout, batch, offset) == (Next::Drained, offset),
        offset < batch.len() ==> match record_of(layout, batch.skip(offset)) {
            Ok((Record::Frame { start, end }, next)) => next_of(layout, batch, offset).0 == (
            Next::Frame {
                start: (offset + start) as usize,
                end: (offset + end) as usize,
            }) && next_of(layout, batch, offset).1 == offset + next,
            Ok((Record::Oversized { .. }, next)) => next_of(layout, batch, offset) == next_of(
                layout,
                batch,
                offset + next,
            ),
            Err(e) => next_of(layout, batch, offset) == (Next::Malformed(e), batch.len() as int),
        },
{
    if offset < batch.len() {
        law_records_are_told_by_their_header(layout, batch.skip(offset));
    }
}

/// A notification of an address (types 20 and 21) or of a link (types 16 and 17) names the
/// interface whose index it states; a negative or zero index names none, and no other notification
/// does.
pub proof fn law_notifications_name_the_changed_interface(order: ByteOrder, msg: MessageView)
    ensures
        ({
            let index = host32_at(order, msg.bytes, 20);
            let of_address = (msg.msg_type == 20 || msg.msg_type == 21) && msg.bytes.len() >= 24
                && index != 0;
            let of_link = (msg.msg_type == 16 || msg.msg_type == 17) && msg.bytes.len() >= 32 && 0
                < index < 0x8000_0000;
            &&& rtnetlink::changed_interface(order, msg) is Some <==> of_address || of_link
            &&& rtnetlink::changed_interface(order, msg) matches Some(i) ==> i == index
        }),
{
    crate::net::lemma_host32_at(order, msg.bytes, 20);
}

/// The notifications of a datagram name their interfaces in order.
pub proof fn law_notifications_are_read_in_order(
    list: Seq<MessageView>,
    msg: MessageView,
    order: ByteOrder,
)
    ensures
        rtnetlink::named(Seq::empty(), order).len() == 0,
        rtnetlink::named(list.push(msg), order) == match rtnetlink::changed_interface(order, msg) {
            Some(index) => rtnetlink::named(list, order).push(index),
            None => rtnetlink::named(list, order),
        },
{
    assert(list.push(msg).drop_last() =~= list);
}

/// A routing message: its bytes state their own length in the first two.
pub open spec fn routing_message(order: ByteOrder, m: Seq<u8>) -> bool {
    4 <= m.len() <= 65535 && host16_at(order, m, 0) == m.len()
}

/// A routing message of an address (types 12 and 13) or of an interface (type 14) names the
/// interface whose index stands at byte 12, unless that is zero or the message ends before it; and
/// the messages of a datagram are read one behind the other.
pub proof fn law_routing_messages_name_the_changed_interface(
    order: ByteOrder,
    front: Seq<u8>,
    m: Seq<u8>,
    rest: Seq<u8>,
)
    requires
        routing_message(order, m),
    ensures
        ({
            let buf = front + m + rest;
            let at = front.len() as int;
            let index = host16_at(order, m, 12);
            let tail = route::changed_interfaces(order, buf, at + m.len());
            route::changed_interfaces(order, buf, at) == if 12 <= m[3] <= 14 && m.len() >= 14
                && index != 0 {
                seq![index as u32] + tail
            } else {
                tail
            }
        }),
        rest.len() < 4 ==> route::changed_interfaces(
            order,
            front + m + rest,
            front.len() + m.len() as int,
        ).len() == 0,
{
    let buf = front + m + rest;
    let at = front.len() as int;
    assert(buf[at] == m[0] && buf[at + 1] == m[1] && buf[at + 3] == m[3]);
    assert(host16_at(order, buf, at) == m.len());
    if m.len() >= 14 {
        assert(buf[at + 12] == m[12] && buf[at + 13] == m[13]);
    }
}

/// What a receive makes a drain do and report. A datagram that holds anything is reported and the
/// drain goes on; an empty one, or nothing queued, ends it; an interruption changes nothing; an
/// overflow reports every interface, by index 0, and goes on; any other error ends it with that
/// error.
pub proof fn law_drains(backend: Backend, order: ByteOrder, datagram: Seq<u8>, errno: i32)
    ensures
        datagram.len() > 0 ==> step_after(Ok(datagram)) == DrainStep::Continue,
        datagram.len() == 0 ==> step_after(Ok(datagram)) == DrainStep::Finished,
        step_after(Err(RecvFailure::Interrupted)) == DrainStep::Continue,
        step_after(Err(RecvFailure::NoBufferSpace)) == DrainStep::Continue,
        step_after(Err(RecvFailure::WouldBlock)) == DrainStep::Finished,
        step_after(Err(RecvFailure::Other(errno))) == DrainStep::Failed(errno),
        reported(backend, order, Ok(datagram)) == changes(backend, order, datagram),
        reported(backend, order, Err(RecvFailure::NoBufferSpace)) == seq![0u32],
        reported(backend, order, Err(RecvFailure::Interrupted)).len() == 0,
        reported(backend, order, Err(RecvFailure::WouldBlock)).len() == 0,
        reported(backend, order, Err(RecvFailure::Other(errno))).len() == 0,
{
}

/// Dates follow each other without a gap: the day behind the last of a month is the first of the
/// next, and the day behind the last of December the first of January.
pub proof fn law_days_follow_each_other(year: int, month: int, day: int)
    requires
        is_date(year, month, day),
    ensures
        day < days_in_month(year, month) ==> day_number(year, month, day + 1) == day_number(
            year,
            month,
            day,
        ) + 1,
        day == days_in_month(year, month) && month < 12 ==> day_number(year, month + 1, 1)
            == day_number(year, month, day) + 1,
        day == days_in_month(year, month) && month == 12 ==> day_number(year + 1, 1, 1)
            == day_number(year, month, day) + 1,
        day_number(1970, 1, 1) == 0,
{
    law_months_of_the_year(year);
    assert(days_before_month(year, 13) == days_before_month(year, 12) + days_in_month(year, 12));
}

/// How many days of a year lie before each month, one more behind February in a leap year; and how
/// long the year is.
pub proof fn law_months_of_the_year(year: int)
    ensures
        ({
            let l: int = if leap(year) {
                1
            } else {
                0
            };
            &&& days_before_month(year, 1) == 0
            &&& days_before_month(year, 2) == 31
            &&& days_before_month(year, 3) == 59 + l
            &&& days_before_month(year, 4) == 90 + l
            &&& days_before_month(year, 5) == 120 + l
            &&& days_before_month(year, 6) == 151 + l
            &&& days_before_month(year, 7) == 181 + l
            &&& days_before_month(year, 8) == 212 + l
            &&& days_before_month(year, 9) == 243 + l
            &&& days_before_month(year, 10) == 273 + l
            &&& days_before_month(year, 11) == 304 + l
            &&& days_before_month(year, 12) == 334 + l
            &&& days_in_month(year, 12) == 31
            &&& year >= 1970 ==> days_before_year(year + 1) - days_before_year(year) == 365 + l
        }),
{
    reveal_with_fuel(days_before_month, 13);
}

/// Every fourth year is a leap year, but of the years that end a century only every fourth.
pub proof fn law_leap_years(year: int, century: int)
    ensures
        year % 4 != 0 ==> !leap(year),
        year % 4 == 0 && year % 100 != 0 ==> leap(year),
        leap(400 * century),
        !leap(400 * century + 100),
        !leap(400 * century + 200),
        !leap(400 * century + 300),
{
}

/// A stamp is twenty characters for the years of four digits: the six numbers of the instant, each
/// in its place and with zeros in front, and the characters between them.
pub proof fn law_stamps_hold_the_six_numbers(utc: Utc)
    requires
        1000 <= utc.year <= 9999,
        utc.month < 100,
        utc.day < 100,
        utc.hour < 100,
        utc.minute < 100,
        utc.second < 100,
    ensures
        ({
            let t = iso_text(utc);
            &&& t.len() == 20
            &&& place_value(codes(t.take(4)), 10) == utc.year
            &&& t[4] == '-'
            &&& two_digits(t, 5, utc.month as int)
            &&& t[7] == '-'
            &&& two_digits(t, 8, utc.day as int)
            &&& t[10] == 'T'
            &&& two_digits(t, 11, utc.hour as int)
            &&& t[13] == ':'
            &&& two_digits(t, 14, utc.minute as int)
            &&& t[16] == ':'
            &&& two_digits(t, 17, utc.second as int)
            &&& t[19] == 'Z'
        }),
{
    reveal_strlit("-");
    reveal_strlit("T");
    reveal_strlit(":");
    reveal_strlit("Z");
    let t = iso_text(utc);
    let year = text::padded(utc.year as nat, 4);
    lemma_four_digits(utc.year as nat);
    lemma_two_digits(utc.month as nat);
    lemma_two_digits(utc.day as nat);
    lemma_two_digits(utc.hour as nat);
    lemma_two_digits(utc.minute as nat);
    lemma_two_digits(utc.second as nat);
    assert(t.take(4) =~= year);
}

/// Whether two characters at a place write a number.
pub open spec fn two_digits(t: Seq<char>, at: int, n: int) -> bool {
    &&& 48 <= t[at] as int && t[at] as int <= 57
    &&& 48 <= t[at + 1] as int && t[at + 1] as int <= 57
    &&& (t[at] as int - 48) * 10 + (t[at + 1] as int - 48) == n
}

proof fn lemma_two_digits(n: nat)
    requires
        n < 100,
    ensures
        text::padded(n, 2).len() == 2,
        two_digits(text::padded(n, 2), 0, n as int),
{
    reveal_with_fuel(text::decimal, 3);
    let p = text::padded(n, 2);
    if n < 10 {
        assert(text::decimal(n).len() == 1);
        assert(p[0] == '0');
        assert(p[1] == text::decimal(n)[0]);
    } else {
        assert(text::decimal(n / 10).len() == 1);
        assert(text::decimal(n).len() == 2);
        assert(p =~= text::decimal(n));
    }
}

proof fn lemma_four_digits(n: nat)
    requires
        1000 <= n <= 9999,
    ensures
        text::padded(n, 4).len() == 4,
        place_value(codes(text::padded(n, 4)), 10) == n,
{
    reveal_with_fuel(text::decimal, 5);
    assert(text::decimal(n).len() == 4) by {
        assert(text::decimal(n / 10 / 10 / 10).len() == 1);
        assert(text::decimal(n / 10 / 10).len() == 2);
        assert(text::decimal(n / 10).len() == 3);
    }
    assert(text::padded(n, 4) =~= text::decimal(n));
    law_decimals_write_the_number(n);
}

/// A level stands in a column of five characters, spaces in front of it.
pub proof fn law_levels_stand_in_a_column(level: Seq<char>)
    ensures
        level_column(level).len() >= 5,
        level.len() >= 5 ==> level_column(level) == level,
        level.len() < 5 ==> {
            let c = level_column(level);
            &&& c.len() == 5
            &&& c.skip(5 - level.len()) == level
            &&& forall|i: int| 0 <= i < 5 - level.len() ==> #[trigger] c[i] == ' '
        },
{
    if level.len() < 5 {
        assert(level_column(level).skip(5 - level.len()) =~= level);
    }
}

/// An instant is a date and a time of day: as many seconds behind the first of January 1970 as the
/// days before the date and the time of day make up.
pub proof fn law_instants_count_seconds(utc: Utc, secs: int)
    requires
        is_instant(utc, secs),
    ensures
        is_date(utc.year as int, utc.month as int, utc.day as int),
        secs / 86400 == day_number(utc.year as int, utc.month as int, utc.day as int),
        secs % 86400 / 3600 == utc.hour,
        secs % 3600 / 60 == utc.minute,
        secs % 60 == utc.second,
{
    lemma_seconds_taken_apart(
        secs,
        day_number(utc.year as int, utc.month as int, utc.day as int),
        utc.hour as int,
        utc.minute as int,
        utc.second as int,
    );
}

#[verifier::spinoff_prover]
proof fn lemma_seconds_taken_apart(secs: int, days: int, hour: int, minute: int, second: int)
    requires
        secs == days * 86400 + hour * 3600 + minute * 60 + second,
        0 <= hour < 24,
        0 <= minute < 60,
        0 <= second < 60,
    ensures
        secs / 86400 == days,
        secs % 86400 / 3600 == hour,
        secs % 3600 / 60 == minute,
        secs % 60 == second,
{
    let t = hour * 3600 + minute * 60 + second;
    assert(0 <= t < 86400);
    assert(secs / 86400 == days && secs % 86400 == t);
    assert(t / 3600 == hour);
    assert(secs % 3600 == minute * 60 + second) by {
        assert(secs == (days * 24 + hour) * 3600 + (minute * 60 + second));
    }
    assert(secs % 60 == second) by {
        assert(secs == (days * 1440 + hour * 60 + minute) * 60 + second);
    }
}

/// The levels are those of the log, each its own.
pub proof fn law_log_filters(level: LogLevel)
    ensures
        ({
            let f = crate::logging::filter_for(level);
            &&& level is Off <==> f == log::LevelFilter::Off
            &&& level is Error <==> f == log::LevelFilter::Error
            &&& level is Warning <==> f == log::LevelFilter::Warn
            &&& level is Info <==> f == log::LevelFilter::Info
            &&& level is Debug <==> f == log::LevelFilter::Debug
            &&& level is Trace <==> f == log::LevelFilter::Trace
        }),
{
}

/// A call would block exactly where its error is one of the two that say so.
pub proof fn law_blocking_errors(pending: crate::net::tcp::PendingErrnos, errno: i32)
    ensures
        pending.blocks(pending.again),
        pending.blocks(pending.would_block),
        errno != pending.again && errno != pending.would_block ==> !pending.blocks(errno),
{
}

/// The numbers of the filter's machine and of the kernel's packets and links.
pub proof fn law_kernel_numbers()
    ensures
        crate::capture::filter::LD_W_ABS == 0x20,
        crate::capture::filter::LD_H_ABS == 0x28,
        crate::capture::filter::LD_B_ABS == 0x30,
        crate::capture::filter::JEQ_K == 0x15,
        crate::capture::filter::RET_K == 0x06,
        crate::capture::filter::SKF_AD_PKTTYPE_OFFSET == 0xffff_f004,
        crate::capture::filter::PACKET_OUTGOING == 4,
        crate::capture::bpf::DLT_EN10MB == 1,
        crate::capture::bpf::DLT_NULL == 0,
        crate::capture::bpf::BPF_DEVICES == 256,
        crate::capture::bpf::BPF_ALIGN == 4,
        crate::interface::rtnetlink::RTM_GETLINK == 18,
        crate::interface::rtnetlink::RTM_GETADDR == 22,
        crate::interface::rtnetlink::RTM_NEWLINK == 16,
        crate::interface::rtnetlink::RTM_NEWADDR == 20,
        crate::interface::rtnetlink::IFADDRMSG_SIZE == 8,
        crate::interface::rtnetlink::IFINFOMSG_SIZE == 16,
{
}

} // verus!
