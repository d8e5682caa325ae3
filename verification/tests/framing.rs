//! HTTP message framing and header rewriting.

use reflector::net::addr::{Ipv4Addr, SocketAddrV4};
use reflector::net::http::framing::{
    parse_chunk_size, parse_content_length, AuthorityHeader, FramingError, HttpFraming, Kind, Phase,
    RewritePolicy, MAX_CHUNK_LINE, MAX_HEADER, MAX_TRAILER_LINE,
};

fn endpoint(a: u8, b: u8, c: u8, d: u8, port: u16) -> SocketAddrV4 {
    SocketAddrV4::new(Ipv4Addr::new(a, b, c, d), port)
}

/// A policy that rewrites nothing.
const NONE: RewritePolicy = RewritePolicy {
    host: None,
    application_url: None,
    location: None,
};

/// A rewrite policy that sends every authority header to `repl`.
fn rewrite_all(repl: SocketAddrV4) -> RewritePolicy {
    RewritePolicy {
        host: Some(repl),
        application_url: Some(repl),
        location: Some(repl),
    }
}

/// Drive `f` over `input`: feed, record `(header, body)`, consume, until an
/// incomplete header. Returns the framed messages as owned byte pairs.
fn drain(f: &mut HttpFraming, input: &[u8]) -> Vec<(Vec<u8>, Vec<u8>)> {
    let mut buf = input.to_vec();
    let mut out = Vec::new();
    loop {
        let framed = f.feed(&buf).unwrap();
        if framed.consumed == 0 {
            break;
        }
        let pair = (framed.header.to_vec(), framed.body.to_vec());
        let consumed = framed.consumed;
        out.push(pair);
        buf.drain(..consumed);
    }
    out
}

#[test]
fn copies_a_header_verbatim_when_nothing_rewrites() {
    let mut f = HttpFraming::new(Kind::Request, NONE);
    f.scan_and_rewrite_header(b"GET / HTTP/1.1\r\nHost: 10.0.0.1:80\r\n\r\n")
        .unwrap();
    assert_eq!(f.header(), b"GET / HTTP/1.1\r\nHost: 10.0.0.1:80\r\n\r\n");
    assert_eq!(f.phase(), Phase::Header); // a GET with no body framing is bodyless
}

#[test]
fn rewrites_the_host_authority_on_a_request() {
    let repl: SocketAddrV4 = endpoint(10, 1, 3, 80, 36866);
    let mut f = HttpFraming::new(Kind::Request, rewrite_all(repl));
    f.scan_and_rewrite_header(b"GET /apps/YouTube HTTP/1.1\r\nHost: 10.0.0.1:8080\r\n\r\n")
        .unwrap();
    assert_eq!(
        f.header(),
        b"GET /apps/YouTube HTTP/1.1\r\nHost: 10.1.3.80:36866\r\n\r\n"
    );
}

#[test]
fn reports_the_application_url_endpoint_while_rewriting_it() {
    let repl: SocketAddrV4 = endpoint(10, 1, 1, 5, 44747);
    let mut f = HttpFraming::new(Kind::Response, rewrite_all(repl));
    let framed = f
        .feed(
            b"HTTP/1.1 200 OK\r\nApplication-URL: http://10.0.0.7:8008/apps\r\nContent-Length: 0\r\n\r\n",
        )
        .unwrap();
    // The owner learns the device's REST base (to dial it) even as the header is rewritten to the proxy.
    assert_eq!(
        framed.authority,
        Some(AuthorityHeader::ApplicationUrl(
            endpoint(10, 0, 0, 7, 8008)
        ))
    );
    assert_eq!(
        framed.header,
        &b"HTTP/1.1 200 OK\r\nApplication-URL: http://10.1.1.5:44747/apps\r\nContent-Length: 0\r\n\r\n"[..]
    );
    // A Location reports as its own variant (a launched-instance child URL), which the owner —
    // acting on Application-URL only: ignores.
    let mut g = HttpFraming::new(Kind::Response, rewrite_all(repl));
    let framed = g
        .feed(
            b"HTTP/1.1 201 Created\r\nLocation: http://10.0.0.7:8008/apps/X/run\r\nContent-Length: 0\r\n\r\n",
        )
        .unwrap();
    assert!(matches!(
        framed.authority,
        Some(AuthorityHeader::Location(_))
    ));
}

#[test]
fn rewrites_location_in_a_chunked_201() {
    let repl: SocketAddrV4 = endpoint(10, 1, 1, 5, 44747);
    let mut f = HttpFraming::new(Kind::Response, rewrite_all(repl));
    f.scan_and_rewrite_header(
        b"HTTP/1.1 201 Created\r\nLocation: http://10.1.3.80:36866/apps/YouTube/run\r\n\
          Transfer-Encoding: chunked\r\n\r\n",
    )
    .unwrap();
    assert_eq!(
        f.header(),
        b"HTTP/1.1 201 Created\r\nLocation: http://10.1.1.5:44747/apps/YouTube/run\r\n\
          Transfer-Encoding: chunked\r\n\r\n"
    );
    assert_eq!(f.phase(), Phase::BodyChunked); // 201 is NOT special-cased: chunked frames it
}

#[test]
fn content_length_sets_the_body_phase() {
    let mut f = HttpFraming::new(Kind::Response, NONE);
    f.scan_and_rewrite_header(b"HTTP/1.1 200 OK\r\nContent-Length: 1069\r\n\r\n")
        .unwrap();
    assert_eq!(f.phase(), Phase::BodyContentLength);
    assert_eq!(f.body_remaining(), 1069);
}

#[test]
fn a_bodyless_status_has_no_body_despite_a_content_length() {
    // 204 is bodyless regardless of headers (RFC 7230 section 3.3.3 rule 1).
    let mut f = HttpFraming::new(Kind::Response, NONE);
    f.scan_and_rewrite_header(b"HTTP/1.1 204 No Content\r\nContent-Length: 5\r\n\r\n")
        .unwrap();
    assert_eq!(f.phase(), Phase::Header);
}

#[test]
fn a_response_without_framing_is_close_delimited() {
    let mut f = HttpFraming::new(Kind::Response, NONE);
    f.scan_and_rewrite_header(b"HTTP/1.1 200 OK\r\nServer: x\r\n\r\n")
        .unwrap();
    assert_eq!(f.phase(), Phase::BodyCloseDelimited);
}

#[test]
fn a_request_without_framing_is_bodyless() {
    let mut f = HttpFraming::new(Kind::Request, NONE);
    f.scan_and_rewrite_header(b"GET / HTTP/1.1\r\n\r\n")
        .unwrap();
    assert_eq!(f.phase(), Phase::Header);
}

#[test]
fn malformed_content_length_is_an_error() {
    let mut f = HttpFraming::new(Kind::Response, NONE);
    assert_eq!(
        f.scan_and_rewrite_header(b"HTTP/1.1 200 OK\r\nContent-Length: 12abc\r\n\r\n"),
        Err(FramingError::MalformedContentLength)
    );
}

#[test]
fn chunked_in_a_coding_list_is_detected() {
    let mut f = HttpFraming::new(Kind::Response, NONE);
    f.scan_and_rewrite_header(b"HTTP/1.1 200 OK\r\nTransfer-Encoding: gzip, chunked\r\n\r\n")
        .unwrap();
    assert_eq!(f.phase(), Phase::BodyChunked);
}

#[test]
fn frames_a_content_length_message() {
    let mut f = HttpFraming::new(Kind::Response, NONE);
    let msgs = drain(&mut f, b"HTTP/1.1 200 OK\r\nContent-Length: 5\r\n\r\nhello");
    assert_eq!(msgs.len(), 1);
    assert_eq!(msgs[0].0, b"HTTP/1.1 200 OK\r\nContent-Length: 5\r\n\r\n");
    assert_eq!(msgs[0].1, b"hello");
}

#[test]
fn frames_a_chunked_message_forwarding_the_body_opaquely() {
    let mut f = HttpFraming::new(Kind::Response, NONE);
    let msgs = drain(
        &mut f,
        b"HTTP/1.1 200 OK\r\nTransfer-Encoding: chunked\r\n\r\n5\r\nhello\r\n3\r\nbar\r\n0\r\n\r\n",
    );
    assert_eq!(msgs.len(), 1);
    assert_eq!(
        msgs[0].0,
        b"HTTP/1.1 200 OK\r\nTransfer-Encoding: chunked\r\n\r\n"
    );
    // The chunk framing rides out in the body untouched.
    assert_eq!(msgs[0].1, b"5\r\nhello\r\n3\r\nbar\r\n0\r\n\r\n");
}

#[test]
fn frames_multiple_keep_alive_messages() {
    let mut f = HttpFraming::new(Kind::Response, NONE);
    // A Content-Length response immediately followed by a chunked one on the same connection.
    let msgs = drain(
        &mut f,
        b"HTTP/1.1 200 OK\r\nContent-Length: 2\r\n\r\nhi\
          HTTP/1.1 200 OK\r\nTransfer-Encoding: chunked\r\n\r\n3\r\nbye\r\n0\r\n\r\n",
    );
    assert_eq!(msgs.len(), 2);
    assert_eq!(msgs[0].1, b"hi");
    assert_eq!(msgs[1].1, b"3\r\nbye\r\n0\r\n\r\n");
}

#[test]
fn forwards_chunked_trailers_opaquely() {
    let mut f = HttpFraming::new(Kind::Response, NONE);
    let msgs = drain(
        &mut f,
        b"HTTP/1.1 200 OK\r\nTransfer-Encoding: chunked\r\n\r\n0\r\nX-Trailer: v\r\n\r\n",
    );
    assert_eq!(msgs.len(), 1);
    // The trailer field and the closing blank line ride out in the body.
    assert_eq!(msgs[0].1, b"0\r\nX-Trailer: v\r\n\r\n");
}

#[test]
fn chunk_size_line_over_cap_is_refused() {
    let mut f = HttpFraming::new(Kind::Response, NONE);
    let mut input = b"HTTP/1.1 200 OK\r\nTransfer-Encoding: chunked\r\n\r\n".to_vec();
    input.resize(input.len() + MAX_CHUNK_LINE + 1, b'f'); // a chunk-size line that never terminates
    assert!(matches!(
        f.feed(&input),
        Err(FramingError::ChunkLineTooLong)
    ));
}

#[test]
fn trailer_line_over_cap_is_refused() {
    let mut f = HttpFraming::new(Kind::Response, NONE);
    let mut input = b"HTTP/1.1 200 OK\r\nTransfer-Encoding: chunked\r\n\r\n0\r\n".to_vec();
    input.resize(input.len() + MAX_TRAILER_LINE + 1, b'a'); // a trailer line that never terminates
    assert!(matches!(
        f.feed(&input),
        Err(FramingError::TrailerLineTooLong)
    ));
}

#[test]
fn a_trailer_line_past_the_chunk_cap_is_tolerated() {
    // A trailer line longer than MAX_CHUNK_LINE but within MAX_TRAILER_LINE isn't refused: it's
    // just incomplete, awaiting its CRLF. A chunk-size line of the same length would be rejected.
    let mut f = HttpFraming::new(Kind::Response, NONE);
    let mut input = b"HTTP/1.1 200 OK\r\nTransfer-Encoding: chunked\r\n\r\n0\r\n".to_vec();
    input.resize(input.len() + MAX_CHUNK_LINE + 1, b'a');
    assert!(f.feed(&input).is_ok());
}

#[test]
fn close_delimited_streams_the_body_across_feeds() {
    let mut f = HttpFraming::new(Kind::Response, NONE);
    let input = b"HTTP/1.1 200 OK\r\nServer: x\r\n\r\nabc";
    let first = f.feed(input).unwrap();
    assert_eq!(first.header, b"HTTP/1.1 200 OK\r\nServer: x\r\n\r\n");
    assert_eq!(first.body, b"abc");
    assert_eq!(first.consumed, input.len()); // header + all arrived body
    // The phase stays close-delimited, so a later feed forwards more with no header.
    let second = f.feed(b"def").unwrap();
    assert_eq!(second.header, b"");
    assert_eq!(second.body, b"def");
}

#[test]
fn streams_a_content_length_body_across_feeds() {
    let mut f = HttpFraming::new(Kind::Response, NONE);
    // First feed: header + 3 of the 5 declared body bytes.
    let first = f
        .feed(b"HTTP/1.1 200 OK\r\nContent-Length: 5\r\n\r\nabc")
        .unwrap();
    assert_eq!(
        first.header,
        b"HTTP/1.1 200 OK\r\nContent-Length: 5\r\n\r\n"
    );
    assert_eq!(first.body, b"abc");
    // Second feed (after the owner consumed the first): the remaining 2 bytes, no header.
    let second = f.feed(b"de").unwrap();
    assert_eq!(second.header, b"");
    assert_eq!(second.body, b"de");
    assert_eq!(second.consumed, 2);
}

#[test]
fn an_incomplete_header_consumes_nothing() {
    let mut f = HttpFraming::new(Kind::Request, NONE);
    let framed = f.feed(b"GET / HTTP/1.1\r\nHost: x").unwrap(); // no blank line yet
    assert_eq!(framed.consumed, 0);
    assert_eq!(framed.header, b"");
    assert_eq!(framed.body, b"");
}

#[test]
fn an_unterminated_oversize_header_errors() {
    let mut f = HttpFraming::new(Kind::Request, NONE);
    let huge = vec![b'x'; MAX_HEADER + 1]; // no blank line, over the cap
    assert!(matches!(f.feed(&huge), Err(FramingError::HeaderTooLong)));
}

#[test]
fn a_malformed_chunk_size_errors() {
    let mut f = HttpFraming::new(Kind::Response, NONE);
    assert!(matches!(
        f.feed(b"HTTP/1.1 200 OK\r\nTransfer-Encoding: chunked\r\n\r\nZZ\r\n"),
        Err(FramingError::MalformedChunkSize)
    ));
}

#[test]
fn a_message_fed_in_pieces_yields_the_same_bytes() {
    let message = b"HTTP/1.1 200 OK\r\nLocation: http://10.0.0.1:80/x\r\n\
        Transfer-Encoding: chunked\r\n\r\n5\r\nhello\r\n3;ext\r\nbar\r\n0\r\nX-T: v\r\n\r\n";
    let policy = RewritePolicy {
        host: None,
        application_url: None,
        location: Some(SocketAddrV4::new(Ipv4Addr::new(10, 0, 0, 2), 8080)),
    };
    let mut whole = HttpFraming::new(Kind::Response, policy);
    let framed = whole.feed(message).unwrap();
    let expected = [framed.header, framed.body].concat();
    for cut in 0..message.len() {
        let mut framer = HttpFraming::new(Kind::Response, policy);
        let mut out = Vec::new();
        let first = framer.feed(&message[..cut]).unwrap();
        out.extend_from_slice(first.header);
        out.extend_from_slice(first.body);
        let consumed = first.consumed;
        let second = framer.feed(&message[consumed..]).unwrap();
        out.extend_from_slice(second.header);
        out.extend_from_slice(second.body);
        assert_eq!(out, expected, "cut at {cut}");
    }
}

#[test]
fn a_chunk_too_long_to_count_is_malformed() {
    let largest = format!("{:x}", usize::MAX);
    assert_eq!(parse_chunk_size(largest.as_bytes()), Ok(usize::MAX));
    assert_eq!(
        parse_chunk_size(format!("1{largest}").as_bytes()),
        Err(FramingError::MalformedChunkSize)
    );
    let mut framer = HttpFraming::new(Kind::Response, NONE);
    let input = format!("HTTP/1.1 200 OK\r\nTransfer-Encoding: chunked\r\n\r\n{largest}\r\n");
    assert!(matches!(
        framer.feed(input.as_bytes()),
        Err(FramingError::MalformedChunkSize)
    ));
}

#[test]
fn a_header_over_the_cap_is_refused_though_it_ends() {
    let mut input = b"GET / HTTP/1.1\r\nX: ".to_vec();
    input.resize(input.len() + 2048, b'a');
    input.extend_from_slice(b"\r\n\r\n");
    let mut f = HttpFraming::new(Kind::Request, NONE);
    assert!(matches!(f.feed(&input), Err(FramingError::HeaderTooLong)));
    // One that ends at the cap is taken, and one a byte longer is not.
    for (size, taken) in [(MAX_HEADER, true), (MAX_HEADER + 1, false)] {
        let mut input = b"GET / HTTP/1.1\r\nX: ".to_vec();
        input.resize(size - 4, b'a');
        input.extend_from_slice(b"\r\n\r\nmore");
        let mut f = HttpFraming::new(Kind::Request, NONE);
        match f.feed(&input) {
            Ok(framed) => assert!(taken && framed.consumed == size),
            Err(e) => assert!(!taken && e == FramingError::HeaderTooLong),
        }
    }
}

#[test]
fn lines_over_their_caps_are_refused_though_they_end() {
    let head = b"HTTP/1.1 200 OK\r\nTransfer-Encoding: chunked\r\n\r\n";
    for (size, taken) in [(MAX_CHUNK_LINE, true), (MAX_CHUNK_LINE + 1, false)] {
        let mut input = head.to_vec();
        input.extend_from_slice(b"1;");
        input.resize(head.len() + size - 2, b'x');
        input.extend_from_slice(b"\r\na\r\n0\r\n\r\n");
        let mut f = HttpFraming::new(Kind::Response, NONE);
        match f.feed(&input) {
            Ok(framed) => assert!(taken && framed.consumed == input.len()),
            Err(e) => assert!(!taken && e == FramingError::ChunkLineTooLong),
        }
    }
    for (size, taken) in [(MAX_TRAILER_LINE, true), (MAX_TRAILER_LINE + 1, false)] {
        let mut input = head.to_vec();
        input.extend_from_slice(b"0\r\n");
        input.resize(head.len() + 3 + size - 2, b'x');
        input.extend_from_slice(b"\r\n\r\n");
        let mut f = HttpFraming::new(Kind::Response, NONE);
        match f.feed(&input) {
            Ok(framed) => assert!(taken && framed.consumed == input.len()),
            Err(e) => assert!(!taken && e == FramingError::TrailerLineTooLong),
        }
    }
}

#[test]
fn a_content_length_is_digits_alone() {
    assert_eq!(parse_content_length(b" 5\t"), Ok(5));
    assert_eq!(parse_content_length(b"0"), Ok(0));
    for bad in [&b"+5"[..], b"-1", b"", b"  ", b"12abc", b"0x5", b"99999999999999999999999"] {
        assert_eq!(
            parse_content_length(bad),
            Err(FramingError::MalformedContentLength)
        );
    }
    let mut f = HttpFraming::new(Kind::Request, NONE);
    assert!(matches!(
        f.feed(b"POST / HTTP/1.1\r\nContent-Length: +5\r\n\r\nhello"),
        Err(FramingError::MalformedContentLength)
    ));
}

/// Feeds `pieces` as they arrive, keeping what is not consumed, and gathers what goes out.
fn driven_over(kind: Kind, policy: RewritePolicy, pieces: &[&[u8]]) -> (Vec<u8>, Vec<u8>) {
    let mut f = HttpFraming::new(kind, policy);
    let mut buffered: Vec<u8> = Vec::new();
    let mut sent: Vec<u8> = Vec::new();
    for piece in pieces {
        buffered.extend_from_slice(piece);
        loop {
            let framed = f.feed(&buffered).unwrap();
            sent.extend_from_slice(framed.header);
            sent.extend_from_slice(framed.body);
            let consumed = framed.consumed;
            if consumed == 0 {
                break;
            }
            buffered.drain(..consumed);
        }
    }
    (sent, buffered)
}

#[test]
fn where_a_stream_is_cut_does_not_matter() {
    let target = SocketAddrV4::new(Ipv4Addr::new(192, 168, 1, 2), 8009);
    let policy = RewritePolicy {
        host: None,
        application_url: None,
        location: Some(target),
    };
    let stream = b"HTTP/1.1 200 OK\r\nLocation: http://10.0.0.1:80/x\r\n\
        Transfer-Encoding: chunked\r\n\r\n3;e\r\nabc\r\n0\r\nT: v\r\n\r\n\
        HTTP/1.1 204 No Content\r\n\r\nHTTP/1.1 200 OK\r\nContent-Length: 2\r\n\r\nhiHTTP/1";
    let whole = driven_over(Kind::Response, policy, &[stream]);
    assert_eq!(whole.1, b"HTTP/1");
    for cut in 0..=stream.len() {
        let (a, b) = stream.split_at(cut);
        assert_eq!(driven_over(Kind::Response, policy, &[a, b]), whole);
    }
    let bytes: Vec<&[u8]> = stream.chunks(1).collect();
    assert_eq!(driven_over(Kind::Response, policy, &bytes), whole);
}

#[test]
fn a_rewrite_touches_the_authority_alone() {
    let target = SocketAddrV4::new(Ipv4Addr::new(192, 168, 1, 2), 8009);
    let policy = RewritePolicy {
        host: Some(target),
        application_url: None,
        location: None,
    };
    let input = b"POST /a HTTP/1.1\r\nhost:  10.0.0.1:80 \r\nLocation: http://10.0.0.1:1/\r\n\
        Content-Length: 2\r\n\r\nhi";
    let mut f = HttpFraming::new(Kind::Request, policy);
    let mut g = HttpFraming::new(Kind::Request, NONE);
    let rewritten = f.feed(input).unwrap();
    let plain = g.feed(input).unwrap();
    assert_eq!(rewritten.body, plain.body);
    assert_eq!(rewritten.consumed, plain.consumed);
    assert_eq!(rewritten.authority, plain.authority);
    assert_eq!(plain.header, &input[..input.len() - 2]);
    assert_eq!(
        rewritten.header,
        b"POST /a HTTP/1.1\r\nhost:  192.168.1.2:8009 \r\nLocation: http://10.0.0.1:1/\r\n\
          Content-Length: 2\r\n\r\n"
    );
}

#[test]
fn the_header_decides_what_follows_as_the_body() {
    // (kind, status, count, chunked), the bytes behind the header, and how many are the body.
    let cases: [(Kind, u16, Option<usize>, bool, &[u8], usize); 8] = [
        (Kind::Response, 100, Some(3), true, b"abc", 0),
        (Kind::Response, 204, Some(3), false, b"abc", 0),
        (Kind::Response, 304, None, true, b"abc", 0),
        (Kind::Response, 200, Some(9), true, b"1\r\na\r\n0\r\n\r\nrest", 11),
        (Kind::Request, 0, Some(2), false, b"abc", 2),
        (Kind::Request, 0, Some(9), false, b"abc", 3),
        (Kind::Request, 0, None, false, b"abc", 0),
        (Kind::Response, 200, None, false, b"abc", 3),
    ];
    for (kind, status, count, chunked, stream, body) in cases {
        let mut f = HttpFraming::new(kind, NONE);
        f.set_body_phase(status, count, chunked);
        let framed = f.feed(stream).unwrap();
        assert_eq!(framed.body, &stream[..body]);
        assert_eq!(framed.consumed, body);
    }
}
