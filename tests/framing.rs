use lsp_client::framing::{encode_frame, parse_header, read_message, LspHeader, ParseError, Progress};

fn frame_of(text: &str) -> Vec<u8> {
    text.as_bytes().to_vec()
}

#[test]
fn header_content_length() {
    assert_eq!(parse_header(b"Content-Length: 42\r\n"), Ok(LspHeader::ContentLength(42)));
}

#[test]
fn header_is_case_insensitive() {
    assert_eq!(parse_header(b"content-length: 7\r\n"), Ok(LspHeader::ContentLength(7)));
    assert_eq!(parse_header(b"CONTENT-LENGTH: 7\r\n"), Ok(LspHeader::ContentLength(7)));
    assert_eq!(parse_header(b"Content-Length: 7"), Ok(LspHeader::ContentLength(7)));
}

#[test]
fn header_content_type() {
    assert_eq!(
        parse_header(b"Content-Type: application/vscode-jsonrpc; charset=utf-8\r\n"),
        Ok(LspHeader::ContentType)
    );
}

#[test]
fn header_without_separator_is_malformed() {
    assert_eq!(parse_header(b"Content-Length 5\r\n"), Err(ParseError::MalformedHeader));
}

#[test]
fn header_splits_at_first_separator() {
    assert_eq!(parse_header(b"Content-Type: text/x: y\r\n"), Ok(LspHeader::ContentType));
    assert_eq!(parse_header(b"Content-Length: 5: 6\r\n"), Err(ParseError::ParseInt));
}

#[test]
fn header_unknown_name() {
    assert_eq!(parse_header(b"X-Other: 5\r\n"), Ok(LspHeader::Other));
}

#[test]
fn unknown_header_is_skipped() {
    let buf = frame_of("X-Custom: 1\r\nContent-Length: 2\r\n\r\nhi");
    assert_eq!(read_message(&buf, false), Progress::Frame { body: "hi".to_string(), consumed: buf.len() });
}

#[test]
fn header_bad_numbers() {
    assert_eq!(parse_header(b"Content-Length: abc\r\n"), Err(ParseError::ParseInt));
    assert_eq!(parse_header(b"Content-Length: \r\n"), Err(ParseError::ParseInt));
    assert_eq!(parse_header(b"Content-Length: -1\r\n"), Err(ParseError::ParseInt));
    assert_eq!(
        parse_header(b"Content-Length: 99999999999999999999999\r\n"),
        Err(ParseError::ParseInt)
    );
    assert_eq!(parse_header(b"Content-Length: +12\r\n"), Ok(LspHeader::ContentLength(12)));
}

#[test]
fn reads_one_frame() {
    let buf = frame_of("Content-Length: 5\r\n\r\nhelloContent-Length: 1\r\n\r\nx");
    assert_eq!(
        read_message(&buf, false),
        Progress::Frame { body: "hello".to_string(), consumed: 26 }
    );
    assert_eq!(
        read_message(&buf[26..], true),
        Progress::Frame { body: "x".to_string(), consumed: 22 }
    );
}

#[test]
fn content_type_and_lowercase_length() {
    let buf = frame_of("content-length: 2\r\nContent-Type: utf-8\r\n\r\n{}");
    assert_eq!(read_message(&buf, true), Progress::Frame { body: "{}".to_string(), consumed: buf.len() });
}

#[test]
fn chunking_does_not_change_the_frame() {
    let buf = frame_of("Content-Length: 11\r\n\r\nhello world");
    for cut in 0..buf.len() {
        assert_eq!(read_message(&buf[..cut], false), Progress::Pending);
    }
    let mut longer = buf.clone();
    longer.extend_from_slice(b"Content-Length: 3\r\n");
    let whole = Progress::Frame { body: "hello world".to_string(), consumed: buf.len() };
    assert_eq!(read_message(&buf, false), whole);
    assert_eq!(read_message(&longer, false), whole);
}

#[test]
fn missing_length() {
    let buf = frame_of("Content-Type: utf-8\r\n\r\n{}");
    assert_eq!(
        read_message(&buf, false),
        Progress::Failed { error: ParseError::MissingLength, consumed: 23 }
    );
}

#[test]
fn short_body_then_fresh_stream() {
    let buf = frame_of("Content-Length: 5\r\n\r\nabc");
    assert_eq!(read_message(&buf, false), Progress::Pending);
    assert_eq!(
        read_message(&buf, true),
        Progress::Failed { error: ParseError::Truncated, consumed: buf.len() }
    );
    let fresh = frame_of("Content-Length: 5\r\n\r\nabcde");
    assert_eq!(
        read_message(&fresh, true),
        Progress::Frame { body: "abcde".to_string(), consumed: fresh.len() }
    );
}

#[test]
fn bad_header_is_skipped_past() {
    let buf = frame_of("Bogus\r\nContent-Length: 1\r\n\r\nz");
    assert_eq!(
        read_message(&buf, false),
        Progress::Failed { error: ParseError::MalformedHeader, consumed: 7 }
    );
    assert_eq!(
        read_message(&buf[7..], false),
        Progress::Frame { body: "z".to_string(), consumed: buf.len() - 7 }
    );
}

#[test]
fn invalid_utf8_body() {
    let mut buf = frame_of("Content-Length: 2\r\n\r\n");
    buf.extend_from_slice(&[0xff, 0xfe]);
    assert_eq!(
        read_message(&buf, false),
        Progress::Failed { error: ParseError::Utf8, consumed: buf.len() }
    );
}

#[test]
fn empty_buffer() {
    assert_eq!(read_message(b"", false), Progress::Pending);
    assert_eq!(read_message(b"", true), Progress::Failed { error: ParseError::Truncated, consumed: 0 });
}

#[test]
fn encodes_frame() {
    assert_eq!(encode_frame(b"{\"a\":1}"), b"Content-Length: 7\r\n\r\n{\"a\":1}".to_vec());
    assert_eq!(encode_frame(b""), b"Content-Length: 0\r\n\r\n".to_vec());
    let body = vec![b'x'; 1234];
    let framed = encode_frame(&body);
    assert!(framed.starts_with(b"Content-Length: 1234\r\n\r\n"));
}

#[test]
fn encode_then_read() {
    let body = "{\"jsonrpc\":\"2.0\",\"method\":\"x\"}";
    let framed = encode_frame(body.as_bytes());
    assert_eq!(
        read_message(&framed, false),
        Progress::Frame { body: body.to_string(), consumed: framed.len() }
    );
}
