//! HTTP/1.1 response heads and chunked bodies: framing ambiguity is refused,
//! every declared length is bounded, and the two chunked decoders agree.

use pelorus::net::http1::{
    decode_chunked, parse_response_head, Ambiguity, ChunkedDecoder, Framing, Http1Error,
    ResponseHead, MAX_HEADERS,
};


fn head(raw: &str) -> Result<ResponseHead, Http1Error> {
    parse_response_head(raw.as_bytes()).map(|(head, _)| head)
}

#[test]
fn an_ordinary_response_parses() {
    let parsed = head("HTTP/1.1 200 OK\r\nContent-Length: 5\r\nX-A: b\r\n\r\n")
        .expect("a well-formed response");
    assert_eq!(parsed.status, 200);
    assert_eq!(parsed.framing, Framing::Length(5));
    assert_eq!(parsed.header("x-a"), Some("b"));
}

/// Field names are case-insensitive, and a lookup that misses because a
/// server capitalised differently is a bug that shows up only on some
/// servers — the worst kind to find later.
#[test]
fn field_names_are_matched_case_insensitively() {
    let parsed = head("HTTP/1.1 200 OK\r\nCONTENT-length: 0\r\n\r\n").expect("valid");
    assert_eq!(parsed.framing, Framing::Length(0));
    assert_eq!(parsed.header("content-length"), Some("0"));
}

// ---- framing ambiguity is refused, not resolved -----------------------

#[test]
fn content_length_with_transfer_encoding_is_refused() {
    let error =
        head("HTTP/1.1 200 OK\r\nContent-Length: 5\r\nTransfer-Encoding: chunked\r\n\r\n")
            .expect_err("both framings present");
    assert_eq!(
        error,
        Http1Error::AmbiguousFraming(Ambiguity::LengthAndTransferEncoding),
        "RFC 9112 permits preferring Transfer-Encoding; an upstream that \
         prefers differently is the other half of a desync"
    );
}

#[test]
fn repeated_content_length_is_refused_even_when_the_values_agree() {
    let error = head("HTTP/1.1 200 OK\r\nContent-Length: 5\r\nContent-Length: 5\r\n\r\n")
        .expect_err("two content-lengths");
    assert_eq!(
        error,
        Http1Error::AmbiguousFraming(Ambiguity::RepeatedContentLength),
        "nothing legitimate emits two, so agreement is not evidence of honesty"
    );
}

/// `str::parse` accepts a leading `+`. An upstream using a stricter parser
/// reads a different length, which is the whole bug.
///
/// Note what is *not* here: `" 5"` and `"5 "`. Surrounding whitespace is
/// optional whitespace the field grammar allows and RFC 9110 §5.5 requires
/// to be excluded from the value, so every conformant parser sees `5` and
/// there is nothing to disagree about. An earlier version of this test
/// demanded they be refused, which would have broken ordinary servers to
/// defend against a disagreement that cannot occur. Internal whitespace is
/// a different matter and is covered below.
#[test]
fn a_decorated_content_length_is_refused() {
    for value in ["+5", "0x5", "five", "", "5 5", "5	5", "٥"] {
        let raw = format!("HTTP/1.1 200 OK\r\nContent-Length: {value}\r\n\r\n");
        let result = head(&raw);
        assert!(
            result.is_err(),
            "content-length {value:?} must be refused, got {result:?}"
        );
    }
}

#[test]
fn transfer_encoding_not_ending_in_chunked_is_refused() {
    let error = head("HTTP/1.1 200 OK\r\nTransfer-Encoding: chunked, gzip\r\n\r\n")
        .expect_err("chunked is not final");
    assert_eq!(
        error,
        Http1Error::AmbiguousFraming(Ambiguity::TransferEncodingNotChunked)
    );
}

#[test]
fn transfer_encoding_ending_in_chunked_is_accepted() {
    let parsed =
        head("HTTP/1.1 200 OK\r\nTransfer-Encoding: gzip, chunked\r\n\r\n").expect("valid");
    assert_eq!(parsed.framing, Framing::Chunked);
}

/// A body on these statuses is a desync primitive: an upstream that
/// honours the length and a client that does not are no longer agreed on
/// where the next response starts.
#[test]
fn statuses_that_forbid_a_body_ignore_any_declared_length() {
    for status in [204u16, 304, 100, 199] {
        let raw = format!("HTTP/1.1 {status} X\r\nContent-Length: 99\r\n\r\n");
        let parsed = head(&raw).expect("valid head");
        assert_eq!(
            parsed.framing,
            Framing::Empty,
            "status {status} must carry no body"
        );
    }
}

#[test]
fn no_length_and_no_encoding_runs_until_close() {
    let parsed = head("HTTP/1.1 200 OK\r\nX: y\r\n\r\n").expect("valid");
    assert_eq!(parsed.framing, Framing::UntilClose);
}

// ---- header and status line hygiene -----------------------------------

/// Obsolete line folding lets a field continue onto the next line, which
/// is a way to disagree with an upstream about where a field ends.
#[test]
fn folded_headers_are_refused() {
    let error =
        head("HTTP/1.1 200 OK\r\nX-A: b\r\n  continued\r\n\r\n").expect_err("folded header");
    assert_eq!(error, Http1Error::BadHeader);
}

/// A control character in a value is the response-splitting primitive.
#[test]
fn control_characters_in_a_header_value_are_refused() {
    for raw in [
        "HTTP/1.1 200 OK\r\nX-A: b\u{0}c\r\n\r\n",
        "HTTP/1.1 200 OK\r\nX-A: b\rc\r\n\r\n",
        "HTTP/1.1 200 OK\r\nX-A: b\u{7f}c\r\n\r\n",
    ] {
        assert_eq!(
            head(raw),
            Err(Http1Error::BadHeader),
            "a control character in a value must be refused"
        );
    }
}

#[test]
fn a_header_name_outside_the_token_set_is_refused() {
    for raw in [
        "HTTP/1.1 200 OK\r\nX A: b\r\n\r\n",
        "HTTP/1.1 200 OK\r\n: b\r\n\r\n",
        "HTTP/1.1 200 OK\r\nX(A): b\r\n\r\n",
    ] {
        assert_eq!(head(raw), Err(Http1Error::BadHeader));
    }
}

#[test]
fn a_malformed_status_line_is_refused() {
    for raw in [
        "HTTP/2 200 OK\r\n\r\n",
        "HTTP/1.1 20 OK\r\n\r\n",
        "HTTP/1.1 2000 OK\r\n\r\n",
        "HTTP/1.1 +04 OK\r\n\r\n",
        "HTTP/1.1\r\n\r\n",
        "garbage\r\n\r\n",
    ] {
        assert_eq!(
            head(raw),
            Err(Http1Error::BadStatusLine),
            "status line {raw:?} must be refused"
        );
    }
}

/// Incomplete must be distinguishable from invalid, or a caller retries
/// forever on a malformed response.
#[test]
fn an_incomplete_head_is_truncated_rather_than_malformed() {
    assert_eq!(head("HTTP/1.1 200 OK\r\nX: y"), Err(Http1Error::Truncated));
    assert_eq!(head(""), Err(Http1Error::Truncated));
}

#[test]
fn an_oversized_header_block_is_refused_rather_than_accumulated() {
    let mut raw = String::from("HTTP/1.1 200 OK\r\n");
    for index in 0..(MAX_HEADERS + 10) {
        raw.push_str(&format!("X-{index}: v\r\n"));
    }
    raw.push_str("\r\n");
    assert_eq!(
        head(&raw),
        Err(Http1Error::TooLarge {
            what: "header count"
        })
    );
}

// ---- chunked decoding -------------------------------------------------

#[test]
fn a_chunked_body_decodes() {
    let (body, consumed) =
        decode_chunked(b"5\r\nhello\r\n6\r\n world\r\n0\r\n\r\n").expect("valid chunked");
    assert_eq!(body, b"hello world");
    assert_eq!(
        consumed, 26,
        "every byte including the terminating chunk must be consumed, or the              next response is parsed starting from the wrong offset"
    );
}

#[test]
fn a_chunk_size_that_is_not_hex_is_refused() {
    for raw in ["z\r\nx\r\n0\r\n\r\n", "-1\r\n0\r\n\r\n", "\r\n0\r\n\r\n"] {
        let result = decode_chunked(raw.as_bytes());
        assert!(result.is_err(), "chunk size in {raw:?} must be refused");
    }
}

#[test]
fn a_chunk_size_larger_than_its_data_is_truncated_not_over_read() {
    assert_eq!(
        decode_chunked(b"10\r\nshort\r\n0\r\n\r\n"),
        Err(Http1Error::Truncated),
        "a declared size beyond the buffer must not read past it"
    );
}

/// Eight bytes on the wire must not buy an allocation.
#[test]
fn an_enormous_declared_chunk_is_refused_before_allocating() {
    let error = decode_chunked(b"ffffffff\r\n").expect_err("declared 4 GiB");
    assert!(
        matches!(error, Http1Error::TooLarge { .. } | Http1Error::Truncated),
        "got {error:?}"
    );
}

#[test]
fn chunk_extensions_are_ignored_but_the_size_is_not() {
    let (body, _) =
        decode_chunked(b"5;name=value\r\nhello\r\n0\r\n\r\n").expect("extension is ignored");
    assert_eq!(body, b"hello");
}

#[test]
fn trailers_are_consumed_and_discarded() {
    let (body, consumed) =
        decode_chunked(b"5\r\nhello\r\n0\r\nX-Trailer: v\r\n\r\n").expect("valid");
    assert_eq!(body, b"hello");
    assert!(
        consumed > 12,
        "the trailer must be consumed, not left for the next parse"
    );
}


/// Feeding a growing buffer must never re-scan what it already consumed.
///
/// This is the contract that makes the read loop linear rather than
/// quadratic. It is asserted structurally rather than by timing, because a
/// timing assertion in CI is a flake waiting to happen — but the property
/// it stands in for is a denial of service, not a slow path.
#[test]
fn the_decoder_consumes_forward_only() {
    let message = b"5\r\nhello\r\n6\r\n world\r\n0\r\n\r\n";
    let mut decoder = ChunkedDecoder::new();
    let mut last = 0usize;

    // Feed one byte at a time, as a slow server would.
    for end in 1..=message.len() {
        let prefix = message.get(..end).unwrap_or_default();
        let complete = decoder.push(prefix).expect("valid chunked");
        assert!(
            decoder.consumed() >= last,
            "consumed went backwards: {} then {}",
            last,
            decoder.consumed()
        );
        last = decoder.consumed();
        if complete {
            assert_eq!(end, message.len(), "completed early");
        }
    }
    assert!(decoder.is_complete());
    assert_eq!(decoder.into_body(), b"hello world");
}

/// The incremental decoder and the one-shot one must agree. If they ever
/// disagree, one of them is wrong about framing and the fuzz target is
/// attacking the wrong one.
#[test]
fn the_two_decoders_agree() {
    for message in [
        &b"5\r\nhello\r\n0\r\n\r\n"[..],
        &b"5;ext=1\r\nhello\r\n0\r\n\r\n"[..],
        &b"5\r\nhello\r\n0\r\nX-T: v\r\n\r\n"[..],
        &b"1\r\na\r\n1\r\nb\r\n1\r\nc\r\n0\r\n\r\n"[..],
    ] {
        let mut decoder = ChunkedDecoder::new();
        let complete = decoder.push(message).expect("incremental decode");
        let (one_shot, _) = decode_chunked(message).expect("one-shot decode");
        assert!(complete, "incremental must complete on {message:?}");
        assert_eq!(
            decoder.into_body(),
            one_shot,
            "decoders disagree on {message:?}"
        );
    }
}

/// A malformed size must be an error at any feed boundary, not a stall.
#[test]
fn a_malformed_chunk_size_is_an_error_not_a_stall() {
    let mut decoder = ChunkedDecoder::new();
    assert!(decoder.push(b"zz\r\n").is_err());
}

/// A declared chunk larger than the limit is refused before the bytes are
/// accumulated, not after.
#[test]
fn an_enormous_declared_chunk_is_refused_before_accumulating() {
    let mut decoder = ChunkedDecoder::new();
    let error = decoder.push(b"ffffffff\r\n").expect_err("declared 4 GiB");
    assert!(
        matches!(error, Http1Error::TooLarge { .. }),
        "got {error:?}"
    );
}

#[test]
fn bytes_after_the_head_never_change_it() {
    let head_bytes = b"HTTP/1.1 200 OK\r\nContent-Length: 5\r\n\r\n";
    let alone = parse_response_head(head_bytes).expect("a whole head");
    assert_eq!(alone.1, head_bytes.len());
    for tail in [&b"hello"[..], &b"HTTP/1.1 404 Not Found\r\n\r\n"[..], &b"\r\n\r\n"[..]] {
        let mut more = head_bytes.to_vec();
        more.extend_from_slice(tail);
        assert_eq!(parse_response_head(&more).expect("still a whole head"), alone);
    }
}

#[test]
fn the_decoder_never_consumes_past_its_input() {
    let message = b"5\r\nhello\r\n6\r\n world\r\n0\r\n\r\n";
    let mut decoder = ChunkedDecoder::new();
    for end in 1..=message.len() {
        let prefix = message.get(..end).unwrap_or_default();
        let before = decoder.consumed();
        decoder.push(prefix).expect("valid chunked");
        assert!(decoder.consumed() <= before.max(prefix.len()));
    }
    assert_eq!(decoder.consumed(), message.len());
}
