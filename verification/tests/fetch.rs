//! A fetch: the request it builds, and the decisions taken as its response
//! arrives.

use pelorus::net::fetch::{admit_read, body_step, build_request, head_step, BodyProgress, FetchError, Fetcher, HeadProgress, Response};
use pelorus::net::http1::{Framing, Http1Error, MAX_BODY_BYTES};

#[test]
fn net_fetches_refuses_a_request_target_that_would_split_the_request() {
    for path in ["/a b", "/a\rb", "/a\nb", "relative", ""] {
        let result = build_request("127.0.0.1", path);
        assert!(result.is_err(), "request target {path:?} must be refused before connecting");
    }
}

#[test]
fn a_request_carries_the_target_the_host_and_nothing_else() {
    let request = build_request("example.test", "/a?b=c").expect("a valid request");
    assert_eq!(request, b"GET /a?b=c HTTP/1.1\r\nHost: example.test\r\nConnection: close\r\n\r\n".to_vec());
}

#[test]
fn each_refusal_says_why() {
    assert!(matches!(build_request("h", "x"), Err(FetchError::BadRequest("the path must be origin-relative"))));
    assert!(matches!(
        build_request("h", "/\x7f"),
        Err(FetchError::BadRequest("the path contains a control character or a space"))
    ));
    assert!(matches!(
        build_request("h\r\nX: y", "/"),
        Err(FetchError::BadRequest("the host contains a control character"))
    ));
}

#[test]
fn a_head_in_pieces_asks_for_more_until_it_is_whole() {
    let whole = b"HTTP/1.1 200 OK\r\nContent-Length: 3\r\n\r\nabc";
    assert!(matches!(head_step(&whole[..10], false), Ok(HeadProgress::NeedMore)));
    assert!(matches!(
        head_step(&whole[..10], true),
        Err(FetchError::Protocol(Http1Error::Truncated))
    ));
    match head_step(whole, false) {
        Ok(HeadProgress::Parsed(head, n)) => {
            assert_eq!(head.status, 200);
            assert_eq!(n, whole.len() - 3);
            assert_eq!(head.framing, Framing::Length(3));
            match body_step(whole, n, head.framing, false) {
                Ok(BodyProgress::Done(body)) => assert_eq!(body, b"abc".to_vec()),
                _ => panic!("the body has arrived"),
            }
        },
        _ => panic!("the head has arrived"),
    }
}

#[test]
fn a_malformed_head_is_refused_at_once() {
    assert!(matches!(head_step(b"HTTP/1.1 2x0 OK\r\n\r\n", false), Err(FetchError::Protocol(_))));
}

#[test]
fn a_body_short_of_its_length_waits_then_is_truncated() {
    let raw = b"HEADab";
    assert!(matches!(body_step(raw, 4, Framing::Length(3), false), Ok(BodyProgress::NeedMore)));
    assert!(matches!(
        body_step(raw, 4, Framing::Length(3), true),
        Err(FetchError::Protocol(Http1Error::Truncated))
    ));
}

#[test]
fn a_body_until_close_ends_at_the_close() {
    let raw = b"HEADabc";
    assert!(matches!(body_step(raw, 4, Framing::UntilClose, false), Ok(BodyProgress::NeedMore)));
    match body_step(raw, 4, Framing::UntilClose, true) {
        Ok(BodyProgress::Done(body)) => assert_eq!(body, b"abc".to_vec()),
        _ => panic!("the close ends the body"),
    }
    match body_step(raw, 4, Framing::Empty, false) {
        Ok(BodyProgress::Done(body)) => assert!(body.is_empty()),
        _ => panic!("an empty body is complete"),
    }
}

#[test]
fn a_chunked_body_is_decoded_when_it_is_whole() {
    let raw = b"H3\r\nabc\r\n0\r\n\r\n";
    match body_step(raw, 1, Framing::Chunked, false) {
        Ok(BodyProgress::Done(body)) => assert_eq!(body, b"abc".to_vec()),
        _ => panic!("the chunked body is whole"),
    }
    assert!(matches!(body_step(&raw[..8], 1, Framing::Chunked, false), Ok(BodyProgress::NeedMore)));
    assert!(matches!(
        body_step(&raw[..8], 1, Framing::Chunked, true),
        Err(FetchError::Protocol(Http1Error::Truncated))
    ));
}

#[test]
fn a_body_past_the_bound_is_refused_rather_than_held() {
    assert!(admit_read(0, MAX_BODY_BYTES).is_ok());
    assert!(matches!(
        admit_read(MAX_BODY_BYTES, 1),
        Err(FetchError::Protocol(Http1Error::TooLarge { what: "body" }))
    ));
    assert!(admit_read(usize::MAX, usize::MAX).is_err());
}

#[test]
fn net_fetches_does_not_follow_redirects_itself_but_says_where() {
    let raw = b"HTTP/1.1 302 Found\r\nLocation: /elsewhere\r\nContent-Length: 0\r\n\r\n";
    let head = match head_step(raw, false) {
        Ok(HeadProgress::Parsed(head, _)) => head,
        _ => panic!("a valid head"),
    };
    let response = Response { head, body: Vec::new() };
    assert_eq!(response.redirect_target(), Some("/elsewhere"));

    let raw = b"HTTP/1.1 200 OK\r\nLocation: /elsewhere\r\nContent-Length: 0\r\n\r\n";
    let head = match head_step(raw, false) {
        Ok(HeadProgress::Parsed(head, _)) => head,
        _ => panic!("a valid head"),
    };
    let response = Response { head, body: Vec::new() };
    assert_eq!(response.redirect_target(), None, "only a redirect status has a target");
}

#[test]
fn a_whole_body_is_settled_by_what_arrives_after_it() {
    let head = b"HTTP/1.1 200 OK\r\nContent-Length: 2\r\n\r\n";
    let mut raw = head.to_vec();
    raw.extend_from_slice(b"hi");
    let first = match body_step(&raw, head.len(), Framing::Length(2), false) {
        Ok(BodyProgress::Done(body)) => body,
        _ => panic!("two bytes of a two-byte body have arrived"),
    };
    assert_eq!(first, b"hi");
    raw.extend_from_slice(b"trailing junk");
    for closed in [false, true] {
        match body_step(&raw, head.len(), Framing::Length(2), closed) {
            Ok(BodyProgress::Done(body)) => assert_eq!(body, first),
            _ => panic!("a complete body stays complete"),
        }
    }
    let chunked = b"2\r\nhi\r\n0\r\n\r\n";
    let mut raw = head.to_vec();
    raw.extend_from_slice(chunked);
    raw.extend_from_slice(b"5\r\nextra\r\n");
    match body_step(&raw, head.len(), Framing::Chunked, true) {
        Ok(BodyProgress::Done(body)) => assert_eq!(body, b"hi"),
        _ => panic!("the chunked body ended before the extra bytes"),
    }
}

#[test]
fn a_fetcher_is_built_with_the_client_configuration() {
    assert!(Fetcher::new().is_ok());
}
