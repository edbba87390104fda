//! Fetching a single resource: the request it sends, and the decisions made
//! while its response arrives.
//!
//! A fetch takes a partition key, never a bare URL or host, and follows no
//! redirect: [`Response::redirect_target`] surfaces the `Location` and the
//! caller decides. The request carries nothing but the target, the `Host`
//! and `Connection: close`; every extra header is a bit of entropy.
//!
//! Reading is a loop of reads and decisions. The decisions are here, as
//! functions from what has arrived to what happens next; the program that
//! owns the socket performs the reads.
use vstd::prelude::*;
use std::sync::Arc;
use rustls::ClientConfig;
use crate::net::tls::{alpn_offered, client_config, config_anchors, http_11, BUNDLED_ROOTS};
use crate::net::http1::{
    chunked_from, decode_chunked, first_named, head_of, parse_response_head, Framing, Http1Error,
    ResponseHead, ResponseHeadView, MAX_BODY_BYTES,
};

verus! {

/// What can go wrong fetching a resource.
#[derive(Debug)]
pub enum FetchError {
    /// The name did not resolve, or the connection was refused.
    Connect(std::io::Error),
    /// The TLS handshake failed; never downgraded to plaintext.
    Tls(String),
    /// The response was not a well-formed HTTP/1.1 message.
    Protocol(Http1Error),
    /// The transport failed mid-exchange.
    Io(std::io::Error),
    /// The request could not be built.
    BadRequest(&'static str),
}

/// A fetched resource.
#[derive(Debug, Clone)]
pub struct Response {
    /// The parsed head.
    pub head: ResponseHead,
    /// The body, decoded if it was chunked.
    pub body: Vec<u8>,
}

/// A redirect status.
pub open spec fn is_redirect(status: u16) -> bool {
    status == 301 || status == 302 || status == 303 || status == 307 || status == 308
}

impl Response {
    /// The `Location` of a redirect, if this is one: returned, not followed.
    pub fn redirect_target(&self) -> (r: Option<&str>)
        ensures
            !is_redirect(self.head@.status) ==> r is None,
            is_redirect(self.head@.status) ==> match first_named(self.head@.headers, "location"@) {
                Some(h) => r matches Some(v) && v@ == h.value,
                None => r is None,
            },
    {
        let s = self.head.status;
        if s == 301 || s == 302 || s == 303 || s == 307 || s == 308 {
            self.head.header("location")
        } else {
            None
        }
    }
}

/// A byte that may not appear in a request target or host: a control
/// character, space, or DEL.
pub open spec fn splits_request(b: u8) -> bool {
    b < 0x21 || b == 0x7f
}

/// `GET `, as bytes.
pub open spec fn get_prefix() -> Seq<u8> {
    seq![71u8, 69, 84, 32]
}

/// ` HTTP/1.1\r\nHost: `, as bytes.
pub open spec fn version_and_host() -> Seq<u8> {
    seq![32u8, 72, 84, 84, 80, 47, 49, 46, 49, 13, 10, 72, 111, 115, 116, 58, 32]
}

/// `\r\nConnection: close\r\n\r\n`, as bytes.
pub open spec fn connection_close() -> Seq<u8> {
    seq![13u8, 10, 67, 111, 110, 110, 101, 99, 116, 105, 111, 110, 58, 32, 99, 108, 111, 115, 101, 13, 10, 13, 10]
}

/// Why a request cannot be built.
#[derive(Debug, Clone, Copy, PartialEq, Eq, Structural)]
pub enum RequestProblem {
    /// The path is not origin-relative.
    NotOriginRelative,
    /// The path holds a control character or a space.
    PathSplits,
    /// The host holds a control character.
    HostSplits,
}

/// The request for `path` at `host`, given as the bytes of each, or why
/// there is none: the path must start with `/`, and neither may hold a byte
/// that would end the line early.
pub open spec fn request_of(host: Seq<u8>, path: Seq<u8>) -> Result<Seq<u8>, RequestProblem> {
    if path.len() == 0 || path[0] != 47 {
        Err(RequestProblem::NotOriginRelative)
    } else if exists|i: int| 0 <= i < path.len() && splits_request(#[trigger] path[i]) {
        Err(RequestProblem::PathSplits)
    } else if exists|i: int| 0 <= i < host.len() && splits_request(#[trigger] host[i]) {
        Err(RequestProblem::HostSplits)
    } else {
        Ok(get_prefix() + path + version_and_host() + host + connection_close())
    }
}

/// Whether any byte of `b` would split a request.
fn splitting_byte(b: &[u8]) -> (r: bool)
    ensures
        r == exists|i: int| 0 <= i < b@.len() && splits_request(#[trigger] b@[i]),
{
    let mut i: usize = 0;
    while i < b.len()
        invariant
            i <= b@.len(),
            forall|j: int| 0 <= j < i ==> !splits_request(#[trigger] b@[j]),
        decreases b@.len() - i,
    {
        if b[i] < 0x21 || b[i] == 0x7f {
            assert(splits_request(b@[i as int]));
            return true;
        }
        i += 1;
    }
    false
}

/// Append the bytes of `b` to `out`.
fn append_bytes(out: &mut Vec<u8>, b: &[u8])
    ensures
        final(out)@ == old(out)@ + b@,
{
    let mut i: usize = 0;
    while i < b.len()
        invariant
            i <= b@.len(),
            out@ == old(out)@ + b@.take(i as int),
        decreases b@.len() - i,
    {
        out.push(b[i]);
        i += 1;
        assert(out@ =~= old(out)@ + b@.take(i as int));
    }
    assert(b@.take(b@.len() as int) =~= b@);
}

/// Build the request bytes for `path` at `host`, refusing anything that could
/// split the request.
pub fn build_request(host: &str, path: &str) -> (r: Result<Vec<u8>, FetchError>)
    ensures
        match request_of(vstd::utf8::encode_utf8(host@), vstd::utf8::encode_utf8(path@)) {
            Ok(bytes) => r matches Ok(v) && v@ == bytes,
            Err(RequestProblem::NotOriginRelative) => r matches Err(FetchError::BadRequest(w)) && w
                == "the path must be origin-relative",
            Err(RequestProblem::PathSplits) => r matches Err(FetchError::BadRequest(w)) && w
                == "the path contains a control character or a space",
            Err(RequestProblem::HostSplits) => r matches Err(FetchError::BadRequest(w)) && w
                == "the host contains a control character",
        },
{
    let p = path.as_bytes();
    let h = host.as_bytes();
    if p.len() == 0 || p[0] != 47 {
        return Err(FetchError::BadRequest("the path must be origin-relative"));
    }
    if splitting_byte(p) {
        return Err(FetchError::BadRequest("the path contains a control character or a space"));
    }
    if splitting_byte(h) {
        return Err(FetchError::BadRequest("the host contains a control character"));
    }
    let get: [u8; 4] = [71, 69, 84, 32];
    let version: [u8; 17] = [32, 72, 84, 84, 80, 47, 49, 46, 49, 13, 10, 72, 111, 115, 116, 58, 32];
    let close: [u8; 23] = [
        13, 10, 67, 111, 110, 110, 101, 99, 116, 105, 111, 110, 58, 32, 99, 108, 111, 115, 101, 13, 10, 13, 10,
    ];
    assert(get@ =~= get_prefix());
    assert(version@ =~= version_and_host());
    assert(close@ =~= connection_close());
    let mut request: Vec<u8> = Vec::new();
    append_bytes(&mut request, get.as_slice());
    append_bytes(&mut request, p);
    append_bytes(&mut request, version.as_slice());
    append_bytes(&mut request, h);
    append_bytes(&mut request, close.as_slice());
    assert(request@ =~= get_prefix() + p@ + version_and_host() + h@ + connection_close());
    Ok(request)
}

/// Where reading a response head stands.
pub enum HeadProgress {
    /// The head has arrived: it, and how many bytes it took.
    Parsed(ResponseHead, usize),
    /// More bytes are needed; read, and ask again.
    NeedMore,
}

/// What has arrived, `raw`, says about the head: it has arrived, or more is
/// needed, or the response is refused. `closed` says the peer has closed: an
/// incomplete head is then truncated. A head still incomplete past
/// [`MAX_BODY_BYTES`] is refused rather than accumulated.
pub fn head_step(raw: &[u8], closed: bool) -> (r: Result<HeadProgress, FetchError>)
    ensures
        match head_of(raw@) {
            Ok((head, n)) => r matches Ok(HeadProgress::Parsed(h, m)) && h@ == head && m == n,
            Err(Http1Error::Truncated) => if raw@.len() > MAX_BODY_BYTES {
                r matches Err(FetchError::Protocol(Http1Error::TooLarge { what })) && what == "response head"
            } else if closed {
                r matches Err(FetchError::Protocol(Http1Error::Truncated))
            } else {
                r matches Ok(HeadProgress::NeedMore)
            },
            Err(e) => r matches Err(FetchError::Protocol(f)) && f == e,
        },
{
    match parse_response_head(raw) {
        Ok((head, n)) => Ok(HeadProgress::Parsed(head, n)),
        Err(Http1Error::Truncated) => {
            if raw.len() > MAX_BODY_BYTES {
                Err(FetchError::Protocol(Http1Error::TooLarge { what: "response head" }))
            } else if closed {
                Err(FetchError::Protocol(Http1Error::Truncated))
            } else {
                Ok(HeadProgress::NeedMore)
            }
        },
        Err(e) => Err(FetchError::Protocol(e)),
    }
}

/// Whether a read of `read` bytes may be added to a buffer of `held` bytes:
/// the body is bounded, and refused rather than accumulated past the bound.
pub fn admit_read(held: usize, read: usize) -> (r: Result<(), FetchError>)
    ensures
        held + read > MAX_BODY_BYTES <==> r is Err,
        r matches Err(e) ==> e matches FetchError::Protocol(Http1Error::TooLarge { what }) && what == "body",
{
    if read > MAX_BODY_BYTES || held > MAX_BODY_BYTES - read {
        Err(FetchError::Protocol(Http1Error::TooLarge { what: "body" }))
    } else {
        Ok(())
    }
}

/// Where reading a body stands.
pub enum BodyProgress {
    /// The body is complete.
    Done(Vec<u8>),
    /// More bytes are needed; read, and ask again.
    NeedMore,
}

/// What the body of a response is, given what has arrived, `raw`, whose head
/// took `head_len` bytes, and whether the peer has closed.
pub open spec fn body_of(raw: Seq<u8>, head_len: int, framing: Framing, closed: bool) -> Option<Result<Seq<u8>, Http1Error>> {
    let rest = raw.skip(head_len);
    match framing {
        Framing::Empty => Some(Ok(Seq::empty())),
        Framing::Length(n) => if rest.len() >= n {
            Some(Ok(rest.take(n as int)))
        } else if closed {
            Some(Err(Http1Error::Truncated))
        } else {
            None
        },
        Framing::Chunked => match chunked_from(rest, 0, Seq::empty()) {
            Ok((body, _)) => Some(Ok(body)),
            Err(Http1Error::Truncated) => if closed {
                Some(Err(Http1Error::Truncated))
            } else {
                None
            },
            Err(e) => Some(Err(e)),
        },
        Framing::UntilClose => if closed {
            Some(Ok(rest))
        } else {
            None
        },
    }
}

/// A body, once it has arrived whole, is settled: whatever arrives after
/// it, and whether or not the peer then closes, the body is the same. So a
/// body of `Content-Length: n` is the first `n` bytes after the head, and a
/// chunked one what its chunks decode to, however the bytes were split
/// between reads.
pub proof fn lemma_body_settled(raw: Seq<u8>, x: Seq<u8>, head_len: int, framing: Framing, closed: bool)
    requires
        0 <= head_len <= raw.len(),
        body_of(raw, head_len, framing, false) matches Some(Ok(_)),
    ensures
        body_of(raw + x, head_len, framing, closed) == body_of(raw, head_len, framing, false),
{
    let rest = raw.skip(head_len);
    assert((raw + x).skip(head_len) =~= rest + x);
    match framing {
        Framing::Length(n) => {
            assert((rest + x).take(n as int) =~= rest.take(n as int));
        },
        Framing::Chunked => {
            crate::net::http1::lemma_chunked_append(rest, x, 0, Seq::empty());
        },
        _ => {},
    }
}

/// Decide what the body is, from what has arrived: complete, still arriving
/// (`NeedMore`), or refused. A body whose framing is not satisfied when the
/// peer closes is truncated, except one that runs until the close.
pub fn body_step(raw: &[u8], head_len: usize, framing: Framing, closed: bool) -> (r: Result<BodyProgress, FetchError>)
    requires
        head_len <= raw@.len(),
    ensures
        match body_of(raw@, head_len as int, framing, closed) {
            None => r matches Ok(BodyProgress::NeedMore),
            Some(Ok(body)) => r matches Ok(BodyProgress::Done(b)) && b@ == body,
            Some(Err(e)) => r matches Err(FetchError::Protocol(f)) && f == e,
        },
{
    let total = raw.len();
    let ghost rest = raw@.skip(head_len as int);
    match framing {
        Framing::Empty => Ok(BodyProgress::Done(Vec::new())),
        Framing::Length(n) => {
            if total - head_len >= n {
                let body = crate::net::bytes::bytes_window(raw, head_len, head_len + n);
                assert(rest.take(n as int) =~= raw@.subrange(head_len as int, head_len + n));
                Ok(BodyProgress::Done(body))
            } else if closed {
                Err(FetchError::Protocol(Http1Error::Truncated))
            } else {
                Ok(BodyProgress::NeedMore)
            }
        },
        Framing::Chunked => {
            let tail = crate::net::bytes::bytes_window(raw, head_len, total);
            assert(tail@ =~= rest);
            match decode_chunked(tail.as_slice()) {
                Ok((body, _)) => Ok(BodyProgress::Done(body)),
                Err(Http1Error::Truncated) => {
                    if closed {
                        Err(FetchError::Protocol(Http1Error::Truncated))
                    } else {
                        Ok(BodyProgress::NeedMore)
                    }
                },
                Err(e) => Err(FetchError::Protocol(e)),
            }
        },
        Framing::UntilClose => {
            if closed {
                let body = crate::net::bytes::bytes_window(raw, head_len, total);
                assert(body@ =~= rest);
                Ok(BodyProgress::Done(body))
            } else {
                Ok(BodyProgress::NeedMore)
            }
        },
    }
}

impl FetchError {
    /// The message this error is shown with.
    pub fn to_string(&self) -> (r: String)
        ensures
            match *self {
                FetchError::Connect(_) => "could not connect: "@.is_prefix_of(r@),
                FetchError::Tls(detail) => r@ == "TLS failed: "@ + detail@,
                FetchError::Protocol(e) => r@ == "malformed response: "@ + crate::net::http1::http1_error_text(e),
                FetchError::Io(_) => "transport error: "@.is_prefix_of(r@),
                FetchError::BadRequest(detail) => r@ == "cannot build the request: "@ + detail@,
            },
    {
        let mut s = String::new();
        match self {
            FetchError::Connect(error) => {
                crate::text_ops::push_str(&mut s, "could not connect: ");
                let text = crate::net::resolver::io_error_text(error);
                crate::text_ops::push_str(&mut s, text.as_str());
            },
            FetchError::Tls(detail) => {
                crate::text_ops::push_str(&mut s, "TLS failed: ");
                crate::text_ops::push_str(&mut s, detail.as_str());
            },
            FetchError::Protocol(error) => {
                crate::text_ops::push_str(&mut s, "malformed response: ");
                let text = error.to_string();
                crate::text_ops::push_str(&mut s, text.as_str());
            },
            FetchError::Io(error) => {
                crate::text_ops::push_str(&mut s, "transport error: ");
                let text = crate::net::resolver::io_error_text(error);
                crate::text_ops::push_str(&mut s, text.as_str());
            },
            FetchError::BadRequest(detail) => {
                crate::text_ops::push_str(&mut s, "cannot build the request: ");
                crate::text_ops::push_str(&mut s, detail);
            },
        }
        s
    }
}


/// A configured fetcher, holding the TLS configuration so that it is built
/// once rather than per request.
#[derive(Clone)]
pub struct Fetcher {
    config: Arc<ClientConfig>,
}

impl Fetcher {
    /// The TLS configuration this fetcher connects with.
    pub closed spec fn tls_config(&self) -> ClientConfig {
        *self.config
    }

    /// A fetcher with the client configuration of
    /// [`crate::net::tls::client_config`]: it trusts the bundled anchors and
    /// offers HTTP/1.1 alone by ALPN.
    pub fn new() -> (r: Result<Fetcher, FetchError>)
        ensures
            r matches Ok(f) && alpn_offered(f.tls_config()) == seq![http_11()] && config_anchors(f.tls_config()).len()
                == BUNDLED_ROOTS,
    {
        match client_config() {
            Ok(config) => Ok(Fetcher { config }),
            Err(e) => Err(e),
        }
    }
}

} // verus!
