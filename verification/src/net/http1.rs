//! HTTP/1.1 response parsing.
//!
//! Every byte parsed here was written by a server, and almost every serious
//! HTTP/1.1 vulnerability is a framing disagreement: two parties reading the
//! same bytes as different numbers of messages. So this parser does not
//! resolve ambiguity, it refuses it:
//!
//! - `Content-Length` and `Transfer-Encoding` together are rejected;
//! - two `Content-Length` headers are rejected, even when they agree;
//! - a `Content-Length` that is not purely digits is rejected;
//! - a `Transfer-Encoding` whose final coding is not `chunked` is rejected.
//!
//! Every length that comes off the wire is checked against a limit before it
//! sizes anything; a declared chunk size is not an allocation.
use vstd::prelude::*;
use vstd::utf8::{decode_utf8, valid_utf8};
use crate::net::bytes::{bytes_window, find_byte, find_byte_in, lemma_find_byte, trim_ascii, trim_ascii_window};
use crate::numbers::{all_digits, parse_unsigned, parse_unsigned_window};
use crate::text_ops::{chars_of, lower, lower_char, rfind, rfind_in, trim, trim_window, lower_window, vec_eq};

use crate::text_ops::push_char;

verus! {

/// Longest status line accepted, in bytes.
pub const MAX_STATUS_LINE: usize = 8192;

/// Longest single header line accepted, in bytes.
pub const MAX_HEADER_LINE: usize = 16384;

/// Most header fields accepted in one response.
pub const MAX_HEADERS: usize = 128;

/// Largest body this parser will accumulate, in bytes.
pub const MAX_BODY_BYTES: usize = 33554432;

/// Largest single chunk accepted in a chunked body, in bytes.
pub const MAX_CHUNK_BYTES: usize = 8388608;

/// What can be wrong with a response.
#[derive(Debug, Clone, PartialEq, Eq)]
pub enum Http1Error {
    /// The status line was not a status line.
    BadStatusLine,
    /// A header field was malformed.
    BadHeader,
    /// The message framing was ambiguous, and ambiguity is refused.
    AmbiguousFraming(Ambiguity),
    /// A declared length or count exceeded its bound.
    TooLarge {
        /// What was too large.
        what: &'static str,
    },
    /// The peer closed before the message was complete.
    Truncated,
}

/// The specific framing ambiguity a response contained.
#[derive(Debug, Clone, Copy, PartialEq, Eq, Structural)]
pub enum Ambiguity {
    /// Both `Content-Length` and `Transfer-Encoding` were present.
    LengthAndTransferEncoding,
    /// More than one `Content-Length` header.
    RepeatedContentLength,
    /// A `Content-Length` that was not purely decimal digits.
    MalformedContentLength,
    /// A `Transfer-Encoding` whose final coding was not `chunked`.
    TransferEncodingNotChunked,
    /// A chunk size that was not valid hexadecimal.
    MalformedChunkSize,
}

/// How the body's end is determined; exactly one applies to any response
/// this parser accepts.
#[derive(Debug, Clone, Copy, PartialEq, Eq, Structural)]
pub enum Framing {
    /// A `Content-Length` was present and unambiguous.
    Length(usize),
    /// `Transfer-Encoding: chunked`.
    Chunked,
    /// Neither, so the body runs until the connection closes.
    UntilClose,
    /// The status forbids a body, whatever the headers say.
    Empty,
}

/// One header field, as received: the name lowercased, the value trimmed.
#[derive(Debug, Clone, PartialEq, Eq)]
pub struct Header {
    /// Lowercased field name.
    pub name: String,
    /// Field value, trimmed of surrounding white space.
    pub value: String,
}

/// What a [`Header`] holds.
pub struct HeaderView {
    pub name: Seq<char>,
    pub value: Seq<char>,
}

impl View for Header {
    type V = HeaderView;

    open spec fn view(&self) -> HeaderView {
        HeaderView { name: self.name@, value: self.value@ }
    }
}

/// A parsed response head.
#[derive(Debug, Clone, PartialEq, Eq)]
pub struct ResponseHead {
    /// The three-digit status code.
    pub status: u16,
    /// Header fields in the order received.
    pub headers: Vec<Header>,
    /// How this message's body is delimited.
    pub framing: Framing,
}

/// What a [`ResponseHead`] holds.
pub struct ResponseHeadView {
    pub status: u16,
    pub headers: Seq<HeaderView>,
    pub framing: Framing,
}

/// The views of a run of headers.
pub open spec fn header_views(hs: Seq<Header>) -> Seq<HeaderView> {
    hs.map_values(|h: Header| h@)
}

impl View for ResponseHead {
    type V = ResponseHeadView;

    open spec fn view(&self) -> ResponseHeadView {
        ResponseHeadView { status: self.status, headers: header_views(self.headers@), framing: self.framing }
    }
}

/// One line of `b`: the bytes before the first line feed, without a carriage
/// return just before it, and how many bytes the line took with its
/// terminator. No line feed is `Truncated`; a line longer than `limit` is
/// too large. A bare carriage return ends nothing.
pub open spec fn line_of(b: Seq<u8>, limit: int, what: &'static str) -> Result<(Seq<u8>, int), Http1Error> {
    let end = find_byte(b, 10);
    if end < 0 {
        Err(Http1Error::Truncated)
    } else if end > limit {
        Err(Http1Error::TooLarge { what })
    } else if end > 0 && b[end - 1] == 13 {
        Ok((b.take(end - 1), end + 1))
    } else {
        Ok((b.take(end), end + 1))
    }
}

/// Read one line of `b[start..]`.
fn read_line(b: &[u8], start: usize, limit: usize, what: &'static str) -> (r: Result<(usize, usize), Http1Error>)
    requires
        start <= b@.len(),
    ensures
        match r {
            Ok((line_end, used)) => start <= line_end < start + used <= b@.len() && used >= 1
                && line_of(b@.skip(start as int), limit as int, what) == Ok::<(Seq<u8>, int), Http1Error>(
                (b@.subrange(start as int, line_end as int), used as int)),
            Err(e) => line_of(b@.skip(start as int), limit as int, what) == Err::<(Seq<u8>, int), Http1Error>(e),
        },
{
    let ghost w = b@.skip(start as int);
    assert(b@.subrange(start as int, b@.len() as int) =~= w);
    let end = match find_byte_in(b, start, b.len(), 10) {
        Some(e) => e,
        None => {
            return Err(Http1Error::Truncated);
        },
    };
    if end > limit {
        return Err(Http1Error::TooLarge { what });
    }
    if end > 0 && b[start + end - 1] == 13 {
        assert(w.take(end - 1) =~= b@.subrange(start as int, start + end - 1));
        Ok((start + end - 1, end + 1))
    } else {
        assert(w.take(end as int) =~= b@.subrange(start as int, start + end));
        Ok((start + end, end + 1))
    }
}

/// `HTTP/1.1`, as bytes.
pub open spec fn http_1_1() -> Seq<u8> {
    seq![72u8, 84, 84, 80, 47, 49, 46, 49]
}

/// `HTTP/1.0`, as bytes.
pub open spec fn http_1_0() -> Seq<u8> {
    seq![72u8, 84, 84, 80, 47, 49, 46, 48]
}

/// An ASCII digit.
pub open spec fn is_digit_byte(b: u8) -> bool {
    48 <= b <= 57
}

/// The status code of `HTTP/1.x SP code SP reason`: the version must be
/// `HTTP/1.1` or `HTTP/1.0`, and the code exactly three ASCII digits.
pub open spec fn status_of(line: Seq<u8>) -> Result<u16, Http1Error> {
    let sp1 = find_byte(line, 32);
    let rest = line.skip(sp1 + 1);
    let sp2 = find_byte(rest, 32);
    let code = if sp2 < 0 {
        rest
    } else {
        rest.take(sp2)
    };
    if sp1 < 0 {
        Err(Http1Error::BadStatusLine)
    } else if line.take(sp1) != http_1_1() && line.take(sp1) != http_1_0() {
        Err(Http1Error::BadStatusLine)
    } else if code.len() != 3 || !is_digit_byte(code[0]) || !is_digit_byte(code[1]) || !is_digit_byte(
        code[2],
    ) {
        Err(Http1Error::BadStatusLine)
    } else {
        Ok(((code[0] - 48) * 100 + (code[1] - 48) * 10 + (code[2] - 48)) as u16)
    }
}

/// Whether `b[lo..hi]` spells `p`.
fn bytes_eq(b: &[u8], lo: usize, hi: usize, p: &[u8]) -> (r: bool)
    requires
        lo <= hi <= b@.len(),
    ensures
        r == (b@.subrange(lo as int, hi as int) == p@),
{
    if hi - lo != p.len() {
        assert(b@.subrange(lo as int, hi as int).len() != p@.len());
        return false;
    }
    let mut i: usize = 0;
    while i < p.len()
        invariant
            hi - lo == p@.len(),
            lo <= hi <= b@.len(),
            i <= p@.len(),
            forall|k: int| 0 <= k < i ==> #[trigger] b@[lo + k] == p@[k],
        decreases p@.len() - i,
    {
        if b[lo + i] != p[i] {
            assert(b@.subrange(lo as int, hi as int)[i as int] != p@[i as int]);
            return false;
        }
        i += 1;
    }
    assert(b@.subrange(lo as int, hi as int) =~= p@) by {
        assert forall|k: int| 0 <= k < p@.len() implies #[trigger] b@.subrange(lo as int, hi as int)[k] == p@[k] by {
            assert(b@[lo + k] == p@[k]);
        }
    }
    true
}

/// The status code of the status line `b[lo..hi]`.
fn parse_status_line(b: &[u8], lo: usize, hi: usize) -> (r: Result<u16, Http1Error>)
    requires
        lo <= hi <= b@.len(),
    ensures
        match r {
            Ok(s) => status_of(b@.subrange(lo as int, hi as int)) == Ok::<u16, Http1Error>(s),
            Err(e) => status_of(b@.subrange(lo as int, hi as int)) == Err::<u16, Http1Error>(e),
        },
{
    let ghost line = b@.subrange(lo as int, hi as int);
    let sp1 = match find_byte_in(b, lo, hi, 32) {
        Some(k) => k,
        None => {
            return Err(Http1Error::BadStatusLine);
        },
    };
    assert(line.take(sp1 as int) =~= b@.subrange(lo as int, lo + sp1));
    let v11: [u8; 8] = [72, 84, 84, 80, 47, 49, 46, 49];
    let v10: [u8; 8] = [72, 84, 84, 80, 47, 49, 46, 48];
    assert(v11@ =~= http_1_1());
    assert(v10@ =~= http_1_0());
    if !bytes_eq(b, lo, lo + sp1, v11.as_slice()) && !bytes_eq(b, lo, lo + sp1, v10.as_slice()) {
        return Err(Http1Error::BadStatusLine);
    }
    let rest_lo = lo + sp1 + 1;
    assert(line.skip(sp1 + 1) =~= b@.subrange(rest_lo as int, hi as int));
    let code_hi = match find_byte_in(b, rest_lo, hi, 32) {
        Some(k) => {
            assert(line.skip(sp1 + 1).take(k as int) =~= b@.subrange(rest_lo as int, rest_lo + k));
            rest_lo + k
        },
        None => hi,
    };
    if code_hi - rest_lo != 3 {
        return Err(Http1Error::BadStatusLine);
    }
    let c0 = b[rest_lo];
    let c1 = b[rest_lo + 1];
    let c2 = b[rest_lo + 2];
    if !(48 <= c0 && c0 <= 57) || !(48 <= c1 && c1 <= 57) || !(48 <= c2 && c2 <= 57) {
        return Err(Http1Error::BadStatusLine);
    }
    let status: u16 = (c0 - 48) as u16 * 100 + (c1 - 48) as u16 * 10 + (c2 - 48) as u16;
    Ok(status)
}

/// A byte allowed in a field name: an RFC 9110 token character.
pub open spec fn is_token_byte(b: u8) -> bool {
    ||| 48 <= b <= 57
    ||| 65 <= b <= 90
    ||| 97 <= b <= 122
    ||| b == 33 || b == 35 || b == 36 || b == 37 || b == 38 || b == 39 || b == 42 || b == 43
    ||| b == 45 || b == 46 || b == 94 || b == 95 || b == 96 || b == 124 || b == 126
}

/// A byte refused in a field value: a control character other than tab.
pub open spec fn is_control_byte(b: u8) -> bool {
    (b < 32 && b != 9) || b == 127
}

/// `name: value`, with the name lowercased and the value trimmed of ASCII
/// white space. Refused: a line starting with white space (obsolete folding),
/// no colon, an empty name or one outside the token set, a control character
/// in the value, and a value that is not UTF-8.
pub open spec fn header_of(line: Seq<u8>) -> Result<HeaderView, Http1Error> {
    let colon = find_byte(line, 58);
    let name = line.take(colon);
    let value = line.skip(colon + 1);
    if line.len() > 0 && (line[0] == 32 || line[0] == 9) {
        Err(Http1Error::BadHeader)
    } else if colon < 0 {
        Err(Http1Error::BadHeader)
    } else if name.len() == 0 || exists|j: int| 0 <= j < name.len() && !is_token_byte(#[trigger] name[j]) {
        Err(Http1Error::BadHeader)
    } else if exists|j: int| 0 <= j < value.len() && is_control_byte(#[trigger] value[j]) {
        Err(Http1Error::BadHeader)
    } else if !valid_utf8(trim_ascii(value)) {
        Err(Http1Error::BadHeader)
    } else {
        Ok(
            HeaderView {
                name: Seq::new(name.len(), |i: int| lower_char(name[i] as char)),
                value: decode_utf8(trim_ascii(value)),
            },
        )
    }
}

/// `String::from_utf8`.
///
/// The contract claims what the standard library documents: the bytes are
/// taken as a string exactly when they are valid UTF-8, and the string holds
/// the characters they encode.
#[verifier::external_body]
fn string_from_utf8(bytes: Vec<u8>) -> (r: Option<String>)
    ensures
        r is Some <==> valid_utf8(bytes@),
        r matches Some(s) ==> s@ == decode_utf8(bytes@),
{
    String::from_utf8(bytes).ok()
}

/// The header field on the line `b[lo..hi]`.
#[verifier::loop_isolation(false)]
fn parse_header(b: &[u8], lo: usize, hi: usize) -> (r: Result<Header, Http1Error>)
    requires
        lo <= hi <= b@.len(),
    ensures
        match r {
            Ok(h) => header_of(b@.subrange(lo as int, hi as int)) == Ok::<HeaderView, Http1Error>(h@),
            Err(e) => header_of(b@.subrange(lo as int, hi as int)) == Err::<HeaderView, Http1Error>(e),
        },
{
    let ghost line = b@.subrange(lo as int, hi as int);
    if lo < hi && (b[lo] == 32 || b[lo] == 9) {
        return Err(Http1Error::BadHeader);
    }
    let colon = match find_byte_in(b, lo, hi, 58) {
        Some(k) => k,
        None => {
            return Err(Http1Error::BadHeader);
        },
    };
    let name_hi = lo + colon;
    let ghost name = line.take(colon as int);
    let ghost value = line.skip(colon + 1);
    assert(name =~= b@.subrange(lo as int, name_hi as int));
    assert(value =~= b@.subrange(name_hi + 1, hi as int));
    if colon == 0 {
        return Err(Http1Error::BadHeader);
    }
    let mut name_str = String::new();
    let mut i = lo;
    while i < name_hi
        invariant
            lo <= i <= name_hi < hi <= b@.len(),
            name == b@.subrange(lo as int, name_hi as int),
            forall|j: int| 0 <= j < i - lo ==> is_token_byte(#[trigger] name[j]),
            name_str@ == Seq::new((i - lo) as nat, |k: int| lower_char(name[k] as char)),
        decreases name_hi - i,
    {
        let c = b[i];
        let is_token = (48 <= c && c <= 57) || (65 <= c && c <= 90) || (97 <= c && c <= 122) || c == 33
            || c == 35 || c == 36 || c == 37 || c == 38 || c == 39 || c == 42 || c == 43 || c == 45
            || c == 46 || c == 94 || c == 95 || c == 96 || c == 124 || c == 126;
        if !is_token {
            assert(!is_token_byte(name[i - lo]));
            return Err(Http1Error::BadHeader);
        }
        let lc: char = if 65 <= c && c <= 90 {
            (c + 32) as char
        } else {
            c as char
        };
        assert(lc == lower_char(name[i - lo] as char));
        push_char(&mut name_str, lc);
        i += 1;
        assert(name_str@ =~= Seq::new((i - lo) as nat, |k: int| lower_char(name[k] as char)));
    }
    let mut j = name_hi + 1;
    while j < hi
        invariant
            name_hi < j <= hi <= b@.len(),
            value == b@.subrange(name_hi + 1, hi as int),
            forall|k: int| 0 <= k < j - name_hi - 1 ==> !is_control_byte(#[trigger] value[k]),
        decreases hi - j,
    {
        let c = b[j];
        if (c < 32 && c != 9) || c == 127 {
            assert(is_control_byte(value[j - name_hi - 1]));
            return Err(Http1Error::BadHeader);
        }
        j += 1;
    }
    let (va, vb) = trim_ascii_window(b, name_hi + 1, hi);
    let value_bytes = bytes_window(b, va, vb);
    match string_from_utf8(value_bytes) {
        Some(v) => Ok(Header { name: name_str, value: v }),
        None => Err(Http1Error::BadHeader),
    }
}

/// How many of `hs` are named `n`.
pub open spec fn count_named(hs: Seq<HeaderView>, n: Seq<char>) -> nat
    decreases hs.len(),
{
    if hs.len() == 0 {
        0
    } else {
        count_named(hs.drop_last(), n) + if hs.last().name == n {
            1nat
        } else {
            0nat
        }
    }
}

/// The last of `hs` named `n`.
pub open spec fn last_named(hs: Seq<HeaderView>, n: Seq<char>) -> Option<HeaderView>
    decreases hs.len(),
{
    if hs.len() == 0 {
        None
    } else if hs.last().name == n {
        Some(hs.last())
    } else {
        last_named(hs.drop_last(), n)
    }
}

/// The first of `hs` named `n`.
pub open spec fn first_named(hs: Seq<HeaderView>, n: Seq<char>) -> Option<HeaderView>
    decreases hs.len(),
{
    if hs.len() == 0 {
        None
    } else {
        match first_named(hs.drop_last(), n) {
            Some(h) => Some(h),
            None => if hs.last().name == n {
                Some(hs.last())
            } else {
                None
            },
        }
    }
}

/// The last coding of a `Transfer-Encoding` value: after its last comma,
/// trimmed and lowercased.
pub open spec fn final_coding(v: Seq<char>) -> Seq<char> {
    let k = rfind(v, ',');
    lower(
        trim(
            if k < 0 {
                v
            } else {
                v.skip(k + 1)
            },
        ),
    )
}

/// The length a `Content-Length` value declares: purely ASCII digits (no
/// sign, no inner white space), fitting in `usize`, and no more than
/// [`MAX_BODY_BYTES`].
pub open spec fn length_of(v: Seq<char>) -> Result<usize, Http1Error> {
    if v.len() == 0 || !all_digits(v) {
        Err(Http1Error::AmbiguousFraming(Ambiguity::MalformedContentLength))
    } else {
        match parse_unsigned(v, usize::MAX as int) {
            None => Err(Http1Error::TooLarge { what: "content-length" }),
            Some(n) => if n > MAX_BODY_BYTES {
                Err(Http1Error::TooLarge { what: "content-length" })
            } else {
                Ok(n as usize)
            },
        }
    }
}

/// A `Content-Length` value is a length exactly when it is one or more
/// ASCII digits whose decimal value is at most 32 MiB (33,554,432), and the
/// length is that value; more digits than that is too large, and anything
/// else (empty, a sign, white space, a letter) is malformed.
pub proof fn lemma_length_is_decimal(v: Seq<char>)
    ensures
        (v.len() > 0 && forall|i: int| 0 <= i < v.len() ==> '0' <= #[trigger] v[i] <= '9') ==> {
            if crate::numbers::dec_value(v) <= 33_554_432 {
                length_of(v) == Ok::<usize, Http1Error>(crate::numbers::dec_value(v) as usize)
            } else {
                length_of(v) == Err::<usize, Http1Error>(Http1Error::TooLarge { what: "content-length" })
            }
        },
        !(v.len() > 0 && forall|i: int| 0 <= i < v.len() ==> '0' <= #[trigger] v[i] <= '9') ==> length_of(v)
            == Err::<usize, Http1Error>(Http1Error::AmbiguousFraming(Ambiguity::MalformedContentLength)),
{
    if v.len() > 0 && forall|i: int| 0 <= i < v.len() ==> '0' <= #[trigger] v[i] <= '9' {
        assert(all_digits(v));
        crate::numbers::lemma_dec_value_nonneg(v);
        assert(v[0] != '+');
    } else {
        if v.len() > 0 && all_digits(v) {
            assert forall|i: int| 0 <= i < v.len() implies '0' <= #[trigger] v[i] <= '9' by {
                assert(crate::numbers::is_digit(v[i]));
            }
        }
    }
}

/// How the body of a response with this status and these headers ends.
pub open spec fn framing_of(status: u16, hs: Seq<HeaderView>) -> Result<Framing, Http1Error> {
    let cl = count_named(hs, "content-length"@);
    let te = count_named(hs, "transfer-encoding"@);
    if status == 204 || status == 304 || (100 <= status && status < 200) {
        Ok(Framing::Empty)
    } else if cl > 0 && te > 0 {
        Err(Http1Error::AmbiguousFraming(Ambiguity::LengthAndTransferEncoding))
    } else if te > 0 {
        match last_named(hs, "transfer-encoding"@) {
            Some(h) => if final_coding(h.value) == "chunked"@ {
                Ok(Framing::Chunked)
            } else {
                Err(Http1Error::AmbiguousFraming(Ambiguity::TransferEncodingNotChunked))
            },
            None => Err(Http1Error::AmbiguousFraming(Ambiguity::TransferEncodingNotChunked)),
        }
    } else if cl == 0 {
        Ok(Framing::UntilClose)
    } else if cl == 1 {
        match first_named(hs, "content-length"@) {
            Some(h) => match length_of(h.value) {
                Ok(n) => Ok(Framing::Length(n)),
                Err(e) => Err(e),
            },
            None => Err(Http1Error::AmbiguousFraming(Ambiguity::MalformedContentLength)),
        }
    } else {
        Err(Http1Error::AmbiguousFraming(Ambiguity::RepeatedContentLength))
    }
}

/// How a response's body is framed, case by case: no body for `204`,
/// `304` and `1xx`; `Content-Length` beside `Transfer-Encoding` refused;
/// `Transfer-Encoding` whose final coding is `chunked` as chunked, and
/// otherwise refused; more than one `Content-Length` refused; one that
/// reads as a length as that length; and none of either as running until
/// the close.
pub proof fn lemma_framing_cases(status: u16, hs: Seq<HeaderView>)
    ensures
        (status == 204 || status == 304 || (100 <= status && status < 200)) ==> framing_of(status, hs) == Ok::<
            Framing,
            Http1Error,
        >(Framing::Empty),
        !(status == 204 || status == 304 || (100 <= status && status < 200)) ==> {
            let cl = count_named(hs, "content-length"@);
            let te = count_named(hs, "transfer-encoding"@);
            &&& cl > 0 && te > 0 ==> framing_of(status, hs) == Err::<Framing, Http1Error>(
                Http1Error::AmbiguousFraming(Ambiguity::LengthAndTransferEncoding),
            )
            &&& cl == 0 && te > 0 ==> framing_of(status, hs) == match last_named(hs, "transfer-encoding"@) {
                Some(h) => if final_coding(h.value) == "chunked"@ {
                    Ok::<Framing, Http1Error>(Framing::Chunked)
                } else {
                    Err(Http1Error::AmbiguousFraming(Ambiguity::TransferEncodingNotChunked))
                },
                None => Err(Http1Error::AmbiguousFraming(Ambiguity::TransferEncodingNotChunked)),
            }
            &&& cl > 1 && te == 0 ==> framing_of(status, hs) == Err::<Framing, Http1Error>(
                Http1Error::AmbiguousFraming(Ambiguity::RepeatedContentLength),
            )
            &&& cl == 0 && te == 0 ==> framing_of(status, hs) == Ok::<Framing, Http1Error>(Framing::UntilClose)
            &&& cl == 1 && te == 0 ==> framing_of(status, hs) == match first_named(hs, "content-length"@) {
                Some(h) => match length_of(h.value) {
                    Ok(n) => Ok::<Framing, Http1Error>(Framing::Length(n)),
                    Err(e) => Err(e),
                },
                None => Err(Http1Error::AmbiguousFraming(Ambiguity::MalformedContentLength)),
            }
        },
{
}

/// The header fields from `b[off..]` up to the blank line, after `acc`, and
/// where the blank line ends.
pub open spec fn headers_from(b: Seq<u8>, off: int, acc: Seq<HeaderView>) -> Result<(Seq<HeaderView>, int), Http1Error>
    decreases b.len() - off,
{
    if off < 0 || off > b.len() {
        Err(Http1Error::Truncated)
    } else {
        match line_of(b.skip(off), MAX_HEADER_LINE as int, "header line") {
            Err(e) => Err(e),
            Ok((line, used)) => if line.len() == 0 {
                Ok((acc, off + used))
            } else if acc.len() >= MAX_HEADERS {
                Err(Http1Error::TooLarge { what: "header count" })
            } else {
                match header_of(line) {
                    Err(e) => Err(e),
                    Ok(h) => {
                        proof {
                            lemma_find_byte(b.skip(off), 10);
                        }
                        headers_from(b, off + used, acc.push(h))
                    },
                }
            },
        }
    }
}

/// What `parse_response_head` makes of `b`: the head, and how many bytes it
/// took.
pub open spec fn head_of(b: Seq<u8>) -> Result<(ResponseHeadView, int), Http1Error> {
    match line_of(b, MAX_STATUS_LINE as int, "status line") {
        Err(e) => Err(e),
        Ok((line, off)) => match status_of(line) {
            Err(e) => Err(e),
            Ok(status) => match headers_from(b, off, Seq::empty()) {
                Err(e) => Err(e),
                Ok((hs, end)) => match framing_of(status, hs) {
                    Err(e) => Err(e),
                    Ok(framing) => Ok((ResponseHeadView { status, headers: hs, framing }, end)),
                },
            },
        },
    }
}

/// Whether the header's name spells `lit`.
fn named(h: &Header, lit: &str) -> (r: bool)
    ensures
        r == (h@.name == lit@),
{
    vec_eq(&chars_of(h.name.as_str()), &chars_of(lit))
}

/// Decide how the body ends, refusing anything ambiguous.
fn determine_framing(status: u16, headers: &Vec<Header>) -> (r: Result<Framing, Http1Error>)
    ensures
        match r {
            Ok(f) => framing_of(status, header_views(headers@)) == Ok::<Framing, Http1Error>(f),
            Err(e) => framing_of(status, header_views(headers@)) == Err::<Framing, Http1Error>(e),
        },
{
    if status == 204 || status == 304 || (100 <= status && status < 200) {
        return Ok(Framing::Empty);
    }
    let ghost hv = header_views(headers@);
    let ghost cl_name = "content-length"@;
    let ghost te_name = "transfer-encoding"@;
    let mut cl: usize = 0;
    let mut te: usize = 0;
    let mut first_cl: Option<usize> = None;
    let mut last_te: Option<usize> = None;
    let mut i: usize = 0;
    assert(hv.take(0) =~= Seq::<HeaderView>::empty());
    while i < headers.len()
        invariant
            i <= headers@.len(),
            hv == header_views(headers@),
            cl_name == "content-length"@,
            te_name == "transfer-encoding"@,
            cl == count_named(hv.take(i as int), cl_name),
            te == count_named(hv.take(i as int), te_name),
            cl <= i,
            te <= i,
            match first_cl {
                Some(j) => j < i && first_named(hv.take(i as int), cl_name) == Some(hv[j as int]),
                None => first_named(hv.take(i as int), cl_name) is None,
            },
            match last_te {
                Some(j) => j < i && last_named(hv.take(i as int), te_name) == Some(hv[j as int]),
                None => last_named(hv.take(i as int), te_name) is None,
            },
        decreases headers@.len() - i,
    {
        assert(hv.take(i + 1).drop_last() =~= hv.take(i as int));
        assert(hv.take(i + 1).last() == headers@[i as int]@);
        assert(count_named(hv.take(i + 1), cl_name) == count_named(hv.take(i as int), cl_name) + (if hv[i as int].name
            == cl_name { 1nat } else { 0nat }));
        assert(count_named(hv.take(i + 1), te_name) == count_named(hv.take(i as int), te_name) + (if hv[i as int].name
            == te_name { 1nat } else { 0nat }));
        let is_cl = named(&headers[i], "content-length");
        assert(hv[i as int] == headers@[i as int]@);
        if is_cl {
            cl = cl + 1;
            if first_cl.is_none() {
                first_cl = Some(i);
            }
        }
        if named(&headers[i], "transfer-encoding") {
            te = te + 1;
            last_te = Some(i);
        }
        i += 1;
    }
    assert(hv.take(headers@.len() as int) =~= hv);
    if cl > 0 && te > 0 {
        return Err(Http1Error::AmbiguousFraming(Ambiguity::LengthAndTransferEncoding));
    }
    if te > 0 {
        let j = match last_te {
            Some(j) => j,
            None => {
                return Err(Http1Error::AmbiguousFraming(Ambiguity::TransferEncodingNotChunked));
            },
        };
        if ends_in_chunked(&headers[j].value) {
            return Ok(Framing::Chunked);
        }
        return Err(Http1Error::AmbiguousFraming(Ambiguity::TransferEncodingNotChunked));
    }
    if cl == 0 {
        return Ok(Framing::UntilClose);
    }
    if cl > 1 {
        return Err(Http1Error::AmbiguousFraming(Ambiguity::RepeatedContentLength));
    }
    let j = match first_cl {
        Some(j) => j,
        None => {
            return Err(Http1Error::AmbiguousFraming(Ambiguity::MalformedContentLength));
        },
    };
    match content_length(&headers[j].value) {
        Ok(n) => Ok(Framing::Length(n)),
        Err(e) => Err(e),
    }
}

/// The length a `Content-Length` value declares.
fn content_length(value: &String) -> (r: Result<usize, Http1Error>)
    ensures
        match r {
            Ok(n) => length_of(value@) == Ok::<usize, Http1Error>(n),
            Err(e) => length_of(value@) == Err::<usize, Http1Error>(e),
        },
{
    let v = chars_of(value.as_str());
    assert(v@.subrange(0, v@.len() as int) =~= v@);
    if v.len() == 0 {
        return Err(Http1Error::AmbiguousFraming(Ambiguity::MalformedContentLength));
    }
    let mut k: usize = 0;
    while k < v.len()
        invariant
            k <= v@.len(),
            v@ == value@,
            forall|m: int| 0 <= m < k ==> crate::numbers::is_digit(#[trigger] v@[m]),
        decreases v@.len() - k,
    {
        if !('0' <= v[k] && v[k] <= '9') {
            return Err(Http1Error::AmbiguousFraming(Ambiguity::MalformedContentLength));
        }
        k += 1;
    }
    match parse_unsigned_window(&v, 0, v.len(), usize::MAX as u64) {
        None => Err(Http1Error::TooLarge { what: "content-length" }),
        Some(n) => {
            if n > MAX_BODY_BYTES as u64 {
                Err(Http1Error::TooLarge { what: "content-length" })
            } else {
                Ok(n as usize)
            }
        },
    }
}

/// Whether the last coding of a `Transfer-Encoding` value is `chunked`.
fn ends_in_chunked(value: &String) -> (r: bool)
    ensures
        r == (final_coding(value@) == "chunked"@),
{
    let v = chars_of(value.as_str());
    let start = match rfind_in(&v, 0, v.len(), ',') {
        Some(k) => k + 1,
        None => 0,
    };
    assert(v@.subrange(0, v@.len() as int) =~= v@);
    assert(start > 0 ==> v@.skip(start as int) =~= v@.subrange(start as int, v@.len() as int));
    let (ta, tb) = trim_window(&v, start, v.len());
    let coding = lower_window(&v, ta, tb);
    vec_eq(&coding, &chars_of("chunked"))
}

#[verifier::loop_isolation(false)]
/// Parse a response head from `bytes`: the head, and how many bytes it took,
/// so the caller knows where the body starts. An incomplete head is
/// `Truncated`, never `None`, so a caller cannot mistake a malformed response
/// for one still arriving.
pub fn parse_response_head(bytes: &[u8]) -> (r: Result<(ResponseHead, usize), Http1Error>)
    ensures
        match r {
            Ok((head, n)) => head_of(bytes@) == Ok::<(ResponseHeadView, int), Http1Error>((head@, n as int)),
            Err(e) => head_of(bytes@) == Err::<(ResponseHeadView, int), Http1Error>(e),
        },
{
    assert(bytes@.skip(0) =~= bytes@);
    let (line_end, used) = match read_line(bytes, 0, MAX_STATUS_LINE, "status line") {
        Ok(p) => p,
        Err(e) => {
            return Err(e);
        },
    };
    let status = match parse_status_line(bytes, 0, line_end) {
        Ok(s) => s,
        Err(e) => {
            return Err(e);
        },
    };
    let total = bytes.len();
    let mut headers: Vec<Header> = Vec::new();
    let mut offset = used;
    assert(header_views(headers@) =~= Seq::<HeaderView>::empty());
    loop
        invariant
            offset <= bytes@.len(),
            total == bytes@.len(),
            headers@.len() <= MAX_HEADERS,
            headers_from(bytes@, used as int, Seq::empty()) == headers_from(bytes@, offset as int, header_views(headers@)),
        decreases bytes@.len() - offset,
    {
        let ghost acc = header_views(headers@);
        let (line_end, consumed) = match read_line(bytes, offset, MAX_HEADER_LINE, "header line") {
            Ok(p) => p,
            Err(e) => {
                return Err(e);
            },
        };
        let ghost line = bytes@.subrange(offset as int, line_end as int);
        let line_start = offset;
        offset = offset + consumed;
        if line_end == line_start {
            break;
        }
        if headers.len() >= MAX_HEADERS {
            return Err(Http1Error::TooLarge { what: "header count" });
        }
        let h = match parse_header(bytes, line_start, line_end) {
            Ok(h) => h,
            Err(e) => {
                return Err(e);
            },
        };
        let ghost hview = h@;
        headers.push(h);
        proof {
            lemma_find_byte(bytes@.skip(line_start as int), 10);
            assert(header_views(headers@) =~= acc.push(hview));
        }
    }
    let framing = match determine_framing(status, &headers) {
        Ok(f) => f,
        Err(e) => {
            return Err(e);
        },
    };
    Ok((ResponseHead { status, headers, framing }, offset))
}

impl ResponseHead {
    /// The first value for a field name, which must already be lowercase.
    pub fn header(&self, name: &str) -> (r: Option<&str>)
        ensures
            match first_named(self@.headers, name@) {
                Some(h) => r matches Some(v) && v@ == h.value,
                None => r is None,
            },
    {
        let ghost hv = header_views(self.headers@);
        let want = chars_of(name);
        let mut i: usize = 0;
        assert(hv.take(0) =~= Seq::<HeaderView>::empty());
        while i < self.headers.len()
            invariant
                i <= self.headers@.len(),
                hv == header_views(self.headers@),
                want@ == name@,
                first_named(hv.take(i as int), name@) is None,
            decreases self.headers@.len() - i,
        {
            assert(hv.take(i + 1).drop_last() =~= hv.take(i as int));
            assert(hv.take(i + 1).last() == self.headers@[i as int]@);
            if vec_eq(&chars_of(self.headers[i].name.as_str()), &want) {
                proof {
                    lemma_first_named_prefix(hv, name@, i + 1);
                }
                return Some(self.headers[i].value.as_str());
            }
            i += 1;
        }
        assert(hv.take(self.headers@.len() as int) =~= hv);
        None
    }
}

/// Once a prefix has a first header of a name, longer prefixes have the same.
proof fn lemma_first_named_prefix(hs: Seq<HeaderView>, n: Seq<char>, i: int)
    requires
        0 <= i <= hs.len(),
        first_named(hs.take(i), n) is Some,
    ensures
        first_named(hs, n) == first_named(hs.take(i), n),
    decreases hs.len() - i,
{
    if i < hs.len() {
        assert(hs.take(i + 1).drop_last() =~= hs.take(i));
        lemma_first_named_prefix(hs, n, i + 1);
    } else {
        assert(hs.take(i) =~= hs);
    }
}

/// The size field of a chunk-size line: what comes before the first `;`.
/// A chunk extension after it is ignored.
pub open spec fn size_field(line: Seq<u8>) -> Seq<u8> {
    let k = find_byte(line, 59);
    if k < 0 {
        line
    } else {
        line.take(k)
    }
}

/// A hexadecimal digit.
pub open spec fn is_hex_byte(b: u8) -> bool {
    (48 <= b <= 57) || (97 <= b <= 102) || (65 <= b <= 70)
}

/// The value of one hexadecimal digit.
pub open spec fn hex_val(b: u8) -> int {
    if 48 <= b <= 57 {
        b - 48
    } else if 97 <= b <= 102 {
        b - 97 + 10
    } else if 65 <= b <= 70 {
        b - 65 + 10
    } else {
        0
    }
}

/// The value of a string of hexadecimal digits.
pub open spec fn hex_value(s: Seq<u8>) -> int
    decreases s.len(),
{
    if s.len() == 0 {
        0
    } else {
        hex_value(s.drop_last()) * 16 + hex_val(s.last())
    }
}

/// `16` to the power `n`.
pub open spec fn pow16(n: nat) -> int
    decreases n,
{
    if n == 0 {
        1
    } else {
        16 * pow16((n - 1) as nat)
    }
}

/// A chunk size: after trimming ASCII white space, one to sixteen
/// hexadecimal digits with no sign, prefix or other decoration.
pub open spec fn chunk_size_of(field: Seq<u8>) -> Result<int, Http1Error> {
    let f = trim_ascii(field);
    if f.len() == 0 || f.len() > 16 || exists|j: int| 0 <= j < f.len() && !is_hex_byte(#[trigger] f[j]) {
        Err(Http1Error::AmbiguousFraming(Ambiguity::MalformedChunkSize))
    } else if hex_value(f) > usize::MAX {
        Err(Http1Error::TooLarge { what: "chunk size" })
    } else {
        Ok(hex_value(f))
    }
}

/// The trailer lines from `b[off..]` up to the blank line, read and
/// discarded; `body` is what has been decoded.
pub open spec fn trailers_from(b: Seq<u8>, off: int, body: Seq<u8>) -> Result<(Seq<u8>, int), Http1Error>
    decreases b.len() - off,
{
    if off < 0 || off > b.len() {
        Err(Http1Error::Truncated)
    } else {
        match line_of(b.skip(off), MAX_HEADER_LINE as int, "trailer") {
            Err(e) => Err(e),
            Ok((t, used)) => if t.len() == 0 {
                Ok((body, off + used))
            } else {
                proof {
                    lemma_find_byte(b.skip(off), 10);
                }
                trailers_from(b, off + used, body)
            },
        }
    }
}

/// The chunked body from `b[off..]`, after `body`: the decoded bytes and how
/// far the input was consumed.
pub open spec fn chunked_from(b: Seq<u8>, off: int, body: Seq<u8>) -> Result<(Seq<u8>, int), Http1Error>
    decreases b.len() - off,
{
    if off < 0 || off > b.len() {
        Err(Http1Error::Truncated)
    } else {
        match line_of(b.skip(off), MAX_HEADER_LINE as int, "chunk size line") {
            Err(e) => Err(e),
            Ok((line, used)) => {
                let off1 = off + used;
                match chunk_size_of(size_field(line)) {
                    Err(e) => Err(e),
                    Ok(size) => if size == 0 {
                        trailers_from(b, off1, body)
                    } else if size > MAX_CHUNK_BYTES {
                        Err(Http1Error::TooLarge { what: "chunk" })
                    } else if body.len() + size > MAX_BODY_BYTES {
                        Err(Http1Error::TooLarge { what: "body" })
                    } else if off1 + size > b.len() {
                        Err(Http1Error::Truncated)
                    } else {
                        let off2 = off1 + size;
                        match line_of(b.skip(off2), 2, "chunk terminator") {
                            Err(e) => Err(e),
                            Ok((term, tl)) => if term.len() > 0 {
                                Err(Http1Error::AmbiguousFraming(Ambiguity::MalformedChunkSize))
                            } else {
                                proof {
                                    lemma_find_byte(b.skip(off), 10);
                                    lemma_find_byte(b.skip(off2), 10);
                                    lemma_hex_value_nonneg(trim_ascii(size_field(line)));
                                }
                                chunked_from(b, off2 + tl, body + b.subrange(off1, off2))
                            },
                        }
                    },
                }
            },
        }
    }
}

/// A hexadecimal value is never negative.
pub proof fn lemma_hex_value_nonneg(s: Seq<u8>)
    ensures
        hex_value(s) >= 0,
    decreases s.len(),
{
    if s.len() > 0 {
        lemma_hex_value_nonneg(s.drop_last());
    }
}

/// Powers of sixteen grow with the exponent.
proof fn lemma_pow16_mono(a: nat, b: nat)
    requires
        a <= b,
    ensures
        1 <= pow16(a) <= pow16(b),
    decreases b,
{
    if b > 0 {
        if a < b {
            lemma_pow16_mono(a, (b - 1) as nat);
        } else {
            lemma_pow16_mono((b - 1) as nat, (b - 1) as nat);
        }
    }
}

/// Sixteen hexadecimal digits fill 64 bits.
proof fn lemma_pow16_16()
    ensures
        pow16(16) == 0x1_0000_0000_0000_0000,
{
    reveal_with_fuel(pow16, 17);
}

/// The chunk size in the field `b[lo..hi]`.
#[verifier::loop_isolation(false)]
fn parse_chunk_size(b: &[u8], lo: usize, hi: usize) -> (r: Result<usize, Http1Error>)
    requires
        lo <= hi <= b@.len(),
    ensures
        match r {
            Ok(n) => chunk_size_of(b@.subrange(lo as int, hi as int)) == Ok::<int, Http1Error>(n as int),
            Err(e) => chunk_size_of(b@.subrange(lo as int, hi as int)) == Err::<int, Http1Error>(e),
        },
{
    let (a, e) = trim_ascii_window(b, lo, hi);
    let ghost f = b@.subrange(a as int, e as int);
    if a == e || e - a > 16 {
        return Err(Http1Error::AmbiguousFraming(Ambiguity::MalformedChunkSize));
    }
    let mut value: u128 = 0;
    let mut i = a;
    assert(f.take(0) =~= Seq::<u8>::empty());
    while i < e
        invariant
            a <= i <= e <= b@.len(),
            e - a <= 16,
            f == b@.subrange(a as int, e as int),
            forall|j: int| 0 <= j < i - a ==> is_hex_byte(#[trigger] f[j]),
            value == hex_value(f.take(i - a)),
            value < pow16((i - a) as nat),
        decreases e - i,
    {
        let c = b[i];
        let digit: u128 = if 48 <= c && c <= 57 {
            (c - 48) as u128
        } else if 97 <= c && c <= 102 {
            (c - 97 + 10) as u128
        } else if 65 <= c && c <= 70 {
            (c - 65 + 10) as u128
        } else {
            assert(!is_hex_byte(f[i - a]));
            return Err(Http1Error::AmbiguousFraming(Ambiguity::MalformedChunkSize));
        };
        proof {
            lemma_pow16_mono((i - a) as nat, 16);
            lemma_pow16_16();
            assert(f.take(i - a + 1).drop_last() =~= f.take(i - a));
        }
        value = value * 16 + digit;
        i += 1;
    }
    assert(f.take(e - a) =~= f);
    if value > usize::MAX as u128 {
        return Err(Http1Error::TooLarge { what: "chunk size" });
    }
    Ok(value as usize)
}

/// Where the size field of the line `b[lo..hi]` ends: at its first `;`.
fn size_field_end(b: &[u8], lo: usize, hi: usize) -> (r: usize)
    requires
        lo <= hi <= b@.len(),
    ensures
        lo <= r <= hi,
        b@.subrange(lo as int, r as int) == size_field(b@.subrange(lo as int, hi as int)),
{
    match find_byte_in(b, lo, hi, 59) {
        Some(k) => {
            assert(b@.subrange(lo as int, hi as int).take(k as int) =~= b@.subrange(lo as int, lo + k));
            lo + k
        },
        None => hi,
    }
}

/// Decode a chunked body: the decoded bytes and how many input bytes were
/// consumed. Trailers are read and discarded; nothing in them is honoured.
#[verifier::loop_isolation(false)]
pub fn decode_chunked(bytes: &[u8]) -> (r: Result<(Vec<u8>, usize), Http1Error>)
    ensures
        match r {
            Ok((body, n)) => chunked_from(bytes@, 0, Seq::empty()) == Ok::<(Seq<u8>, int), Http1Error>((body@, n as int)),
            Err(e) => chunked_from(bytes@, 0, Seq::empty()) == Err::<(Seq<u8>, int), Http1Error>(e),
        },
{
    let total = bytes.len();
    let mut body: Vec<u8> = Vec::new();
    let mut offset: usize = 0;
    assert(body@ =~= Seq::<u8>::empty());
    loop
        invariant
            offset <= bytes@.len(),
            total == bytes@.len(),
            body@.len() <= MAX_BODY_BYTES,
            chunked_from(bytes@, 0, Seq::empty()) == chunked_from(bytes@, offset as int, body@),
        decreases bytes@.len() - offset,
    {
        let (line_end, used) = match read_line(bytes, offset, MAX_HEADER_LINE, "chunk size line") {
            Ok(p) => p,
            Err(e) => {
                return Err(e);
            },
        };
        let line_start = offset;
        offset = offset + used;
        let field_end = size_field_end(bytes, line_start, line_end);
        let size = match parse_chunk_size(bytes, line_start, field_end) {
            Ok(n) => n,
            Err(e) => {
                return Err(e);
            },
        };
        if size == 0 {
            let ghost mark = offset;
            loop
                invariant
                    line_start < mark <= offset <= bytes@.len(),
                    total == bytes@.len(),
                    trailers_from(bytes@, mark as int, body@) == trailers_from(bytes@, offset as int, body@),
                decreases bytes@.len() - offset,
            {
                let (t_end, t_used) = match read_line(bytes, offset, MAX_HEADER_LINE, "trailer") {
                    Ok(p) => p,
                    Err(e) => {
                        return Err(e);
                    },
                };
                let t_start = offset;
                offset = offset + t_used;
                if t_end == t_start {
                    return Ok((body, offset));
                }
            }
        }
        if size > MAX_CHUNK_BYTES {
            return Err(Http1Error::TooLarge { what: "chunk" });
        }
        if body.len() + size > MAX_BODY_BYTES {
            return Err(Http1Error::TooLarge { what: "body" });
        }
        if size > total - offset {
            return Err(Http1Error::Truncated);
        }
        let mut chunk = bytes_window(bytes, offset, offset + size);
        let ghost before = body@;
        body.append(&mut chunk);
        offset = offset + size;
        let (term_end, term_used) = match read_line(bytes, offset, 2, "chunk terminator") {
            Ok(p) => p,
            Err(e) => {
                return Err(e);
            },
        };
        if term_end != offset {
            return Err(Http1Error::AmbiguousFraming(Ambiguity::MalformedChunkSize));
        }
        offset = offset + term_used;
    }
}

/// What a call of `ChunkedDecoder::push` does: its result, and the decoder's
/// position, body and completeness afterwards.
pub struct PushOutcome {
    pub result: Result<bool, Http1Error>,
    pub consumed: int,
    pub body: Seq<u8>,
    pub complete: bool,
}

/// The decoder stays where it is, reporting `result`.
pub open spec fn stay(result: Result<bool, Http1Error>, consumed: int, body: Seq<u8>) -> PushOutcome {
    PushOutcome { result, consumed, body, complete: false }
}

/// The trailers from `b[off..]`, for a decoder positioned at `consumed`
/// whose terminating chunk has been read: complete once the blank line has
/// arrived, and otherwise waiting where it was.
pub open spec fn trailers_push(b: Seq<u8>, off: int, body: Seq<u8>, consumed: int) -> PushOutcome
    decreases b.len() - off,
{
    if off < 0 || off > b.len() {
        stay(Ok(false), consumed, body)
    } else {
        match line_of(b.skip(off), MAX_HEADER_LINE as int, "trailer") {
            Err(Http1Error::Truncated) => stay(Ok(false), consumed, body),
            Err(e) => stay(Err(e), consumed, body),
            Ok((t, used)) => if t.len() == 0 {
                PushOutcome { result: Ok(true), consumed: off + used, body, complete: true }
            } else {
                proof {
                    lemma_find_byte(b.skip(off), 10);
                }
                trailers_push(b, off + used, body, consumed)
            },
        }
    }
}

/// What pushing the input `b` does to a decoder positioned at `consumed`
/// with `body` decoded: each whole chunk that has arrived is taken, a chunk
/// not yet whole is waited for, and a malformed or oversized one is refused.
pub open spec fn push_from(b: Seq<u8>, consumed: int, body: Seq<u8>) -> PushOutcome
    decreases b.len() - consumed,
{
    if consumed < 0 || consumed >= b.len() {
        stay(Ok(false), consumed, body)
    } else {
        match line_of(b.skip(consumed), MAX_HEADER_LINE as int, "chunk size line") {
            Err(Http1Error::Truncated) => stay(Ok(false), consumed, body),
            Err(e) => stay(Err(e), consumed, body),
            Ok((line, hl)) => match chunk_size_of(size_field(line)) {
                Err(e) => stay(Err(e), consumed, body),
                Ok(size) => {
                    let data_at = consumed + hl;
                    let data_end = data_at + size;
                    if size == 0 {
                        trailers_push(b, data_at, body, consumed)
                    } else if size > MAX_CHUNK_BYTES {
                        stay(Err(Http1Error::TooLarge { what: "chunk" }), consumed, body)
                    } else if body.len() + size > MAX_BODY_BYTES {
                        stay(Err(Http1Error::TooLarge { what: "body" }), consumed, body)
                    } else if data_end > usize::MAX {
                        stay(Err(Http1Error::TooLarge { what: "chunked body" }), consumed, body)
                    } else if data_end > b.len() {
                        stay(Ok(false), consumed, body)
                    } else {
                        match line_of(b.skip(data_end), 2, "chunk terminator") {
                            Err(Http1Error::Truncated) => stay(Ok(false), consumed, body),
                            Err(e) => stay(Err(e), consumed, body),
                            Ok((term, tl)) => if term.len() > 0 {
                                stay(Err(Http1Error::AmbiguousFraming(Ambiguity::MalformedChunkSize)), consumed, body)
                            } else {
                                proof {
                                    lemma_find_byte(b.skip(consumed), 10);
                                    lemma_find_byte(b.skip(data_end), 10);
                                    lemma_hex_value_nonneg(trim_ascii(size_field(line)));
                                }
                                push_from(b, data_end + tl, body + b.subrange(data_at, data_end))
                            },
                        }
                    }
                },
            },
        }
    }
}

/// What a [`ChunkedDecoder`] holds: the body decoded so far, how much input
/// it has consumed, and whether the terminating chunk has been seen.
pub struct DecoderView {
    pub body: Seq<u8>,
    pub consumed: int,
    pub complete: bool,
}

/// An incremental chunked-body decoder. It keeps its position, so each call
/// costs only the bytes that are new: re-decoding a growing buffer from the
/// start would be quadratic in the body's length, at a cost the server
/// chooses.
pub struct ChunkedDecoder {
    body: Vec<u8>,
    consumed: usize,
    complete: bool,
}

impl View for ChunkedDecoder {
    type V = DecoderView;

    closed spec fn view(&self) -> DecoderView {
        DecoderView { body: self.body@, consumed: self.consumed as int, complete: self.complete }
    }
}

impl ChunkedDecoder {
    /// A decoder positioned at the start of a body.
    pub fn new() -> (r: Self)
        ensures
            r@ == (DecoderView { body: Seq::empty(), consumed: 0, complete: false }),
    {
        ChunkedDecoder { body: Vec::new(), consumed: 0, complete: false }
    }

    /// How many input bytes have been consumed.
    pub fn consumed(&self) -> (r: usize)
        ensures
            r == self@.consumed,
    {
        self.consumed
    }

    /// Whether the terminating zero-length chunk has been seen.
    pub fn is_complete(&self) -> (r: bool)
        ensures
            r == self@.complete,
    {
        self.complete
    }

    /// The decoded body.
    pub fn into_body(self) -> (r: Vec<u8>)
        ensures
            r@ == self@.body,
    {
        self.body
    }

    /// Decode whatever is newly available in `input`, the whole body region
    /// received so far; returns whether the body is complete. Once complete,
    /// the decoder stays so.
    #[verifier::loop_isolation(false)]
    pub fn push(&mut self, input: &[u8]) -> (r: Result<bool, Http1Error>)
        ensures
            old(self)@.complete ==> r == Ok::<bool, Http1Error>(true) && final(self)@ == old(self)@,
            !old(self)@.complete ==> ({
                let o = push_from(input@, old(self)@.consumed, old(self)@.body);
                &&& r == o.result
                &&& final(self)@ == (DecoderView { body: o.body, consumed: o.consumed, complete: o.complete })
            }),
            final(self)@.consumed >= old(self)@.consumed,
            final(self)@.consumed <= (if old(self)@.consumed >= input@.len() {
                old(self)@.consumed
            } else {
                input@.len() as int
            }),
            final(self)@.body.len() >= old(self)@.body.len(),
            final(self)@.body.subrange(0, old(self)@.body.len() as int) == old(self)@.body,
            old(self)@.body.len() <= MAX_BODY_BYTES ==> final(self)@.body.len() <= MAX_BODY_BYTES,
            r matches Ok(done) ==> done == final(self)@.complete,
    {
        if self.complete {
            proof {
                assert(self@.body.subrange(0, self@.body.len() as int) =~= self@.body);
            }
            return Ok(true);
        }
        proof {
            lemma_push_forward(input@, self@.consumed, self@.body);
            lemma_push_bounded(input@, self@.consumed, self@.body);
            lemma_push_answer(input@, self@.consumed, self@.body);
        }
        let total = input.len();
        loop
            invariant
                total == input@.len(),
                !self.complete,
                push_from(input@, old(self)@.consumed, old(self)@.body) == push_from(input@, self@.consumed, self@.body),
            decreases input@.len() - self.consumed,
        {
            if self.consumed >= total {
                return Ok(false);
            }
            let start = self.consumed;
            let (line_end, header_len) = match read_line(input, start, MAX_HEADER_LINE, "chunk size line") {
                Ok(p) => p,
                Err(Http1Error::Truncated) => {
                    return Ok(false);
                },
                Err(e) => {
                    return Err(e);
                },
            };
            let field_end = size_field_end(input, start, line_end);
            let size = match parse_chunk_size(input, start, field_end) {
                Ok(n) => n,
                Err(e) => {
                    return Err(e);
                },
            };
            let data_at = start + header_len;
            if size == 0 {
                let mut offset = data_at;
                loop
                    invariant
                        total == input@.len(),
                        !self.complete,
                        self.consumed == start,
                        offset <= input@.len(),
                        push_from(input@, old(self)@.consumed, old(self)@.body) == trailers_push(
                            input@,
                            offset as int,
                            self@.body,
                            start as int,
                        ),
                    decreases input@.len() - offset,
                {
                    let (t_end, used) = match read_line(input, offset, MAX_HEADER_LINE, "trailer") {
                        Ok(p) => p,
                        Err(Http1Error::Truncated) => {
                            return Ok(false);
                        },
                        Err(e) => {
                            return Err(e);
                        },
                    };
                    let t_start = offset;
                    offset = offset + used;
                    if t_end == t_start {
                        self.consumed = offset;
                        self.complete = true;
                        return Ok(true);
                    }
                }
            }
            if size > MAX_CHUNK_BYTES {
                return Err(Http1Error::TooLarge { what: "chunk" });
            }
            if self.body.len() > MAX_BODY_BYTES - size {
                return Err(Http1Error::TooLarge { what: "body" });
            }
            if size > usize::MAX - data_at {
                return Err(Http1Error::TooLarge { what: "chunked body" });
            }
            let data_end = data_at + size;
            if data_end > total {
                return Ok(false);
            }
            let (term_end, term_len) = match read_line(input, data_end, 2, "chunk terminator") {
                Ok(p) => p,
                Err(Http1Error::Truncated) => {
                    return Ok(false);
                },
                Err(e) => {
                    return Err(e);
                },
            };
            if term_end != data_end {
                return Err(Http1Error::AmbiguousFraming(Ambiguity::MalformedChunkSize));
            }
            let mut chunk = bytes_window(input, data_at, data_end);
            self.body.append(&mut chunk);
            self.consumed = data_end + term_len;
        }
    }
}

/// The incremental decoder agrees with the one-shot one: a body that
/// [`decode_chunked`] decodes, pushed whole into a fresh decoder, completes
/// with the same bytes at the same position.
pub proof fn lemma_decoders_agree(b: Seq<u8>)
    requires
        b.len() <= usize::MAX,
        chunked_from(b, 0, Seq::empty()) is Ok,
    ensures
        ({
            let (body, n) = chunked_from(b, 0, Seq::empty())->Ok_0;
            push_from(b, 0, Seq::empty()) == (PushOutcome { result: Ok(true), consumed: n, body, complete: true })
        }),
{
    lemma_agree_from(b, 0, Seq::empty());
}

proof fn lemma_agree_trailers(b: Seq<u8>, off: int, body: Seq<u8>, consumed: int)
    requires
        trailers_from(b, off, body) is Ok,
    ensures
        ({
            let (res, n) = trailers_from(b, off, body)->Ok_0;
            trailers_push(b, off, body, consumed) == (PushOutcome { result: Ok(true), consumed: n, body: res, complete: true })
        }),
    decreases b.len() - off,
{
    match line_of(b.skip(off), MAX_HEADER_LINE as int, "trailer") {
        Ok((t, used)) => {
            if t.len() != 0 {
                lemma_find_byte(b.skip(off), 10);
                lemma_agree_trailers(b, off + used, body, consumed);
            }
        },
        Err(e) => {},
    }
}

proof fn lemma_agree_from(b: Seq<u8>, off: int, body: Seq<u8>)
    requires
        b.len() <= usize::MAX,
        chunked_from(b, off, body) is Ok,
    ensures
        ({
            let (res, n) = chunked_from(b, off, body)->Ok_0;
            push_from(b, off, body) == (PushOutcome { result: Ok(true), consumed: n, body: res, complete: true })
        }),
    decreases b.len() - off,
{
    lemma_find_byte(b.skip(off), 10);
    if off == b.len() {
        assert(b.skip(off) =~= Seq::<u8>::empty());
    }
    match line_of(b.skip(off), MAX_HEADER_LINE as int, "chunk size line") {
        Ok((line, used)) => {
            match chunk_size_of(size_field(line)) {
                Ok(size) => {
                    lemma_hex_value_nonneg(trim_ascii(size_field(line)));
                    if size == 0 {
                        lemma_agree_trailers(b, off + used, body, off);
                    } else {
                        let off2 = off + used + size;
                        lemma_find_byte(b.skip(off2), 10);
                        match line_of(b.skip(off2), 2, "chunk terminator") {
                            Ok((term, tl)) => {
                                lemma_agree_from(b, off2 + tl, body + b.subrange(off + used, off2));
                            },
                            Err(e) => {},
                        }
                    }
                },
                Err(e) => {},
            }
        },
        Err(e) => {},
    }
}

/// A line feed found in `s` is found at the same place with anything
/// appended.
proof fn lemma_find_byte_append(s: Seq<u8>, t: Seq<u8>, x: u8)
    requires
        find_byte(s, x) >= 0,
    ensures
        find_byte(s + t, x) == find_byte(s, x),
    decreases s.len(),
{
    lemma_find_byte(s, x);
    if s[0] != x {
        assert((s + t).drop_first() =~= s.drop_first() + t);
        lemma_find_byte_append(s.drop_first(), t, x);
    }
}

/// A line read whole from `s` is read the same with anything appended, and
/// it lies within `s`.
proof fn lemma_line_append(s: Seq<u8>, t: Seq<u8>, limit: int, what: &'static str)
    requires
        line_of(s, limit, what) is Ok,
    ensures
        line_of(s, limit, what)->Ok_0.1 <= s.len(),
        line_of(s + t, limit, what) == line_of(s, limit, what),
{
    let end = find_byte(s, 10);
    lemma_find_byte(s, 10);
    lemma_find_byte_append(s, t, 10);
    assert((s + t).take(end) =~= s.take(end));
    if end > 0 {
        assert((s + t).take(end - 1) =~= s.take(end - 1));
        assert((s + t)[end - 1] == s[end - 1]);
    }
}

/// Header lines read whole from `b` are read the same with anything
/// appended, and end within `b`.
proof fn lemma_headers_append(b: Seq<u8>, t: Seq<u8>, off: int, acc: Seq<HeaderView>)
    requires
        headers_from(b, off, acc) is Ok,
    ensures
        headers_from(b, off, acc)->Ok_0.1 <= b.len(),
        headers_from(b + t, off, acc) == headers_from(b, off, acc),
    decreases b.len() - off,
{
    let w = b.skip(off);
    assert((b + t).skip(off) =~= w + t);
    lemma_line_append(w, t, MAX_HEADER_LINE as int, "header line");
    let (line, used) = line_of(w, MAX_HEADER_LINE as int, "header line")->Ok_0;
    if line.len() != 0 && acc.len() < MAX_HEADERS {
        let h = header_of(line)->Ok_0;
        lemma_find_byte(w, 10);
        lemma_headers_append(b, t, off + used, acc.push(h));
    }
}

/// Trailers read whole from `b` are read the same with anything appended.
proof fn lemma_trailers_append(b: Seq<u8>, t: Seq<u8>, off: int, body: Seq<u8>)
    requires
        trailers_from(b, off, body) is Ok,
    ensures
        trailers_from(b + t, off, body) == trailers_from(b, off, body),
    decreases b.len() - off,
{
    let w = b.skip(off);
    assert((b + t).skip(off) =~= w + t);
    lemma_line_append(w, t, MAX_HEADER_LINE as int, "trailer");
    let (tr, used) = line_of(w, MAX_HEADER_LINE as int, "trailer")->Ok_0;
    if tr.len() != 0 {
        lemma_find_byte(w, 10);
        lemma_trailers_append(b, t, off + used, body);
    }
}

/// A chunked body decoded whole from `b` is decoded the same, to the same
/// length, with anything appended.
pub proof fn lemma_chunked_append(b: Seq<u8>, t: Seq<u8>, off: int, body: Seq<u8>)
    requires
        chunked_from(b, off, body) is Ok,
    ensures
        chunked_from(b + t, off, body) == chunked_from(b, off, body),
    decreases b.len() - off,
{
    let w = b.skip(off);
    assert((b + t).skip(off) =~= w + t);
    lemma_line_append(w, t, MAX_HEADER_LINE as int, "chunk size line");
    let (line, used) = line_of(w, MAX_HEADER_LINE as int, "chunk size line")->Ok_0;
    let off1 = off + used;
    let size = chunk_size_of(size_field(line))->Ok_0;
    lemma_find_byte(w, 10);
    lemma_hex_value_nonneg(trim_ascii(size_field(line)));
    if size == 0 {
        lemma_trailers_append(b, t, off1, body);
    } else {
        let off2 = off1 + size;
        let w2 = b.skip(off2);
        assert((b + t).skip(off2) =~= w2 + t);
        lemma_line_append(w2, t, 2, "chunk terminator");
        let (term, tl) = line_of(w2, 2, "chunk terminator")->Ok_0;
        lemma_find_byte(w2, 10);
        assert((b + t).subrange(off1, off2) =~= b.subrange(off1, off2));
        lemma_chunked_append(b, t, off2 + tl, body + b.subrange(off1, off2));
    }
}

/// Bytes after the blank line that ends a response head never change it:
/// a head parsed from `b` is the same head, of the same length, however
/// `b` is continued, and its length is within `b`.
pub proof fn lemma_head_ignores_what_follows(b: Seq<u8>, x: Seq<u8>)
    requires
        head_of(b) is Ok,
    ensures
        head_of(b)->Ok_0.1 <= b.len(),
        head_of(b + x) == head_of(b),
{
    lemma_line_append(b, x, MAX_STATUS_LINE as int, "status line");
    let (line, off) = line_of(b, MAX_STATUS_LINE as int, "status line")->Ok_0;
    lemma_headers_append(b, x, off, Seq::empty());
}

/// Reading trailers keeps the body, and takes no input beyond what has
/// arrived.
proof fn lemma_trailers_bounded(b: Seq<u8>, off: int, body: Seq<u8>, consumed: int)
    ensures
        trailers_push(b, off, body, consumed).body == body,
        trailers_push(b, off, body, consumed).consumed <= (if consumed >= b.len() { consumed } else { b.len() as int }),
    decreases b.len() - off,
{
    if 0 <= off <= b.len() {
        let w = b.skip(off);
        lemma_find_byte(w, 10);
        match line_of(w, MAX_HEADER_LINE as int, "trailer") {
            Ok((t, used)) => {
                if t.len() != 0 {
                    lemma_trailers_bounded(b, off + used, body, consumed);
                }
            },
            Err(e) => {},
        }
    }
}

/// Reading trailers answers `Ok(b)` only with `b` saying whether the body
/// is now complete.
proof fn lemma_trailers_answer(b: Seq<u8>, off: int, body: Seq<u8>, consumed: int)
    ensures
        trailers_push(b, off, body, consumed).result matches Ok(done) ==> done == trailers_push(b, off, body, consumed).complete,
    decreases b.len() - off,
{
    if 0 <= off <= b.len() {
        let w = b.skip(off);
        lemma_find_byte(w, 10);
        match line_of(w, MAX_HEADER_LINE as int, "trailer") {
            Ok((t, used)) => {
                if t.len() != 0 {
                    lemma_trailers_answer(b, off + used, body, consumed);
                }
            },
            Err(e) => {},
        }
    }
}

/// A push answers `Ok(b)` only with `b` saying whether the body is now
/// complete: `Ok(false)` is "more is needed", never a refusal.
pub proof fn lemma_push_answer(b: Seq<u8>, consumed: int, body: Seq<u8>)
    ensures
        push_from(b, consumed, body).result matches Ok(done) ==> done == push_from(b, consumed, body).complete,
    decreases b.len() - consumed,
{
    if 0 <= consumed < b.len() {
        let w = b.skip(consumed);
        lemma_find_byte(w, 10);
        match line_of(w, MAX_HEADER_LINE as int, "chunk size line") {
            Ok((line, hl)) => {
                match chunk_size_of(size_field(line)) {
                    Ok(size) => {
                        lemma_hex_value_nonneg(trim_ascii(size_field(line)));
                        let data_at = consumed + hl;
                        let data_end = data_at + size;
                        if size == 0 {
                            lemma_trailers_answer(b, data_at, body, consumed);
                        } else if size <= MAX_CHUNK_BYTES && body.len() + size <= MAX_BODY_BYTES && data_end
                            <= usize::MAX && data_end <= b.len() {
                            let w2 = b.skip(data_end);
                            lemma_find_byte(w2, 10);
                            match line_of(w2, 2, "chunk terminator") {
                                Ok((term, tl)) => {
                                    if term.len() == 0 {
                                        lemma_push_answer(b, data_end + tl, body + b.subrange(data_at, data_end));
                                    }
                                },
                                Err(e) => {},
                            }
                        }
                    },
                    Err(e) => {},
                }
            },
            Err(e) => {},
        }
    }
}

/// One push takes no input beyond what has arrived, and only adds to the
/// body decoded so far, which never grows past [`MAX_BODY_BYTES`].
pub proof fn lemma_push_bounded(b: Seq<u8>, consumed: int, body: Seq<u8>)
    ensures
        push_from(b, consumed, body).consumed <= (if consumed >= b.len() { consumed } else { b.len() as int }),
        push_from(b, consumed, body).body.len() >= body.len(),
        push_from(b, consumed, body).body.subrange(0, body.len() as int) == body,
        body.len() <= MAX_BODY_BYTES ==> push_from(b, consumed, body).body.len() <= MAX_BODY_BYTES,
    decreases b.len() - consumed,
{
    let o = push_from(b, consumed, body);
    if 0 <= consumed < b.len() {
        let w = b.skip(consumed);
        lemma_find_byte(w, 10);
        match line_of(w, MAX_HEADER_LINE as int, "chunk size line") {
            Ok((line, hl)) => {
                match chunk_size_of(size_field(line)) {
                    Ok(size) => {
                        lemma_hex_value_nonneg(trim_ascii(size_field(line)));
                        let data_at = consumed + hl;
                        let data_end = data_at + size;
                        if size == 0 {
                            lemma_trailers_bounded(b, data_at, body, consumed);
                        } else if size <= MAX_CHUNK_BYTES && body.len() + size <= MAX_BODY_BYTES && data_end
                            <= usize::MAX && data_end <= b.len() {
                            let w2 = b.skip(data_end);
                            lemma_find_byte(w2, 10);
                            match line_of(w2, 2, "chunk terminator") {
                                Ok((term, tl)) => {
                                    if term.len() == 0 {
                                        let nb = body + b.subrange(data_at, data_end);
                                        lemma_push_bounded(b, data_end + tl, nb);
                                        assert(nb.subrange(0, body.len() as int) =~= body);
                                        assert(o.body.subrange(0, body.len() as int) =~= o.body.subrange(
                                            0,
                                            nb.len() as int,
                                        ).subrange(0, body.len() as int));
                                    }
                                },
                                Err(e) => {},
                            }
                        }
                    },
                    Err(e) => {},
                }
            },
            Err(e) => {},
        }
    }
    assert(o.body.subrange(0, body.len() as int) =~= body);
}

/// A push never moves the decoder backwards: what it has consumed it will not
/// re-scan.
pub proof fn lemma_push_forward(b: Seq<u8>, consumed: int, body: Seq<u8>)
    ensures
        push_from(b, consumed, body).consumed >= consumed,
    decreases b.len() - consumed,
{
    if 0 <= consumed < b.len() {
        lemma_find_byte(b.skip(consumed), 10);
        match line_of(b.skip(consumed), MAX_HEADER_LINE as int, "chunk size line") {
            Ok((line, hl)) => {
                match chunk_size_of(size_field(line)) {
                    Ok(size) => {
                        lemma_hex_value_nonneg(trim_ascii(size_field(line)));
                        let data_at = consumed + hl;
                        let data_end = data_at + size;
                        if size == 0 {
                            lemma_trailers_forward(b, data_at, body, consumed);
                        } else if data_end <= b.len() {
                            lemma_find_byte(b.skip(data_end), 10);
                            match line_of(b.skip(data_end), 2, "chunk terminator") {
                                Ok((term, tl)) => {
                                    lemma_push_forward(b, data_end + tl, body + b.subrange(data_at, data_end));
                                },
                                Err(e) => {},
                            }
                        }
                    },
                    Err(e) => {},
                }
            },
            Err(e) => {},
        }
    }
}

proof fn lemma_trailers_forward(b: Seq<u8>, off: int, body: Seq<u8>, consumed: int)
    requires
        off >= consumed,
    ensures
        trailers_push(b, off, body, consumed).consumed >= consumed,
    decreases b.len() - off,
{
    if 0 <= off <= b.len() {
        lemma_find_byte(b.skip(off), 10);
        match line_of(b.skip(off), MAX_HEADER_LINE as int, "trailer") {
            Ok((t, used)) => {
                if t.len() != 0 {
                    lemma_trailers_forward(b, off + used, body, consumed);
                }
            },
            Err(e) => {},
        }
    }
}

/// The name of a framing ambiguity, as its `Debug` form writes it.
pub open spec fn ambiguity_name(a: Ambiguity) -> Seq<char> {
    match a {
        Ambiguity::LengthAndTransferEncoding => "LengthAndTransferEncoding"@,
        Ambiguity::RepeatedContentLength => "RepeatedContentLength"@,
        Ambiguity::MalformedContentLength => "MalformedContentLength"@,
        Ambiguity::TransferEncodingNotChunked => "TransferEncodingNotChunked"@,
        Ambiguity::MalformedChunkSize => "MalformedChunkSize"@,
    }
}

/// The message a malformed response is shown with.
pub open spec fn http1_error_text(e: Http1Error) -> Seq<char> {
    match e {
        Http1Error::BadStatusLine => "malformed status line"@,
        Http1Error::BadHeader => "malformed header field"@,
        Http1Error::AmbiguousFraming(which) => "ambiguous message framing: "@ + ambiguity_name(which),
        Http1Error::TooLarge { what } => what@ + " exceeded its limit"@,
        Http1Error::Truncated => "the peer closed mid-message"@,
    }
}

impl Http1Error {
    /// The message this error is shown with.
    pub fn to_string(&self) -> (r: String)
        ensures
            r@ == http1_error_text(*self),
    {
        let mut s = String::new();
        match self {
            Http1Error::BadStatusLine => crate::text_ops::push_str(&mut s, "malformed status line"),
            Http1Error::BadHeader => crate::text_ops::push_str(&mut s, "malformed header field"),
            Http1Error::AmbiguousFraming(which) => {
                crate::text_ops::push_str(&mut s, "ambiguous message framing: ");
                let name = match which {
                    Ambiguity::LengthAndTransferEncoding => "LengthAndTransferEncoding",
                    Ambiguity::RepeatedContentLength => "RepeatedContentLength",
                    Ambiguity::MalformedContentLength => "MalformedContentLength",
                    Ambiguity::TransferEncodingNotChunked => "TransferEncodingNotChunked",
                    Ambiguity::MalformedChunkSize => "MalformedChunkSize",
                };
                crate::text_ops::push_str(&mut s, name);
            },
            Http1Error::TooLarge { what } => {
                crate::text_ops::push_str(&mut s, what);
                crate::text_ops::push_str(&mut s, " exceeded its limit");
            },
            Http1Error::Truncated => crate::text_ops::push_str(&mut s, "the peer closed mid-message"),
        }
        s
    }
}

} // verus!
