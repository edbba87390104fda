//! DNS messages, for DNS over HTTPS.
//!
//! A response is bytes a resolver chose, so the parser refuses rather than
//! trusts: no unbounded allocation, no trust in a declared length, and a
//! bound on compression pointers. Two pointers can point at each other, or
//! one at itself; a name follows at most [`MAX_JUMPS`] of them, and only
//! backwards, so a pointer loop written in twenty bytes terminates.
//!
//! Enough to ask "what addresses does this name have", and no more: no
//! DNSSEC, so DoH here buys confidentiality from the network, not
//! authenticity from the resolver.
use vstd::prelude::*;
use vstd::utf8::{decode_utf8, valid_utf8};
use crate::net::bytes::bytes_window;
use crate::net::psl::trim_end_window;
use crate::text_ops::{
    all_ascii, chars_of, push_str, join_dot, lemma_join_push, lemma_join_windows, lower, lower_one, pieces_of, split_bounds,
    split_char, trim_end_char, window_is_ascii, window_vec,
};

verus! {

/// Longest DNS message accepted, in bytes.
pub const MAX_MESSAGE_BYTES: usize = 65536;

/// Longest encoded name, in bytes (RFC 1035).
pub const MAX_NAME_BYTES: usize = 255;

/// Longest single label, in bytes (RFC 1035).
pub const MAX_LABEL_BYTES: usize = 63;

/// How many compression pointers one name may follow.
pub const MAX_JUMPS: usize = 16;

/// Most records read from one message.
pub const MAX_RECORDS: usize = 64;

/// Record types this resolver asks for.
#[derive(Debug, Clone, Copy, PartialEq, Eq, Structural)]
pub enum RecordType {
    /// IPv4 address.
    A,
    /// IPv6 address.
    Aaaa,
}

/// The wire code of a record type.
pub open spec fn type_code(t: RecordType) -> u16 {
    match t {
        RecordType::A => 1,
        RecordType::Aaaa => 28,
    }
}

impl RecordType {
    /// The wire code of this record type.
    pub fn code(self) -> (r: u16)
        ensures
            r == type_code(self),
    {
        match self {
            RecordType::A => 1,
            RecordType::Aaaa => 28,
        }
    }
}

/// What can be wrong with a DNS message.
#[derive(Debug, Clone, PartialEq, Eq)]
pub enum DnsError {
    /// The message ended before the structure did.
    Truncated,
    /// A name, label or record broke a documented bound.
    TooLarge(&'static str),
    /// A compression pointer looped, or pointed forwards.
    BadPointer,
    /// The message was structurally invalid.
    Malformed(&'static str),
    /// The response did not answer the question that was asked.
    WrongQuestion,
    /// The server reported an error code.
    ServerFailure(u8),
}

/// An address a name resolved to, as its octets in network order.
#[derive(Debug, Clone, Copy, PartialEq, Eq)]
pub enum Address {
    /// IPv4.
    V4([u8; 4]),
    /// IPv6.
    V6([u8; 16]),
}

/// The bytes of an ASCII label.
pub open spec fn ascii_bytes(l: Seq<char>) -> Seq<u8> {
    Seq::new(l.len(), |i: int| l[i] as u8)
}

/// The wire form of `labels`, each length-prefixed, then a zero; `encoded`
/// is how many bytes the labels before them took, counting the final zero.
pub open spec fn encode_labels(labels: Seq<Seq<char>>, encoded: int) -> Result<Seq<u8>, DnsError>
    decreases labels.len(),
{
    if labels.len() == 0 {
        Ok(seq![0u8])
    } else {
        let l = labels[0];
        if l.len() == 0 {
            Err(DnsError::Malformed("empty label"))
        } else if l.len() > MAX_LABEL_BYTES {
            Err(DnsError::TooLarge("label"))
        } else if encoded + l.len() + 1 > MAX_NAME_BYTES {
            Err(DnsError::TooLarge("name"))
        } else {
            match encode_labels(labels.drop_first(), encoded + l.len() + 1) {
                Ok(rest) => Ok(seq![l.len() as u8] + ascii_bytes(l) + rest),
                Err(e) => Err(e),
            }
        }
    }
}

/// A name in wire form: trailing dots dropped, ASCII only, non-empty labels
/// of at most 63 bytes, at most 255 bytes in all.
pub open spec fn encode_name_spec(name: Seq<char>) -> Result<Seq<u8>, DnsError> {
    let n = trim_end_char(name, '.');
    if n.len() == 0 {
        Err(DnsError::Malformed("empty name"))
    } else if !all_ascii(n) {
        Err(DnsError::Malformed("name is not ASCII"))
    } else {
        encode_labels(split_char(n, '.'), 1)
    }
}

/// The fixed header of a query: id zero, recursion desired, one question.
pub open spec fn query_header() -> Seq<u8> {
    seq![0u8, 0, 1, 0, 0, 1, 0, 0, 0, 0, 0, 0]
}

/// A query for `name`: the header, the name, the type and class IN.
pub open spec fn query_of(name: Seq<char>, t: RecordType) -> Result<Seq<u8>, DnsError> {
    match encode_name_spec(name) {
        Ok(encoded) => Ok(query_header() + encoded + seq![(type_code(t) / 256) as u8, (type_code(t) % 256) as u8, 0u8, 1u8]),
        Err(e) => Err(e),
    }
}

/// Write the labels `h[bounds[i]..]` in wire form onto `out`.
fn encode_labels_at(h: &Vec<char>, bounds: &Vec<(usize, usize)>, out: &mut Vec<u8>) -> (r: Result<(), DnsError>)
    requires
        pieces_of(h@, '.', split_char(h@, '.'), bounds@),
        all_ascii(h@),
    ensures
        match encode_labels(split_char(h@, '.'), 1) {
            Ok(bytes) => r is Ok && final(out)@ == old(out)@ + bytes,
            Err(e) => r == Err::<(), DnsError>(e),
        },
{
    let ghost labels = split_char(h@, '.');
    let ghost start = out@;
    let mut encoded: usize = 1;
    let mut i: usize = 0;
    let n = bounds.len();
    assert(labels.skip(0) =~= labels);
    while i < n
        invariant
            pieces_of(h@, '.', labels, bounds@),
            labels == split_char(h@, '.'),
            all_ascii(h@),
            n == bounds@.len(),
            i <= n,
            encoded <= MAX_NAME_BYTES,
            match encode_labels(labels, 1) {
                Ok(bytes) => match encode_labels(labels.skip(i as int), encoded as int) {
                    Ok(rest) => bytes == out@.skip(start.len() as int) + rest && out@.len() >= start.len()
                        && out@.take(start.len() as int) == start,
                    Err(_) => false,
                },
                Err(e) => encode_labels(labels.skip(i as int), encoded as int) == Err::<Seq<u8>, DnsError>(e)
                    && out@.len() >= start.len() && out@.take(start.len() as int) == start,
            },
        decreases n - i,
    {
        let (a, b) = bounds[i];
        let ghost l = labels[i as int];
        assert(l == h@.subrange(a as int, b as int));
        assert(labels.skip(i as int)[0] == l);
        assert(labels.skip(i as int).drop_first() =~= labels.skip(i + 1));
        if a == b {
            return Err(DnsError::Malformed("empty label"));
        }
        if b - a > MAX_LABEL_BYTES {
            return Err(DnsError::TooLarge("label"));
        }
        if encoded + (b - a) + 1 > MAX_NAME_BYTES {
            return Err(DnsError::TooLarge("name"));
        }
        encoded = encoded + (b - a) + 1;
        let ghost before = out@;
        out.push((b - a) as u8);
        let mut k = a;
        while k < b
            invariant
                a <= k <= b <= h@.len(),
                all_ascii(h@),
                out@ == before.push((b - a) as u8) + ascii_bytes(h@.subrange(a as int, k as int)),
            decreases b - k,
        {
            out.push(h[k] as u8);
            k += 1;
            assert(out@ =~= before.push((b - a) as u8) + ascii_bytes(h@.subrange(a as int, k as int)));
        }
        proof {
            assert(out@ =~= before + (seq![(l.len()) as u8] + ascii_bytes(l)));
            assert(out@.skip(start.len() as int) =~= before.skip(start.len() as int) + (seq![(l.len()) as u8]
                + ascii_bytes(l)));
            assert(out@.take(start.len() as int) =~= before.take(start.len() as int));
        }
        i += 1;
    }
    assert(labels.skip(n as int) =~= Seq::<Seq<char>>::empty());
    out.push(0);
    proof {
        assert(out@.skip(start.len() as int) =~= out@.drop_last().skip(start.len() as int) + seq![0u8]);
        assert(out@ =~= out@.take(start.len() as int) + out@.skip(start.len() as int));
    }
    Ok(())
}

/// Write `name` in wire form onto `out`.
fn encode_name(name: &str, out: &mut Vec<u8>) -> (r: Result<(), DnsError>)
    ensures
        match encode_name_spec(name@) {
            Ok(bytes) => r is Ok && final(out)@ == old(out)@ + bytes,
            Err(e) => r == Err::<(), DnsError>(e),
        },
{
    let raw = chars_of(name);
    let n = trim_end_window(&raw, '.');
    let h = window_vec(&raw, 0, n);
    if h.len() == 0 {
        return Err(DnsError::Malformed("empty name"));
    }
    assert(h@.subrange(0, h@.len() as int) =~= h@);
    if !window_is_ascii(&h, 0, h.len()) {
        return Err(DnsError::Malformed("name is not ASCII"));
    }
    let bounds = split_bounds(&h, '.');
    encode_labels_at(&h, &bounds, out)
}

/// Build a query for `name`. The transaction id is fixed at zero: over DoH
/// the response is carried by the HTTPS request that asked for it, and zero
/// keeps the message cacheable.
pub fn build_query(name: &str, record: RecordType) -> (r: Result<Vec<u8>, DnsError>)
    ensures
        match r {
            Ok(q) => query_of(name@, record) == Ok::<Seq<u8>, DnsError>(q@),
            Err(e) => query_of(name@, record) == Err::<Seq<u8>, DnsError>(e),
        },
{
    let mut out: Vec<u8> = Vec::new();
    out.push(0);
    out.push(0);
    out.push(1);
    out.push(0);
    out.push(0);
    out.push(1);
    out.push(0);
    out.push(0);
    out.push(0);
    out.push(0);
    out.push(0);
    out.push(0);
    assert(out@ =~= query_header());
    match encode_name(name, &mut out) {
        Ok(()) => {},
        Err(e) => {
            return Err(e);
        },
    }
    let code = record.code();
    let ghost mid = out@;
    out.push((code / 256) as u8);
    out.push((code % 256) as u8);
    out.push(0);
    out.push(1);
    assert(out@ =~= mid + seq![(type_code(record) / 256) as u8, (type_code(record) % 256) as u8, 0u8, 1u8]);
    Ok(out)
}

/// Bytes that are not UTF-8, read with invalid sequences replaced.
pub uninterp spec fn utf8_lossy(bytes: Seq<u8>) -> Seq<char>;

/// A label's bytes read as text: the characters they encode when they are
/// UTF-8, and otherwise what lossy decoding makes of them.
pub open spec fn label_text(bytes: Seq<u8>) -> Seq<char> {
    if valid_utf8(bytes) {
        decode_utf8(bytes)
    } else {
        utf8_lossy(bytes)
    }
}

/// `String::from_utf8_lossy`.
///
/// The contract claims what the standard library documents: valid UTF-8 is
/// taken as the characters it encodes. For other bytes the result is named,
/// and what the replacement of invalid sequences produces is left unsaid.
#[verifier::external_body]
fn string_from_utf8_lossy(bytes: &Vec<u8>) -> (r: String)
    ensures
        valid_utf8(bytes@) ==> r@ == decode_utf8(bytes@),
        !valid_utf8(bytes@) ==> r@ == utf8_lossy(bytes@),
{
    String::from_utf8_lossy(bytes.as_slice()).into_owned()
}

/// Walking a name from `offset`, having followed `jumps` pointers, with
/// `after` the position just past the first pointer, `encoded` bytes of
/// labels read and `labels` so far: the labels, and where the name ends in
/// its original position.
pub open spec fn walk_name(
    m: Seq<u8>,
    offset: int,
    jumps: int,
    after: Option<int>,
    encoded: int,
    labels: Seq<Seq<char>>,
) -> Result<(Seq<Seq<char>>, int), DnsError>
    decreases MAX_JUMPS + 1 - jumps, m.len() - offset,
{
    if offset < 0 || offset >= m.len() {
        Err(DnsError::Truncated)
    } else {
        let length = m[offset];
        if length >= 192 {
            if offset + 1 >= m.len() {
                Err(DnsError::Truncated)
            } else {
                let target = (length - 192) * 256 + m[offset + 1];
                if target >= offset {
                    Err(DnsError::BadPointer)
                } else if jumps + 1 > MAX_JUMPS {
                    Err(DnsError::BadPointer)
                } else {
                    let next_after = match after {
                        Some(a) => Some(a),
                        None => Some(offset + 2),
                    };
                    walk_name(m, target, jumps + 1, next_after, encoded, labels)
                }
            }
        } else if length >= 64 {
            Err(DnsError::Malformed("reserved label bits set"))
        } else if length == 0 {
            Ok(
                (
                    labels,
                    match after {
                        Some(a) => a,
                        None => offset + 1,
                    },
                ),
            )
        } else if encoded + length + 1 > MAX_NAME_BYTES {
            Err(DnsError::TooLarge("name"))
        } else if offset + 1 + length > m.len() {
            Err(DnsError::Truncated)
        } else {
            walk_name(
                m,
                offset + 1 + length,
                jumps,
                after,
                encoded + length + 1,
                labels.push(label_text(m.subrange(offset + 1, offset + 1 + length))),
            )
        }
    }
}

/// The possibly compressed name at `start` of `m`, its labels joined with
/// dots, and the offset just past it in its original position.
pub open spec fn name_at(m: Seq<u8>, start: int) -> Result<(Seq<char>, int), DnsError> {
    match walk_name(m, start, 0, None, 0, Seq::empty()) {
        Ok((labels, end)) => Ok((join_dot(labels), end)),
        Err(e) => Err(e),
    }
}

/// Read a possibly compressed name at `start`: the name, and the offset just
/// past it in its original position, not past whatever a pointer led to.
pub fn read_name(message: &[u8], start: usize) -> (r: Result<(String, usize), DnsError>)
    ensures
        match r {
            Ok((name, end)) => name_at(message@, start as int) == Ok::<(Seq<char>, int), DnsError>((name@, end as int)),
            Err(e) => name_at(message@, start as int) == Err::<(Seq<char>, int), DnsError>(e),
        },
{
    let total = message.len();
    let mut name = String::new();
    let ghost mut labels: Seq<Seq<char>> = Seq::empty();
    let mut offset = start;
    let mut jumps: usize = 0;
    let mut after: Option<usize> = None;
    let mut encoded: usize = 0;
    let mut any = false;
    loop
        invariant
            total == message@.len(),
            any == (labels.len() > 0),
            jumps <= MAX_JUMPS,
            encoded <= MAX_NAME_BYTES,
            name@ == join_dot(labels),
            after matches Some(a) ==> a <= total + 2,
            walk_name(message@, start as int, 0, None, 0, Seq::empty()) == walk_name(
                message@,
                offset as int,
                jumps as int,
                match after {
                    Some(a) => Some(a as int),
                    None => None,
                },
                encoded as int,
                labels,
            ),
        decreases MAX_JUMPS + 1 - jumps, message@.len() - offset,
    {
        if offset >= total {
            return Err(DnsError::Truncated);
        }
        let length = message[offset];
        if length >= 192 {
            if offset + 1 >= total {
                return Err(DnsError::Truncated);
            }
            let target: usize = (length - 192) as usize * 256 + message[offset + 1] as usize;
            if target >= offset {
                return Err(DnsError::BadPointer);
            }
            if jumps + 1 > MAX_JUMPS {
                return Err(DnsError::BadPointer);
            }
            jumps = jumps + 1;
            if after.is_none() {
                after = Some(offset + 2);
            }
            offset = target;
        } else if length >= 64 {
            return Err(DnsError::Malformed("reserved label bits set"));
        } else if length == 0 {
            let end = match after {
                Some(a) => a,
                None => offset + 1,
            };
            return Ok((name, end));
        } else {
            let len = length as usize;
            if encoded + len + 1 > MAX_NAME_BYTES {
                return Err(DnsError::TooLarge("name"));
            }
            if len > total - offset - 1 {
                return Err(DnsError::Truncated);
            }
            encoded = encoded + len + 1;
            let label_bytes = bytes_window(message, offset + 1, offset + 1 + len);
            let label = string_from_utf8_lossy(&label_bytes);
            let ghost lv = label@;
            proof {
                lemma_join_push(labels, lv);
            }
            if any {
                push_str(&mut name, ".");
                proof {
                    reveal_strlit(".");
                }
            }
            push_str(&mut name, label.as_str());
            proof {
                labels = labels.push(lv);
            }
            any = true;
            offset = offset + 1 + len;
        }
    }
}

/// The big-endian 16-bit value at `at`, if the message holds two bytes
/// there.
pub open spec fn be16_at(m: Seq<u8>, at: int) -> Option<int> {
    if 0 <= at && at + 1 < m.len() {
        Some(m[at] * 256 + m[at + 1])
    } else {
        None
    }
}

/// The big-endian 16-bit value at `at`.
fn be16(m: &[u8], at: usize) -> (r: Result<u16, DnsError>)
    ensures
        match be16_at(m@, at as int) {
            Some(v) => r == Ok::<u16, DnsError>(v as u16) && v <= u16::MAX,
            None => r == Err::<u16, DnsError>(DnsError::Truncated),
        },
{
    let n = m.len();
    if at >= n || n - at < 2 {
        return Err(DnsError::Truncated);
    }
    Ok(m[at] as u16 * 256 + m[at + 1] as u16)
}

/// The address a record carries, if it is of a type this reads.
pub open spec fn address_of(rtype: int, data: Seq<u8>) -> Option<Address> {
    if rtype == 1 && data.len() == 4 {
        Some(Address::V4([data[0], data[1], data[2], data[3]]))
    } else if rtype == 28 && data.len() == 16 {
        Some(
            Address::V6(
                [
                    data[0],
                    data[1],
                    data[2],
                    data[3],
                    data[4],
                    data[5],
                    data[6],
                    data[7],
                    data[8],
                    data[9],
                    data[10],
                    data[11],
                    data[12],
                    data[13],
                    data[14],
                    data[15],
                ],
            ),
        )
    } else {
        None
    }
}

/// The addresses in the `remaining` answer records from `offset` on, after
/// `out`. A record of another type is skipped: a CNAME in the chain is
/// ordinary.
pub open spec fn answers_from(m: Seq<u8>, offset: int, remaining: nat, out: Seq<Address>) -> Result<Seq<Address>, DnsError>
    decreases remaining,
{
    if remaining == 0 {
        Ok(out)
    } else {
        match name_at(m, offset) {
            Err(e) => Err(e),
            Ok((_, next)) => match be16_at(m, next) {
                None => Err(DnsError::Truncated),
                Some(rtype) => match be16_at(m, next + 8) {
                    None => Err(DnsError::Truncated),
                    Some(rdlength) => if next + 10 + rdlength > m.len() {
                        Err(DnsError::Truncated)
                    } else {
                        let data = m.subrange(next + 10, next + 10 + rdlength);
                        let more = match address_of(rtype, data) {
                            Some(a) => out.push(a),
                            None => out,
                        };
                        answers_from(m, next + 10 + rdlength, (remaining - 1) as nat, more)
                    },
                },
            },
        }
    }
}

/// An answer record of type AAAA (28) with sixteen bytes of data adds the
/// IPv6 address made of exactly those bytes, in order, to the addresses
/// read so far; the records after it are read on from its end.
pub proof fn lemma_aaaa_answer_read(
    m: Seq<u8>,
    offset: int,
    remaining: nat,
    out: Seq<Address>,
    owner: Seq<char>,
    next: int,
)
    requires
        name_at(m, offset) == Ok::<(Seq<char>, int), DnsError>((owner, next)),
        0 <= next,
        next + 26 <= m.len(),
        m[next] == 0 && m[next + 1] == 28,
        m[next + 8] == 0 && m[next + 9] == 16,
    ensures
        answers_from(m, offset, remaining + 1, out) == answers_from(
            m,
            next + 26,
            remaining,
            out.push(
                Address::V6(
                    [
                        m[next + 10],
                        m[next + 11],
                        m[next + 12],
                        m[next + 13],
                        m[next + 14],
                        m[next + 15],
                        m[next + 16],
                        m[next + 17],
                        m[next + 18],
                        m[next + 19],
                        m[next + 20],
                        m[next + 21],
                        m[next + 22],
                        m[next + 23],
                        m[next + 24],
                        m[next + 25],
                    ],
                ),
            ),
        ),
{
    let data = m.subrange(next + 10, next + 26);
    assert(be16_at(m, next) == Some(28int));
    assert(be16_at(m, next + 8) == Some(16int));
    assert(data.len() == 16);
    assert forall|i: int| 0 <= i < 16 implies data[i] == m[next + 10 + i] by {}
}

/// An answer record of type A (1) with four bytes of data adds the IPv4
/// address made of exactly those bytes, in order, to the addresses read so
/// far; the records after it are read on from its end.
pub proof fn lemma_a_answer_read(
    m: Seq<u8>,
    offset: int,
    remaining: nat,
    out: Seq<Address>,
    owner: Seq<char>,
    next: int,
)
    requires
        name_at(m, offset) == Ok::<(Seq<char>, int), DnsError>((owner, next)),
        0 <= next,
        next + 14 <= m.len(),
        m[next] == 0 && m[next + 1] == 1,
        m[next + 8] == 0 && m[next + 9] == 4,
    ensures
        answers_from(m, offset, remaining + 1, out) == answers_from(
            m,
            next + 14,
            remaining,
            out.push(Address::V4([m[next + 10], m[next + 11], m[next + 12], m[next + 13]])),
        ),
{
    let data = m.subrange(next + 10, next + 14);
    assert(be16_at(m, next) == Some(1int));
    assert(be16_at(m, next + 8) == Some(4int));
    assert(data.len() == 4);
    assert forall|i: int| 0 <= i < 4 implies data[i] == m[next + 10 + i] by {}
}

/// An answer record of any type but A (1) and AAAA (28), a CNAME among
/// them, adds no address; the records after it are read on from its end.
pub proof fn lemma_other_answer_skipped(
    m: Seq<u8>,
    offset: int,
    remaining: nat,
    out: Seq<Address>,
    owner: Seq<char>,
    next: int,
)
    requires
        name_at(m, offset) == Ok::<(Seq<char>, int), DnsError>((owner, next)),
        0 <= next,
        next + 10 <= m.len(),
        next + 10 + m[next + 8] * 256 + m[next + 9] <= m.len(),
        m[next] * 256 + m[next + 1] != 1,
        m[next] * 256 + m[next + 1] != 28,
    ensures
        answers_from(m, offset, remaining + 1, out) == answers_from(
            m,
            next + 10 + m[next + 8] * 256 + m[next + 9],
            remaining,
            out,
        ),
{
    assert(be16_at(m, next) == Some(m[next] * 256 + m[next + 1]));
    assert(be16_at(m, next + 8) == Some(m[next + 8] * 256 + m[next + 9]));
}

/// The addresses a response carries for `name` and `t`, or why it is
/// refused: too large, truncated, a server error, not exactly one question,
/// too many answers, or an answer to a question that was not asked.
pub open spec fn response_of(m: Seq<u8>, name: Seq<char>, t: RecordType) -> Result<Seq<Address>, DnsError> {
    if m.len() > MAX_MESSAGE_BYTES {
        Err(DnsError::TooLarge("message"))
    } else if m.len() < 12 {
        Err(DnsError::Truncated)
    } else if m[3] % 16 != 0 {
        Err(DnsError::ServerFailure(m[3] % 16))
    } else if m[4] * 256 + m[5] != 1 {
        Err(DnsError::Malformed("expected exactly one question"))
    } else if m[6] * 256 + m[7] > MAX_RECORDS {
        Err(DnsError::TooLarge("answer count"))
    } else {
        match name_at(m, 12) {
            Err(e) => Err(e),
            Ok((qname, next)) => if lower(qname) != lower(trim_end_char(name, '.')) {
                Err(DnsError::WrongQuestion)
            } else {
                match be16_at(m, next) {
                    None => Err(DnsError::Truncated),
                    Some(qtype) => if qtype != type_code(t) {
                        Err(DnsError::WrongQuestion)
                    } else {
                        answers_from(m, next + 4, (m[6] * 256 + m[7]) as nat, Seq::empty())
                    },
                }
            },
        }
    }
}

/// Whether two names are equal ignoring ASCII case.
fn same_name_ignoring_case(a: &Vec<char>, b: &Vec<char>) -> (r: bool)
    ensures
        r == (lower(a@) == lower(b@)),
{
    if a.len() != b.len() {
        assert(lower(a@).len() != lower(b@).len());
        return false;
    }
    let mut i: usize = 0;
    while i < a.len()
        invariant
            i <= a@.len() == b@.len(),
            forall|k: int| 0 <= k < i ==> crate::text_ops::lower_char(#[trigger] a@[k]) == crate::text_ops::lower_char(b@[k]),
        decreases a@.len() - i,
    {
        if lower_one(a[i]) != lower_one(b[i]) {
            assert(lower(a@)[i as int] != lower(b@)[i as int]);
            return false;
        }
        i += 1;
    }
    assert(lower(a@) =~= lower(b@));
    true
}

/// The address of the record data `m[at..at + len]`, if it is of a type
/// this reads.
fn read_address(m: &[u8], rtype: u16, at: usize, len: usize) -> (r: Option<Address>)
    requires
        at + len <= m@.len(),
    ensures
        r == address_of(rtype as int, m@.subrange(at as int, at + len)),
{
    if rtype == 1 && len == 4 {
        Some(Address::V4([m[at], m[at + 1], m[at + 2], m[at + 3]]))
    } else if rtype == 28 && len == 16 {
        Some(
            Address::V6(
                [
                    m[at],
                    m[at + 1],
                    m[at + 2],
                    m[at + 3],
                    m[at + 4],
                    m[at + 5],
                    m[at + 6],
                    m[at + 7],
                    m[at + 8],
                    m[at + 9],
                    m[at + 10],
                    m[at + 11],
                    m[at + 12],
                    m[at + 13],
                    m[at + 14],
                    m[at + 15],
                ],
            ),
        )
    } else {
        None
    }
}

/// Parse a response, returning the addresses it carries for `expected_name`.
pub fn parse_response(message: &[u8], expected_name: &str, expected_type: RecordType) -> (r: Result<
    Vec<Address>,
    DnsError,
>)
    ensures
        match r {
            Ok(a) => response_of(message@, expected_name@, expected_type) == Ok::<Seq<Address>, DnsError>(a@),
            Err(e) => response_of(message@, expected_name@, expected_type) == Err::<Seq<Address>, DnsError>(e),
        },
{
    let total = message.len();
    if total > MAX_MESSAGE_BYTES {
        return Err(DnsError::TooLarge("message"));
    }
    if total < 12 {
        return Err(DnsError::Truncated);
    }
    if message[3] % 16 != 0 {
        return Err(DnsError::ServerFailure(message[3] % 16));
    }
    if message[4] as u16 * 256 + message[5] as u16 != 1 {
        return Err(DnsError::Malformed("expected exactly one question"));
    }
    let answers: u16 = message[6] as u16 * 256 + message[7] as u16;
    if answers as usize > MAX_RECORDS {
        return Err(DnsError::TooLarge("answer count"));
    }
    let (qname, next) = match read_name(message, 12) {
        Ok(p) => p,
        Err(e) => {
            return Err(e);
        },
    };
    let expected = chars_of(expected_name);
    let n = trim_end_window(&expected, '.');
    let want = window_vec(&expected, 0, n);
    if !same_name_ignoring_case(&chars_of(qname.as_str()), &want) {
        return Err(DnsError::WrongQuestion);
    }
    let qtype = match be16(message, next) {
        Ok(v) => v,
        Err(e) => {
            return Err(e);
        },
    };
    if qtype != expected_type.code() {
        return Err(DnsError::WrongQuestion);
    }
    let mut offset = next + 4;
    let mut out: Vec<Address> = Vec::new();
    let mut remaining = answers;
    loop
        invariant
            total == message@.len(),
            total <= MAX_MESSAGE_BYTES,
            offset <= total + 4,
            response_of(message@, expected_name@, expected_type) == answers_from(
                message@,
                offset as int,
                remaining as nat,
                out@,
            ),
        decreases remaining,
    {
        if remaining == 0 {
            return Ok(out);
        }
        let (_name, after) = match read_name(message, offset) {
            Ok(p) => p,
            Err(e) => {
                return Err(e);
            },
        };
        let rtype = match be16(message, after) {
            Ok(v) => v,
            Err(e) => {
                return Err(e);
            },
        };
        let rdlength = match be16(message, after + 8) {
            Ok(v) => v as usize,
            Err(e) => {
                return Err(e);
            },
        };
        let data_at = after + 10;
        if data_at > total || rdlength > total - data_at {
            return Err(DnsError::Truncated);
        }
        match read_address(message, rtype, data_at, rdlength) {
            Some(a) => out.push(a),
            None => {},
        }
        offset = data_at + rdlength;
        remaining = remaining - 1;
    }
}

/// Every character is at least NUL, as every `char` is.
pub open spec fn valid_chars(s: Seq<char>) -> bool {
    forall|i: int| 0 <= i < s.len() ==> '\0' <= #[trigger] s[i]
}

/// Dropping trailing dots keeps a prefix.
proof fn lemma_trim_end_prefix(s: Seq<char>)
    ensures
        trim_end_char(s, '.').len() <= s.len(),
        forall|i: int| 0 <= i < trim_end_char(s, '.').len() ==> #[trigger] trim_end_char(s, '.')[i] == s[i],
    decreases s.len(),
{
    if s.len() > 0 && s.last() == '.' {
        lemma_trim_end_prefix(s.drop_last());
    }
}

/// Splitting at dots and joining with dots gives the name back.
proof fn lemma_join_split(s: Seq<char>)
    ensures
        join_dot(split_char(s, '.')) == s,
        split_char(s, '.').len() >= 1,
        all_ascii(s) && valid_chars(s) ==> forall|j: int| 0 <= j < split_char(s, '.').len() ==> #[trigger] vstd::utf8::is_ascii_chars(split_char(s, '.')[j]),
    decreases s.len(),
{
    let k = crate::text_ops::find(s, '.');
    crate::text_ops::lemma_find_range(s, '.');
    if k >= 0 {
        let rest = s.skip(k + 1);
        lemma_join_split(rest);
        let sp = split_char(s, '.');
        assert(sp == seq![s.take(k)] + split_char(rest, '.'));
        assert(sp.drop_first() =~= split_char(rest, '.'));
        assert(s =~= s.take(k) + seq!['.'] + rest);
        if all_ascii(s) && valid_chars(s) {
            assert forall|j: int| 0 <= j < sp.len() implies #[trigger] vstd::utf8::is_ascii_chars(sp[j]) by {
                if j == 0 {
                    assert forall|i: int| 0 <= i < sp[j].len() implies '\0' <= #[trigger] sp[j][i] <= '\u{7f}' by {
                        assert(sp[j][i] == s[i]);
                    }
                } else {
                    assert(sp[j] == split_char(rest, '.')[j - 1]);
                    assert(all_ascii(rest) && valid_chars(rest)) by {
                        assert forall|i: int| 0 <= i < rest.len() implies #[trigger] rest[i] <= '\u{7f}' by {
                            assert(rest[i] == s[k + 1 + i]);
                        }
                        assert forall|i: int| 0 <= i < rest.len() implies '\0' <= #[trigger] rest[i] by {
                            assert(rest[i] == s[k + 1 + i]);
                        }
                    }
                }
            }
        }
    }
}

/// An ASCII label's bytes read back as text give the label.
proof fn lemma_ascii_label(l: Seq<char>)
    requires
        vstd::utf8::is_ascii_chars(l),
    ensures
        label_text(ascii_bytes(l)) == l,
{
    vstd::utf8::is_ascii_chars_encode_utf8(l);
    assert(ascii_bytes(l) =~= vstd::utf8::encode_utf8(l));
    vstd::utf8::encode_utf8_valid_utf8(l);
    vstd::utf8::encode_utf8_decode_utf8(l);
}

/// Walking encoded labels reads them back, one by one, and stops just past
/// the final zero.
proof fn lemma_walk_encoded(
    m: Seq<u8>,
    off: int,
    ls: Seq<Seq<char>>,
    encoded: int,
    acc: Seq<Seq<char>>,
)
    requires
        encode_labels(ls, encoded) is Ok,
        0 <= off,
        off + encode_labels(ls, encoded)->Ok_0.len() <= m.len(),
        m.subrange(off, off + encode_labels(ls, encoded)->Ok_0.len()) == encode_labels(ls, encoded)->Ok_0,
        encoded >= 1,
        forall|j: int| 0 <= j < ls.len() ==> #[trigger] vstd::utf8::is_ascii_chars(ls[j]),
    ensures
        walk_name(m, off, 0, None, encoded - 1, acc) == Ok::<(Seq<Seq<char>>, int), DnsError>(
            (acc + ls, off + encode_labels(ls, encoded)->Ok_0.len()),
        ),
    decreases ls.len(),
{
    let bytes = encode_labels(ls, encoded)->Ok_0;
    if ls.len() == 0 {
        assert(m[off] == bytes[0]);
        assert(acc + ls =~= acc);
    } else {
        let l = ls[0];
        let rest = encode_labels(ls.drop_first(), encoded + l.len() + 1)->Ok_0;
        assert(bytes == seq![l.len() as u8] + ascii_bytes(l) + rest);
        assert(m[off] == bytes[0]);
        assert(m.subrange(off + 1, off + 1 + l.len()) =~= ascii_bytes(l)) by {
            assert forall|i: int| 0 <= i < l.len() implies #[trigger] m.subrange(off + 1, off + 1 + l.len())[i]
                == ascii_bytes(l)[i] by {
                assert(m[off + 1 + i] == bytes[1 + i]);
            }
        }
        lemma_ascii_label(l);
        let off2 = off + 1 + l.len();
        assert(m.subrange(off2, off2 + rest.len()) =~= rest) by {
            assert forall|i: int| 0 <= i < rest.len() implies #[trigger] m.subrange(off2, off2 + rest.len())[i]
                == rest[i] by {
                assert(m[off2 + i] == bytes[1 + l.len() + i]);
            }
        }
        assert forall|j: int| 0 <= j < ls.drop_first().len() implies #[trigger] vstd::utf8::is_ascii_chars(ls.drop_first()[j]) by {
            assert(ls.drop_first()[j] == ls[j + 1]);
        }
        lemma_walk_encoded(m, off2, ls.drop_first(), encoded + l.len() + 1, acc.push(l));
        assert(acc.push(l) + ls.drop_first() =~= acc + ls);
    }
}

/// A query reads back its own name: the name at offset 12 of what
/// [`build_query`] builds is the name asked for, without trailing dots, and it
/// ends where the type and class begin.
pub proof fn lemma_query_round_trip(name: Seq<char>, t: RecordType)
    requires
        valid_chars(name),
        query_of(name, t) is Ok,
    ensures
        name_at(query_of(name, t)->Ok_0, 12) == Ok::<(Seq<char>, int), DnsError>(
            (trim_end_char(name, '.'), query_of(name, t)->Ok_0.len() - 4),
        ),
{
    let n = trim_end_char(name, '.');
    let ls = split_char(n, '.');
    let q = query_of(name, t)->Ok_0;
    let e = encode_labels(ls, 1)->Ok_0;
    lemma_trim_end_prefix(name);
    assert(valid_chars(n)) by {
        assert forall|i: int| 0 <= i < n.len() implies '\0' <= #[trigger] n[i] by {
            assert(n[i] == name[i]);
        }
    }
    lemma_join_split(n);
    assert(q == query_header() + e + seq![(type_code(t) / 256) as u8, (type_code(t) % 256) as u8, 0u8, 1u8]);
    assert(q.subrange(12, 12 + e.len() as int) =~= e) by {
        assert forall|i: int| 0 <= i < e.len() implies #[trigger] q.subrange(12, 12 + e.len() as int)[i] == e[i] by {
            assert(q[12 + i] == e[i]);
        }
    }
    lemma_walk_encoded(q, 12, ls, 1, Seq::empty());
    assert(Seq::<Seq<char>>::empty() + ls =~= ls);
}

/// The message a DNS error is shown with.
pub open spec fn dns_error_text(e: DnsError) -> Seq<char> {
    match e {
        DnsError::Truncated => "the DNS message ended mid-structure"@,
        DnsError::TooLarge(what) => what@ + " exceeded its limit"@,
        DnsError::BadPointer => "a compression pointer looped or pointed forwards"@,
        DnsError::Malformed(why) => "malformed DNS message: "@ + why@,
        DnsError::WrongQuestion => "the response answers a different question"@,
        DnsError::ServerFailure(code) => "the resolver returned rcode "@ + crate::numbers::decimal_of(code as nat),
    }
}

impl DnsError {
    /// The message this error is shown with.
    pub fn to_string(&self) -> (r: String)
        ensures
            r@ == dns_error_text(*self),
    {
        let mut s = String::new();
        match self {
            DnsError::Truncated => push_str(&mut s, "the DNS message ended mid-structure"),
            DnsError::TooLarge(what) => {
                push_str(&mut s, what);
                push_str(&mut s, " exceeded its limit");
            },
            DnsError::BadPointer => push_str(&mut s, "a compression pointer looped or pointed forwards"),
            DnsError::Malformed(why) => {
                push_str(&mut s, "malformed DNS message: ");
                push_str(&mut s, why);
            },
            DnsError::WrongQuestion => push_str(&mut s, "the response answers a different question"),
            DnsError::ServerFailure(code) => {
                push_str(&mut s, "the resolver returned rcode ");
                let digits = crate::numbers::decimal(*code as u64);
                push_str(&mut s, digits.as_str());
            },
        }
        s
    }
}

} // verus!
