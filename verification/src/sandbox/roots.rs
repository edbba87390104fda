//! The platform's trust anchors, read from the distribution's CA bundle.
//!
//! The platform store is the source of trust; the bundled store is a floor
//! for when it cannot be read. Reading reports failure honestly and never
//! substitutes the floor itself, so the caller can tell the difference; nor
//! does it merge with the floor, which would silently restore a root an
//! administrator removed.
//!
//! Parsing is strict: a bundle that cannot be decoded reads as unavailable,
//! never as a shorter list that silently narrows what is trusted.
use vstd::prelude::*;
use crate::text_ops::{chars_of, pieces_of, split_bounds, split_char, split_lines, trim, trim_window, vec_eq, window_vec};

verus! {

/// Why the platform store could not be used.
#[derive(Debug, Clone, PartialEq, Eq)]
pub enum RootStoreError {
    /// The store could not be opened.
    Unavailable(&'static str),
    /// The store opened and yielded implausibly few anchors.
    ImplausiblyFew(usize),
    /// This platform has no store this crate knows how to read.
    Unsupported,
}

/// Below this many anchors, a store is treated as broken rather than small.
pub const PLAUSIBLE_MINIMUM: usize = 20;

/// The value of a base64 character, if it is one.
pub open spec fn sextet(c: char) -> Option<u8> {
    if 'A' <= c <= 'Z' {
        Some((c as u32 - 'A' as u32) as u8)
    } else if 'a' <= c <= 'z' {
        Some((c as u32 - 'a' as u32 + 26) as u8)
    } else if '0' <= c <= '9' {
        Some((c as u32 - '0' as u32 + 52) as u8)
    } else if c == '+' {
        Some(62u8)
    } else if c == '/' {
        Some(63u8)
    } else {
        None
    }
}

/// The base64 values in `s`, up to the first `=`; white space (CR, LF,
/// space, tab) is skipped, and any other character makes it no base64.
pub open spec fn b64_values(s: Seq<char>) -> Option<Seq<u8>>
    decreases s.len(),
{
    if s.len() == 0 {
        Some(Seq::empty())
    } else if s[0] == '=' {
        Some(Seq::empty())
    } else if s[0] == '\r' || s[0] == '\n' || s[0] == ' ' || s[0] == '\t' {
        b64_values(s.drop_first())
    } else {
        match sextet(s[0]) {
            None => None,
            Some(v) => match b64_values(s.drop_first()) {
                Some(vs) => Some(seq![v] + vs),
                None => None,
            },
        }
    }
}

/// The bytes a run of base64 values encodes: each four give three, and a
/// final three give two, a final two give one, a final one gives none.
pub open spec fn b64_bytes(v: Seq<u8>) -> Seq<u8>
    decreases v.len(),
{
    if v.len() >= 4 {
        seq![
            (v[0] * 4 + v[1] / 16) as u8,
            ((v[1] % 16) * 16 + v[2] / 4) as u8,
            ((v[2] % 4) * 64 + v[3]) as u8,
        ] + b64_bytes(v.skip(4))
    } else if v.len() == 3 {
        seq![(v[0] * 4 + v[1] / 16) as u8, ((v[1] % 16) * 16 + v[2] / 4) as u8]
    } else if v.len() == 2 {
        seq![(v[0] * 4 + v[1] / 16) as u8]
    } else {
        Seq::empty()
    }
}

/// What a PEM body decodes to; `None` when it is not base64 or decodes to
/// nothing.
pub open spec fn base64_of(s: Seq<char>) -> Option<Seq<u8>> {
    match b64_values(s) {
        None => None,
        Some(v) => if b64_bytes(v).len() == 0 {
            None
        } else {
            Some(b64_bytes(v))
        },
    }
}

/// The base64 values of `v[0..]`, as [`b64_values`] reads them.
fn values_of(v: &Vec<char>) -> (r: Option<Vec<u8>>)
    ensures
        match r {
            Some(vals) => b64_values(v@) == Some(vals@) && forall|i: int| 0 <= i < vals@.len() ==> #[trigger] vals@[i] < 64,
            None => b64_values(v@) is None,
        },
{
    let mut vals: Vec<u8> = Vec::new();
    let mut i: usize = 0;
    let n = v.len();
    assert(v@.skip(0) =~= v@);
    loop
        invariant
            i <= n == v@.len(),
            forall|k: int| 0 <= k < vals@.len() ==> #[trigger] vals@[k] < 64,
            match b64_values(v@) {
                Some(all) => match b64_values(v@.skip(i as int)) {
                    Some(rest) => all == vals@ + rest,
                    None => false,
                },
                None => b64_values(v@.skip(i as int)) is None,
            },
        decreases n - i,
    {
        if i == n {
            assert(v@.skip(i as int) =~= Seq::<char>::empty());
            assert(vals@ + Seq::<u8>::empty() =~= vals@);
            return Some(vals);
        }
        let c = v[i];
        let ghost s = v@.skip(i as int);
        assert(s[0] == c);
        assert(s.drop_first() =~= v@.skip(i + 1));
        if c == '=' {
            assert(vals@ + Seq::<u8>::empty() =~= vals@);
            return Some(vals);
        }
        if c == '\r' || c == '\n' || c == ' ' || c == '\t' {
            i += 1;
        } else {
            let val: u8 = if 'A' <= c && c <= 'Z' {
                (c as u32 - 'A' as u32) as u8
            } else if 'a' <= c && c <= 'z' {
                (c as u32 - 'a' as u32 + 26) as u8
            } else if '0' <= c && c <= '9' {
                (c as u32 - '0' as u32 + 52) as u8
            } else if c == '+' {
                62
            } else if c == '/' {
                63
            } else {
                return None;
            };
            let ghost before = vals@;
            vals.push(val);
            i += 1;
            proof {
                match b64_values(v@.skip(i as int)) {
                    Some(rest) => {
                        assert(vals@ + rest =~= before + (seq![val] + rest));
                    },
                    None => {},
                }
            }
        }
    }
}

/// Decode base64 values into bytes.
fn bytes_of_values(v: &Vec<u8>) -> (r: Vec<u8>)
    requires
        forall|i: int| 0 <= i < v@.len() ==> #[trigger] v@[i] < 64,
    ensures
        r@ == b64_bytes(v@),
{
    let mut out: Vec<u8> = Vec::new();
    let mut i: usize = 0;
    let n = v.len();
    assert(v@.skip(0) =~= v@);
    while n - i >= 4
        invariant
            i <= n == v@.len(),
            forall|k: int| 0 <= k < v@.len() ==> #[trigger] v@[k] < 64,
            b64_bytes(v@) == out@ + b64_bytes(v@.skip(i as int)),
        decreases n - i,
    {
        let a = v[i];
        let b = v[i + 1];
        let c = v[i + 2];
        let d = v[i + 3];
        let ghost s = v@.skip(i as int);
        assert(s[0] == a && s[1] == b && s[2] == c && s[3] == d);
        assert(s.skip(4) =~= v@.skip(i + 4));
        let ghost before = out@;
        out.push(a * 4 + b / 16);
        out.push((b % 16) * 16 + c / 4);
        out.push((c % 4) * 64 + d);
        assert(out@ =~= before + seq![(a * 4 + b / 16) as u8, ((b % 16) * 16 + c / 4) as u8, ((c % 4) * 64 + d) as u8]);
        i += 4;
    }
    let ghost s = v@.skip(i as int);
    let left = n - i;
    if left == 3 {
        let a = v[i];
        let b = v[i + 1];
        let c = v[i + 2];
        assert(s[0] == a && s[1] == b && s[2] == c);
        out.push(a * 4 + b / 16);
        out.push((b % 16) * 16 + c / 4);
    } else if left == 2 {
        let a = v[i];
        let b = v[i + 1];
        assert(s[0] == a && s[1] == b);
        out.push(a * 4 + b / 16);
    }
    assert(out@ =~= b64_bytes(v@));
    out
}

/// Base64 for PEM bodies: refuses anything outside the alphabet rather than
/// skipping it, so a corrupted bundle reads as unavailable instead of as a
/// shorter one.
pub fn decode_base64(input: &str) -> (r: Option<Vec<u8>>)
    ensures
        match r {
            Some(bytes) => base64_of(input@) == Some(bytes@),
            None => base64_of(input@) is None,
        },
{
    let v = chars_of(input);
    match values_of(&v) {
        None => None,
        Some(vals) => {
            let out = bytes_of_values(&vals);
            if out.len() == 0 {
                None
            } else {
                Some(out)
            }
        },
    }
}

/// `-----BEGIN CERTIFICATE-----`.
pub open spec fn pem_begin() -> Seq<char> {
    "-----BEGIN CERTIFICATE-----"@
}

/// `-----END CERTIFICATE-----`.
pub open spec fn pem_end() -> Seq<char> {
    "-----END CERTIFICATE-----"@
}

/// Reading a bundle line by line: whether inside a certificate, the base64
/// gathered for it, and the certificates decoded so far, or `None` once one
/// has failed to decode. A `BEGIN` line starts afresh; an `END` line after
/// one decodes what was gathered.
pub open spec fn pem_fold(lines: Seq<Seq<char>>) -> (bool, Seq<char>, Option<Seq<Seq<u8>>>)
    decreases lines.len(),
{
    if lines.len() == 0 {
        (false, Seq::empty(), Some(Seq::empty()))
    } else {
        let (inside, b64, out) = pem_fold(lines.drop_last());
        let l = trim(lines.last());
        if l == pem_begin() {
            (true, Seq::empty(), out)
        } else if l == pem_end() {
            (
                false,
                b64,
                if inside {
                    match (base64_of(b64), out) {
                        (Some(der), Some(o)) => Some(o.push(der)),
                        _ => None,
                    }
                } else {
                    out
                },
            )
        } else if inside {
            (true, b64 + l, out)
        } else {
            (false, b64, out)
        }
    }
}

/// The certificates of a PEM bundle, in order; none at all when any of
/// them fails to decode, so that a corrupt bundle reads as unavailable
/// rather than as a shorter list.
pub open spec fn pem_certificates(text: Seq<char>) -> Seq<Seq<u8>> {
    match pem_fold(split_lines(text)).2 {
        Some(out) => out,
        None => Seq::empty(),
    }
}

/// The views of a run of certificates.
pub open spec fn der_views(s: Seq<Vec<u8>>) -> Seq<Seq<u8>> {
    s.map_values(|d: Vec<u8>| d@)
}

/// Pull the DER certificates out of a PEM bundle: none when any of them
/// fails to decode.
pub fn parse_pem_bundle(text: &str) -> (r: Vec<Vec<u8>>)
    ensures
        der_views(r@) == pem_certificates(text@),
{
    let v = chars_of(text);
    let bounds = split_bounds(&v, '\n');
    let ghost lines = split_char(v@, '\n');
    let begin = chars_of("-----BEGIN CERTIFICATE-----");
    let end = chars_of("-----END CERTIFICATE-----");
    let mut out: Vec<Vec<u8>> = Vec::new();
    let mut b64: Vec<char> = Vec::new();
    let mut inside = false;
    let mut corrupt = false;
    let mut i: usize = 0;
    assert(lines.take(0) =~= Seq::<Seq<char>>::empty());
    assert(der_views(out@) =~= Seq::<Seq<u8>>::empty());
    assert(b64@ =~= Seq::<char>::empty());
    while i < bounds.len()
        invariant
            pieces_of(v@, '\n', lines, bounds@),
            lines == split_char(v@, '\n'),
            begin@ == pem_begin(),
            end@ == pem_end(),
            i <= bounds@.len(),
            pem_fold(lines.take(i as int)) == (inside, b64@, if corrupt {
                None
            } else {
                Some(der_views(out@))
            }),
        decreases bounds@.len() - i,
    {
        let (a, b) = bounds[i];
        assert(lines.take(i + 1).drop_last() =~= lines.take(i as int));
        assert(lines.take(i + 1).last() == v@.subrange(a as int, b as int));
        let (ta, tb) = trim_window(&v, a, b);
        let line = window_vec(&v, ta, tb);
        if vec_eq(&line, &begin) {
            inside = true;
            b64 = Vec::new();
            assert(b64@ =~= Seq::<char>::empty());
        } else if vec_eq(&line, &end) {
            if inside {
                let text = crate::text_ops::string_of_all(&b64);
                match decode_base64(text.as_str()) {
                    Some(der) => {
                        let ghost before = out@;
                        let ghost dv = der@;
                        out.push(der);
                        assert(der_views(out@) =~= der_views(before).push(dv));
                    },
                    None => {
                        corrupt = true;
                    },
                }
            }
            inside = false;
        } else if inside {
            let ghost before = b64@;
            let mut k: usize = 0;
            while k < line.len()
                invariant
                    k <= line@.len(),
                    b64@ == before + line@.take(k as int),
                decreases line@.len() - k,
            {
                b64.push(line[k]);
                k += 1;
                assert(b64@ =~= before + line@.take(k as int));
            }
            assert(line@.take(line@.len() as int) =~= line@);
        }
        i += 1;
    }
    assert(lines.take(bounds@.len() as int) =~= lines);
    if corrupt {
        let none: Vec<Vec<u8>> = Vec::new();
        assert(der_views(none@) =~= Seq::<Seq<u8>>::empty());
        return none;
    }
    out
}

/// What the bundles at the usual locations yield, tried in order: the first
/// that holds at least [`PLAUSIBLE_MINIMUM`] certificates is the store; one
/// that holds fewer, but some, is refused as implausible; an unreadable or
/// empty one is passed over.
pub open spec fn roots_from(bundles: Seq<Option<Seq<char>>>) -> Result<Seq<Seq<u8>>, RootStoreError>
    decreases bundles.len(),
{
    if bundles.len() == 0 {
        Err(RootStoreError::Unavailable("no CA bundle found in the usual locations"))
    } else {
        match bundles[0] {
            None => roots_from(bundles.drop_first()),
            Some(text) => {
                let anchors = pem_certificates(text);
                if anchors.len() >= PLAUSIBLE_MINIMUM {
                    Ok(anchors)
                } else if anchors.len() > 0 {
                    Err(RootStoreError::ImplausiblyFew(anchors.len() as usize))
                } else {
                    roots_from(bundles.drop_first())
                }
            },
        }
    }
}

/// The views of the bundles as read: the text of each, or `None` where it
/// could not be read.
pub open spec fn bundle_views(b: Seq<Option<String>>) -> Seq<Option<Seq<char>>> {
    b.map_values(|t: Option<String>| match t {
        Some(s) => Some(s@),
        None => None,
    })
}

/// The platform's trust anchors as DER certificates, given the contents of
/// the CA bundles at the usual locations, in the order they are tried.
pub fn platform_roots(bundles: &Vec<Option<String>>) -> (r: Result<Vec<Vec<u8>>, RootStoreError>)
    ensures
        match r {
            Ok(anchors) => roots_from(bundle_views(bundles@)) == Ok::<Seq<Seq<u8>>, RootStoreError>(der_views(anchors@)),
            Err(e) => roots_from(bundle_views(bundles@)) == Err::<Seq<Seq<u8>>, RootStoreError>(e),
        },
{
    let ghost bv = bundle_views(bundles@);
    let mut i: usize = 0;
    assert(bv.skip(0) =~= bv);
    while i < bundles.len()
        invariant
            i <= bundles@.len(),
            bv == bundle_views(bundles@),
            roots_from(bv) == roots_from(bv.skip(i as int)),
        decreases bundles@.len() - i,
    {
        let ghost rest = bv.skip(i as int);
        assert(rest.drop_first() =~= bv.skip(i + 1));
        match &bundles[i] {
            None => {},
            Some(text) => {
                let anchors = parse_pem_bundle(text.as_str());
                if anchors.len() >= PLAUSIBLE_MINIMUM {
                    return Ok(anchors);
                }
                if anchors.len() > 0 {
                    return Err(RootStoreError::ImplausiblyFew(anchors.len()));
                }
            },
        }
        i += 1;
    }
    assert(bv.skip(i as int) =~= Seq::<Option<Seq<char>>>::empty());
    Err(RootStoreError::Unavailable("no CA bundle found in the usual locations"))
}

/// The message a trust-store error is shown with.
pub open spec fn root_store_error_text(e: RootStoreError) -> Seq<char> {
    match e {
        RootStoreError::Unavailable(detail) => "the platform trust store is unavailable: "@ + detail@,
        RootStoreError::ImplausiblyFew(count) => "the platform trust store returned "@ + crate::numbers::decimal_of(
            count as nat,
        ) + " anchors, which is too few to be real"@,
        RootStoreError::Unsupported => "no platform trust store is available here"@,
    }
}

impl RootStoreError {
    /// The message this error is shown with.
    pub fn to_string(&self) -> (r: String)
        ensures
            r@ == root_store_error_text(*self),
    {
        let mut s = String::new();
        match self {
            RootStoreError::Unavailable(detail) => {
                crate::text_ops::push_str(&mut s, "the platform trust store is unavailable: ");
                crate::text_ops::push_str(&mut s, detail);
            },
            RootStoreError::ImplausiblyFew(count) => {
                crate::text_ops::push_str(&mut s, "the platform trust store returned ");
                let digits = crate::numbers::decimal(*count as u64);
                crate::text_ops::push_str(&mut s, digits.as_str());
                crate::text_ops::push_str(&mut s, " anchors, which is too few to be real");
            },
            RootStoreError::Unsupported => crate::text_ops::push_str(&mut s, "no platform trust store is available here"),
        }
        s
    }
}

} // verus!
