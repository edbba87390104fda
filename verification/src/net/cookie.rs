//! Cookies: parsing `Set-Cookie`, and the jar that partitions them.
//!
//! A cookie is never set on a public suffix (`Domain=com` would be shared by
//! every `.com` site), and the jar is keyed by [`PartitionKey`], so a third
//! party embedded under two top-level sites sees two unrelated jars.
//!
//! Everything fails closed: an attribute that cannot be parsed rejects the
//! cookie rather than falling back to a default. `Expires` is not parsed;
//! `Max-Age` covers the same ground, and a cookie with only `Expires` is a
//! session cookie, forgotten sooner than asked rather than later.
//!
//! Times are milliseconds on a monotonic clock: a jar's own, started with
//! it, for what the jar stores. The functions whose names end in `_at` take
//! the current time, and the others read it.
use vstd::prelude::*;
use crate::net::assoc::{distinct_keys, lemma_map_of_at, lemma_map_of_dom, lemma_map_of_len,
    lemma_map_of_push, lemma_map_of_remove, lemma_map_of_update, map_of};
use crate::net::clock::Clock;
use crate::net::ip::is_ip_literal;
use crate::net::partition::{Origin, OriginView, PartitionKey, PartitionKeyView};
use crate::net::psl::{normalized_host, registrable, PublicSuffixList, RuleKind};
use crate::numbers::parse_signed;
use crate::numbers::parse_i64_window;
use crate::text_ops::{
    chars_of, ends_with, find, find_in, is_strictly_under, lower, lower_window, split_bounds,
    split_char, starts_with, string_of, string_of_all, strictly_under, trim, trim_char_window,
    trim_end_char, trim_start_char, trim_window, vec_eq, window_starts_with, window_vec, pieces_of,
};

verus! {

/// Longest `Set-Cookie` header accepted, in bytes.
pub const MAX_COOKIE_BYTES: usize = 4096;

/// Most cookies stored per partition key.
pub const MAX_PER_KEY: usize = 50;

/// How a cookie restricts cross-site sending.
#[derive(Debug, Clone, Copy, PartialEq, Eq, Structural)]
pub enum SameSite {
    /// Never sent on a cross-site request.
    Strict,
    /// Sent on a top-level navigation only.
    Lax,
    /// Sent on any request; requires `Secure`.
    Unrestricted,
}

/// Why a `Set-Cookie` was not stored.
#[derive(Debug, Clone, PartialEq, Eq)]
pub enum Rejected {
    /// The header was longer than [`MAX_COOKIE_BYTES`].
    TooLarge,
    /// There was no `name=value`.
    Malformed,
    /// An attribute was present but unparseable.
    BadAttribute(&'static str),
    /// `Domain` named a public suffix.
    PublicSuffixDomain,
    /// `Domain` did not domain-match the origin that sent it.
    DomainMismatch,
    /// `SameSite=None` without `Secure`.
    InsecureSameSiteNone,
    /// A `__Secure-` or `__Host-` prefix whose requirements were not met.
    PrefixViolation(&'static str),
    /// The jar for this partition is full.
    JarFull,
}

/// A stored cookie.
#[derive(Debug, Clone, PartialEq, Eq)]
pub struct Cookie {
    /// The name, as sent.
    pub name: String,
    /// The value, as sent.
    pub value: String,
    /// The host this cookie is scoped to, lowercased.
    pub domain: String,
    /// Whether it covers only [`Cookie::domain`] itself, not its subdomains.
    pub host_only: bool,
    /// The path prefix it applies to.
    pub path: String,
    /// Sent only over TLS.
    pub secure: bool,
    /// Not readable from script.
    pub http_only: bool,
    /// Cross-site sending rule.
    pub same_site: SameSite,
    /// When it expires, in milliseconds, if it is not a session cookie.
    pub expires_at: Option<u64>,
}

/// What a [`Cookie`] holds.
pub struct CookieView {
    pub name: Seq<char>,
    pub value: Seq<char>,
    pub domain: Seq<char>,
    pub host_only: bool,
    pub path: Seq<char>,
    pub secure: bool,
    pub http_only: bool,
    pub same_site: SameSite,
    pub expires_at: Option<u64>,
}

impl View for Cookie {
    type V = CookieView;

    open spec fn view(&self) -> CookieView {
        CookieView {
            name: self.name@,
            value: self.value@,
            domain: self.domain@,
            host_only: self.host_only,
            path: self.path@,
            secure: self.secure,
            http_only: self.http_only,
            same_site: self.same_site,
            expires_at: self.expires_at,
        }
    }
}

/// The label-wise host rule: the cookie's own host, or (unless host-only) a
/// host strictly under it. Compared after lowercasing `host`.
pub open spec fn host_matches(c: CookieView, host: Seq<char>) -> bool {
    let h = lower(host);
    h == c.domain || (!c.host_only && strictly_under(h, c.domain))
}

/// The RFC 6265 path rule.
pub open spec fn path_matches(cookie_path: Seq<char>, path: Seq<char>) -> bool {
    ||| path == cookie_path
    ||| starts_with(path, cookie_path) && ((cookie_path.len() > 0 && cookie_path.last() == '/') || (
    path.len() > cookie_path.len() && path[cookie_path.len() as int] == '/'))
}

/// Whether a cookie has expired at `now`.
pub open spec fn expired(c: CookieView, now: u64) -> bool {
    c.expires_at matches Some(at) && at <= now
}

/// The attributes gathered so far while reading a `Set-Cookie`.
pub struct Attrs {
    pub domain: Option<Seq<char>>,
    pub path: Option<Seq<char>>,
    pub secure: bool,
    pub http_only: bool,
    pub same_site: SameSite,
    pub max_age: Option<int>,
}

/// Nothing read yet: no domain or path, not secure, `SameSite=Lax`.
pub open spec fn no_attrs() -> Attrs {
    Attrs {
        domain: None,
        path: None,
        secure: false,
        http_only: false,
        same_site: SameSite::Lax,
        max_age: None,
    }
}

/// An attribute split at its first `=` into a lowercased, trimmed key and a
/// trimmed value; without `=`, the whole attribute lowercased and no value.
pub open spec fn attr_key_val(a: Seq<char>) -> (Seq<char>, Seq<char>) {
    let k = find(a, '=');
    if k < 0 {
        (lower(a), Seq::empty())
    } else {
        (lower(trim(a.take(k))), trim(a.skip(k + 1)))
    }
}

/// What one `;`-separated attribute does to what has been read.
pub open spec fn apply_attr(st: Attrs, attr: Seq<char>) -> Result<Attrs, Rejected> {
    let a = trim(attr);
    if a.len() == 0 {
        Ok(st)
    } else {
        let key = attr_key_val(a).0;
        let val = attr_key_val(a).1;
        if key == "domain"@ {
            let host = lower(trim_end_char(trim_start_char(val, '.'), '.'));
            if host.len() == 0 {
                Err(Rejected::BadAttribute("Domain"))
            } else {
                Ok(Attrs { domain: Some(host), ..st })
            }
        } else if key == "path"@ {
            if val.len() == 0 || val[0] != '/' {
                Err(Rejected::BadAttribute("Path"))
            } else {
                Ok(Attrs { path: Some(val), ..st })
            }
        } else if key == "secure"@ {
            Ok(Attrs { secure: true, ..st })
        } else if key == "httponly"@ {
            Ok(Attrs { http_only: true, ..st })
        } else if key == "samesite"@ {
            let v = lower(val);
            if v == "strict"@ {
                Ok(Attrs { same_site: SameSite::Strict, ..st })
            } else if v == "lax"@ {
                Ok(Attrs { same_site: SameSite::Lax, ..st })
            } else if v == "none"@ {
                Ok(Attrs { same_site: SameSite::Unrestricted, ..st })
            } else {
                Err(Rejected::BadAttribute("SameSite"))
            }
        } else if key == "max-age"@ {
            match parse_signed(val, i64::MIN as int, i64::MAX as int) {
                Some(n) => Ok(Attrs { max_age: Some(n), ..st }),
                None => Err(Rejected::BadAttribute("Max-Age")),
            }
        } else {
            Ok(st)
        }
    }
}

/// The attributes applied left to right, stopping at the first refusal.
pub open spec fn apply_attrs(st: Attrs, attrs: Seq<Seq<char>>) -> Result<Attrs, Rejected>
    decreases attrs.len(),
{
    if attrs.len() == 0 {
        Ok(st)
    } else {
        match apply_attr(st, attrs[0]) {
            Ok(next) => apply_attrs(next, attrs.drop_first()),
            Err(e) => Err(e),
        }
    }
}

/// When a cookie with this `Max-Age` expires, read at `now`: a non-positive
/// age has already expired; one past the end of the clock never does.
pub open spec fn expiry(max_age: Option<int>, now: u64) -> Option<u64> {
    match max_age {
        None => None,
        Some(s) => if s <= 0 {
            Some(now)
        } else if now + s * 1000 > u64::MAX {
            None
        } else {
            Some((now + s * 1000) as u64)
        },
    }
}

/// The checks made once every attribute has been read, and the cookie they
/// produce.
pub open spec fn finish(
    rules: Map<Seq<char>, RuleKind>,
    origin: OriginView,
    name: Seq<char>,
    value: Seq<char>,
    st: Attrs,
    now: u64,
) -> Result<CookieView, Rejected> {
    let secure_prefix = starts_with(name, "__Secure-"@);
    let host_prefix = starts_with(name, "__Host-"@);
    if st.same_site == SameSite::Unrestricted && !st.secure {
        Err(Rejected::InsecureSameSiteNone)
    } else if secure_prefix && !st.secure {
        Err(Rejected::PrefixViolation("a __Secure- cookie must set Secure"))
    } else if host_prefix && !st.secure {
        Err(Rejected::PrefixViolation("a __Host- cookie must set Secure"))
    } else if host_prefix && st.domain is Some {
        Err(Rejected::PrefixViolation("a __Host- cookie must not set Domain"))
    } else if host_prefix && st.path != Some("/"@) {
        Err(Rejected::PrefixViolation("a __Host- cookie must set Path=/"))
    } else {
        let host = lower(origin.host);
        let path = match st.path {
            Some(p) => p,
            None => "/"@,
        };
        match st.domain {
            Some(requested) => if registrable(
                rules,
                requested,
                is_ip_literal(normalized_host(requested)),
            ) is None {
                Err(Rejected::PublicSuffixDomain)
            } else if host != requested && !strictly_under(host, requested) {
                Err(Rejected::DomainMismatch)
            } else {
                Ok(
                    CookieView {
                        name,
                        value,
                        domain: requested,
                        host_only: false,
                        path,
                        secure: st.secure,
                        http_only: st.http_only,
                        same_site: st.same_site,
                        expires_at: expiry(st.max_age, now),
                    },
                )
            },
            None => Ok(
                CookieView {
                    name,
                    value,
                    domain: host,
                    host_only: true,
                    path,
                    secure: st.secure,
                    http_only: st.http_only,
                    same_site: st.same_site,
                    expires_at: expiry(st.max_age, now),
                },
            ),
        }
    }
}

/// What `Set-Cookie: header`, received from `origin` at `now`, stores or why
/// it is refused.
pub open spec fn cookie_of(
    rules: Map<Seq<char>, RuleKind>,
    origin: OriginView,
    header: Seq<char>,
    now: u64,
) -> Result<CookieView, Rejected> {
    let parts = split_char(header, ';');
    let pair = parts[0];
    let k = find(pair, '=');
    if vstd::utf8::encode_utf8(header).len() > MAX_COOKIE_BYTES {
        Err(Rejected::TooLarge)
    } else if k < 0 || trim(pair.take(k)).len() == 0 {
        Err(Rejected::Malformed)
    } else {
        match apply_attrs(no_attrs(), parts.skip(1)) {
            Ok(st) => finish(rules, origin, trim(pair.take(k)), trim(pair.skip(k + 1)), st, now),
            Err(e) => Err(e),
        }
    }
}

/// The attributes read so far, held as characters.
struct Pending {
    domain: Option<Vec<char>>,
    path: Option<Vec<char>>,
    secure: bool,
    http_only: bool,
    same_site: SameSite,
    max_age: Option<i64>,
}

impl View for Pending {
    type V = Attrs;

    closed spec fn view(&self) -> Attrs {
        Attrs {
            domain: match self.domain {
                Some(d) => Some(d@),
                None => None,
            },
            path: match self.path {
                Some(p) => Some(p@),
                None => None,
            },
            secure: self.secure,
            http_only: self.http_only,
            same_site: self.same_site,
            max_age: match self.max_age {
                Some(n) => Some(n as int),
                None => None,
            },
        }
    }
}

/// Whether the characters `k` spell the literal `lit`.
fn spells(k: &Vec<char>, lit: &str) -> (r: bool)
    ensures
        r == (k@ == lit@),
{
    vec_eq(k, &chars_of(lit))
}

/// One attribute, `v[lo..hi]`, applied to what has been read.
fn read_attr(v: &Vec<char>, lo: usize, hi: usize, st: Pending) -> (r: Result<Pending, Rejected>)
    requires
        lo <= hi <= v.len(),
    ensures
        match r {
            Ok(s) => apply_attr(st@, v@.subrange(lo as int, hi as int)) == Ok::<Attrs, Rejected>(s@),
            Err(e) => apply_attr(st@, v@.subrange(lo as int, hi as int)) == Err::<Attrs, Rejected>(e),
        },
{
    let (ta, tb) = trim_window(v, lo, hi);
    let ghost a = v@.subrange(ta as int, tb as int);
    if ta == tb {
        return Ok(st);
    }
    let (key, va, vb) = match find_in(v, ta, tb, '=') {
        Some(k) => {
            let (ka, kb) = trim_window(v, ta, ta + k);
            let (va, vb) = trim_window(v, ta + k + 1, tb);
            proof {
                assert(a.take(k as int) =~= v@.subrange(ta as int, ta + k));
                assert(a.skip(k + 1) =~= v@.subrange(ta + k + 1, tb as int));
            }
            (lower_window(v, ka, kb), va, vb)
        },
        None => {
            assert(v@.subrange(tb as int, tb as int) =~= Seq::<char>::empty());
            (lower_window(v, ta, tb), tb, tb)
        },
    };
    assert(key@ == attr_key_val(a).0);
    assert(v@.subrange(va as int, vb as int) == attr_key_val(a).1);
    let ghost val = v@.subrange(va as int, vb as int);
    let mut st = st;
    if spells(&key, "domain") {
        let (da, db) = trim_char_window(v, va, vb, '.');
        if da == db {
            return Err(Rejected::BadAttribute("Domain"));
        }
        st.domain = Some(lower_window(v, da, db));
        Ok(st)
    } else if spells(&key, "path") {
        if va == vb || v[va] != '/' {
            return Err(Rejected::BadAttribute("Path"));
        }
        st.path = Some(window_vec(v, va, vb));
        Ok(st)
    } else if spells(&key, "secure") {
        st.secure = true;
        Ok(st)
    } else if spells(&key, "httponly") {
        st.http_only = true;
        Ok(st)
    } else if spells(&key, "samesite") {
        let lv = lower_window(v, va, vb);
        if spells(&lv, "strict") {
            st.same_site = SameSite::Strict;
            Ok(st)
        } else if spells(&lv, "lax") {
            st.same_site = SameSite::Lax;
            Ok(st)
        } else if spells(&lv, "none") {
            st.same_site = SameSite::Unrestricted;
            Ok(st)
        } else {
            Err(Rejected::BadAttribute("SameSite"))
        }
    } else if spells(&key, "max-age") {
        match parse_i64_window(v, va, vb) {
            Some(n) => {
                st.max_age = Some(n);
                Ok(st)
            },
            None => Err(Rejected::BadAttribute("Max-Age")),
        }
    } else {
        Ok(st)
    }
}

/// When a cookie with this `Max-Age` expires, read at `now`.
fn expiry_at(max_age: Option<i64>, now: u64) -> (r: Option<u64>)
    ensures
        r == expiry(
            match max_age {
                Some(n) => Some(n as int),
                None => None,
            },
            now,
        ),
{
    match max_age {
        None => None,
        Some(s) => {
            if s <= 0 {
                Some(now)
            } else {
                let secs = s as u64;
                match secs.checked_mul(1000) {
                    Some(ms) => now.checked_add(ms),
                    None => {
                        assert(now + s * 1000 > u64::MAX);
                        None
                    },
                }
            }
        },
    }
}

/// The checks made once every attribute has been read.
fn finish_cookie(
    psl: &PublicSuffixList,
    origin: &Origin,
    name: &Vec<char>,
    value: &Vec<char>,
    st: Pending,
    now: u64,
) -> (r: Result<Cookie, Rejected>)
    ensures
        match r {
            Ok(c) => finish(psl@, origin@, name@, value@, st@, now) == Ok::<CookieView, Rejected>(c@),
            Err(e) => finish(psl@, origin@, name@, value@, st@, now) == Err::<CookieView, Rejected>(e),
        },
{
    assert(name@.subrange(0, name@.len() as int) =~= name@);
    let secure_prefix = window_starts_with(name, 0, name.len(), &chars_of("__Secure-"));
    let host_prefix = window_starts_with(name, 0, name.len(), &chars_of("__Host-"));
    if st.same_site == SameSite::Unrestricted && !st.secure {
        return Err(Rejected::InsecureSameSiteNone);
    }
    if secure_prefix && !st.secure {
        return Err(Rejected::PrefixViolation("a __Secure- cookie must set Secure"));
    }
    if host_prefix {
        if !st.secure {
            return Err(Rejected::PrefixViolation("a __Host- cookie must set Secure"));
        }
        if st.domain.is_some() {
            return Err(Rejected::PrefixViolation("a __Host- cookie must not set Domain"));
        }
        let root_path = match &st.path {
            Some(p) => spells(p, "/"),
            None => false,
        };
        if !root_path {
            return Err(Rejected::PrefixViolation("a __Host- cookie must set Path=/"));
        }
    }
    let ov = chars_of(origin.host());
    let host = lower_window(&ov, 0, ov.len());
    assert(ov@.subrange(0, ov@.len() as int) =~= ov@);
    let path = match &st.path {
        Some(p) => string_of_all(p),
        None => string_of_all(&chars_of("/")),
    };
    let expires_at = expiry_at(st.max_age, now);
    match st.domain {
        Some(requested) => {
            let requested_str = string_of_all(&requested);
            if psl.registrable_domain(requested_str.as_str()).is_none() {
                return Err(Rejected::PublicSuffixDomain);
            }
            if !vec_eq(&host, &requested) && !is_strictly_under(&host, &requested) {
                return Err(Rejected::DomainMismatch);
            }
            Ok(
                Cookie {
                    name: string_of_all(name),
                    value: string_of_all(value),
                    domain: requested_str,
                    host_only: false,
                    path,
                    secure: st.secure,
                    http_only: st.http_only,
                    same_site: st.same_site,
                    expires_at,
                },
            )
        },
        None => Ok(
            Cookie {
                name: string_of_all(name),
                value: string_of_all(value),
                domain: string_of_all(&host),
                host_only: true,
                path,
                secure: st.secure,
                http_only: st.http_only,
                same_site: st.same_site,
                expires_at,
            },
        ),
    }
}

/// Reading attributes never sets a path that does not start with `/`.
proof fn lemma_attrs_path(st: Attrs, attrs: Seq<Seq<char>>)
    requires
        st.path matches Some(p) ==> p.len() > 0 && p[0] == '/',
    ensures
        apply_attrs(st, attrs) matches Ok(end) ==> (end.path matches Some(p) ==> p.len() > 0 && p[0] == '/'),
    decreases attrs.len(),
{
    if attrs.len() > 0 {
        match apply_attr(st, attrs[0]) {
            Ok(next) => {
                lemma_attrs_path(next, attrs.drop_first());
            },
            Err(e) => {},
        }
    }
}

/// Parsing fails closed: a header over [`MAX_COOKIE_BYTES`] is refused as
/// too large, and any cookie it does give has a path from the root, is
/// `Secure` when it is `SameSite=None` or carries a `__Secure-` or
/// `__Host-` prefix, is host-only at `/` when it carries `__Host-`, and is
/// either host-only for the origin's host or set for a registrable domain
/// that the host is, or is under.
pub proof fn lemma_cookie_fails_closed(rules: Map<Seq<char>, RuleKind>, origin: OriginView, header: Seq<char>, now: u64)
    ensures
        vstd::utf8::encode_utf8(header).len() > 4096 ==> cookie_of(rules, origin, header, now) == Err::<
            CookieView,
            Rejected,
        >(Rejected::TooLarge),
        cookie_of(rules, origin, header, now) matches Ok(c) ==> {
            &&& c.path.len() > 0 && c.path[0] == '/'
            &&& c.same_site == SameSite::Unrestricted ==> c.secure
            &&& (starts_with(c.name, "__Secure-"@) || starts_with(c.name, "__Host-"@)) ==> c.secure
            &&& starts_with(c.name, "__Host-"@) ==> c.host_only && c.path == "/"@
            &&& c.host_only ==> c.domain == lower(origin.host)
            &&& !c.host_only ==> registrable(rules, c.domain, is_ip_literal(normalized_host(c.domain))) is Some && (lower(
                origin.host,
            ) == c.domain || strictly_under(lower(origin.host), c.domain))
        },
{
    reveal_strlit("/");
    let parts = split_char(header, ';');
    lemma_attrs_path(no_attrs(), parts.skip(1));
}

/// Parse one `Set-Cookie` value against the origin that sent it, at `now`.
#[verifier::loop_isolation(false)]
pub fn parse_at(psl: &PublicSuffixList, origin: &Origin, header: &str, now: u64) -> (r: Result<
    Cookie,
    Rejected,
>)
    ensures
        match r {
            Ok(c) => cookie_of(psl@, origin@, header@, now) == Ok::<CookieView, Rejected>(c@),
            Err(e) => cookie_of(psl@, origin@, header@, now) == Err::<CookieView, Rejected>(e),
        },
{
    let bytes = header.as_bytes();
    if bytes.len() > MAX_COOKIE_BYTES {
        return Err(Rejected::TooLarge);
    }
    let hv = chars_of(header);
    let bounds = split_bounds(&hv, ';');
    let ghost parts = split_char(hv@, ';');
    let (p0, p1) = bounds[0];
    let ghost pair = parts[0];
    assert(pair == hv@.subrange(p0 as int, p1 as int));
    let k = match find_in(&hv, p0, p1, '=') {
        Some(k) => k,
        None => {
            return Err(Rejected::Malformed);
        },
    };
    let (na, nb) = trim_window(&hv, p0, p0 + k);
    let (va, vb) = trim_window(&hv, p0 + k + 1, p1);
    proof {
        assert(pair.take(k as int) =~= hv@.subrange(p0 as int, p0 + k));
        assert(pair.skip(k + 1) =~= hv@.subrange(p0 + k + 1, p1 as int));
    }
    if na == nb {
        return Err(Rejected::Malformed);
    }
    let name = window_vec(&hv, na, nb);
    let value = window_vec(&hv, va, vb);
    let mut st = Pending {
        domain: None,
        path: None,
        secure: false,
        http_only: false,
        same_site: SameSite::Lax,
        max_age: None,
    };
    assert(st@ == no_attrs());
    let n = bounds.len();
    let mut j: usize = 1;
    assert(apply_attrs(no_attrs(), parts.skip(1)) == apply_attrs(st@, parts.skip(j as int)));
    while j < n
        invariant
            pieces_of(hv@, ';', parts, bounds@),
            n == bounds@.len() == parts.len(),
            1 <= j <= n,
            apply_attrs(no_attrs(), parts.skip(1)) == apply_attrs(st@, parts.skip(j as int)),
        decreases n - j,
    {
        let (a, b) = bounds[j];
        let ghost before = st@;
        assert(parts[j as int] == hv@.subrange(a as int, b as int));
        match read_attr(&hv, a, b, st) {
            Ok(next) => {
                st = next;
            },
            Err(e) => {
                proof {
                    assert(parts.skip(j as int)[0] == parts[j as int]);
                    assert(apply_attrs(before, parts.skip(j as int)) == Err::<Attrs, Rejected>(e));
                }
                return Err(e);
            },
        }
        proof {
            assert(parts.skip(j as int)[0] == parts[j as int]);
            assert(parts.skip(j as int).drop_first() =~= parts.skip(j + 1));
        }
        j += 1;
    }
    assert(parts.skip(n as int) =~= Seq::<Seq<char>>::empty());
    finish_cookie(psl, origin, &name, &value, st, now)
}

/// Parse one `Set-Cookie` value against the origin that sent it, now: an
/// expiry is counted in milliseconds from the moment of the call.
pub fn parse(psl: &PublicSuffixList, origin: &Origin, header: &str) -> (r: Result<Cookie, Rejected>)
    ensures
        exists|now: u64|
            #![trigger cookie_of(psl@, origin@, header@, now)]
            match r {
                Ok(c) => cookie_of(psl@, origin@, header@, now) == Ok::<CookieView, Rejected>(c@),
                Err(e) => cookie_of(psl@, origin@, header@, now) == Err::<CookieView, Rejected>(e),
            },
{
    let now = Clock::started().read();
    parse_at(psl, origin, header, now)
}

impl Cookie {
    /// Whether this cookie applies to `host`, label-wise: `notexample.com`
    /// does not match a cookie for `example.com`.
    pub fn matches_host(&self, host: &str) -> (r: bool)
        ensures
            r == host_matches(self@, host@),
    {
        let hv = chars_of(host);
        let h = lower_window(&hv, 0, hv.len());
        assert(hv@.subrange(0, hv@.len() as int) =~= hv@);
        let d = chars_of(self.domain.as_str());
        if vec_eq(&h, &d) {
            return true;
        }
        if self.host_only {
            return false;
        }
        is_strictly_under(&h, &d)
    }

    /// Whether this cookie applies to `path`, per the RFC 6265 rule.
    pub fn matches_path(&self, path: &str) -> (r: bool)
        ensures
            r == path_matches(self@.path, path@),
    {
        let pv = chars_of(path);
        let cp = chars_of(self.path.as_str());
        if vec_eq(&pv, &cp) {
            return true;
        }
        assert(pv@.subrange(0, pv@.len() as int) =~= pv@);
        if !window_starts_with(&pv, 0, pv.len(), &cp) {
            return false;
        }
        (cp.len() > 0 && cp[cp.len() - 1] == '/') || (pv.len() > cp.len() && pv[cp.len()] == '/')
    }

    /// Whether this cookie has expired at `now`.
    pub fn is_expired(&self, now: u64) -> (r: bool)
        ensures
            r == expired(self@, now),
    {
        match self.expires_at {
            Some(at) => at <= now,
            None => false,
        }
    }

    /// A copy with the same contents.
    pub fn duplicate(&self) -> (r: Cookie)
        ensures
            r@ == self@,
    {
        Cookie {
            name: self.name.clone(),
            value: self.value.clone(),
            domain: self.domain.clone(),
            host_only: self.host_only,
            path: self.path.clone(),
            secure: self.secure,
            http_only: self.http_only,
            same_site: self.same_site,
            expires_at: self.expires_at,
        }
    }
}

/// Two cookies occupy the same slot: same name, domain and path.
pub open spec fn same_slot(a: CookieView, b: CookieView) -> bool {
    a.name == b.name && a.domain == b.domain && a.path == b.path
}

/// The first position from `i` on whose cookie occupies `c`'s slot, or -1.
pub open spec fn slot_from(part: Seq<CookieView>, c: CookieView, i: int) -> int
    decreases part.len() - i,
{
    if i < 0 || i >= part.len() {
        -1
    } else if same_slot(part[i], c) {
        i
    } else {
        slot_from(part, c, i + 1)
    }
}

/// A partition after storing `c`: replacing the cookie in its slot, else
/// appending; `None` when it would grow past [`MAX_PER_KEY`].
pub open spec fn placed(part: Seq<CookieView>, c: CookieView) -> Option<Seq<CookieView>> {
    let j = slot_from(part, c, 0);
    if j >= 0 {
        Some(part.update(j, c))
    } else if part.len() >= MAX_PER_KEY {
        None
    } else {
        Some(part.push(c))
    }
}

/// What the jar holds for `key`: nothing when the key has no partition.
pub open spec fn partition_of(
    jar: Map<PartitionKeyView, Seq<CookieView>>,
    key: PartitionKeyView,
) -> Seq<CookieView> {
    if jar.contains_key(key) {
        jar[key]
    } else {
        Seq::empty()
    }
}

/// Whether cookie `c` goes out with a request to `origin` at `path` at `now`.
pub open spec fn sendable(c: CookieView, origin: OriginView, path: Seq<char>, cross_site: bool, now: u64) -> bool {
    &&& !expired(c, now)
    &&& host_matches(c, origin.host)
    &&& path_matches(c.path, path)
    &&& !c.secure || origin.scheme == crate::net::partition::https()
    &&& c.same_site == SameSite::Unrestricted || !cross_site
}

/// The cookies of `part` that go out with such a request, in stored order.
pub open spec fn sendable_of(
    part: Seq<CookieView>,
    origin: OriginView,
    path: Seq<char>,
    cross_site: bool,
    now: u64,
) -> Seq<CookieView>
    decreases part.len(),
{
    if part.len() == 0 {
        Seq::empty()
    } else {
        let rest = sendable_of(part.drop_last(), origin, path, cross_site, now);
        if sendable(part.last(), origin, path, cross_site, now) {
            rest.push(part.last())
        } else {
            rest
        }
    }
}

/// The cookies of `part` that have not expired at `now`, in stored order.
pub open spec fn live_of(part: Seq<CookieView>, now: u64) -> Seq<CookieView>
    decreases part.len(),
{
    if part.len() == 0 {
        Seq::empty()
    } else {
        let rest = live_of(part.drop_last(), now);
        if !expired(part.last(), now) {
            rest.push(part.last())
        } else {
            rest
        }
    }
}

/// How many cookies of the partitions `s` have not expired at `now`.
pub open spec fn live_total(s: Seq<(PartitionKeyView, Seq<CookieView>)>, now: u64) -> nat
    decreases s.len(),
{
    if s.len() == 0 {
        0
    } else {
        live_total(s.drop_last(), now) + live_of(s.last().1, now).len()
    }
}

/// No more cookies are live than are stored.
proof fn lemma_live_total_le(s: Seq<(PartitionKeyView, Seq<CookieView>)>, now: u64)
    ensures
        live_total(s, now) <= crate::net::assoc::total_len(s),
    decreases s.len(),
{
    if s.len() > 0 {
        lemma_live_total_le(s.drop_last(), now);
        lemma_live_len(s.last().1, now);
    }
}

/// A cookie that has expired stays expired: at any later reading of the
/// clock it is still expired.
pub proof fn lemma_expired_stays(c: CookieView, earlier: u64, later: u64)
    requires
        expired(c, earlier),
        earlier <= later,
    ensures
        expired(c, later),
{
}

/// A cookie expired at `now` is never among those sent at `now`: what
/// [`Jar::cookies_for`] hands out at a reading no earlier than a cookie's
/// expiry (for one stored with `Max-Age=0`, the reading it was stored at)
/// never holds it.
pub proof fn lemma_expired_never_sent(
    part: Seq<CookieView>,
    origin: OriginView,
    path: Seq<char>,
    cross_site: bool,
    now: u64,
    c: CookieView,
)
    requires
        expired(c, now),
    ensures
        !sendable_of(part, origin, path, cross_site, now).contains(c),
    decreases part.len(),
{
    if part.len() > 0 {
        lemma_expired_never_sent(part.drop_last(), origin, path, cross_site, now, c);
        let rest = sendable_of(part.drop_last(), origin, path, cross_site, now);
        if sendable(part.last(), origin, path, cross_site, now) {
            assert(part.last() != c);
            assert forall|i: int| 0 <= i < rest.push(part.last()).len() implies rest.push(part.last())[i] != c by {
                if i < rest.len() {
                    assert(rest.push(part.last())[i] == rest[i]);
                }
            }
        }
    }
}

/// A cookie goes out only with a request whose path it path-matches: the
/// request path is the cookie's path, or begins with it and the cookie's
/// path ends in `/` or the next character of the request path is `/`. So a
/// cookie for `/docs` goes out for `/docs` and `/docs/a`, never for
/// `/docsearch`.
pub proof fn lemma_sent_only_on_its_path(
    part: Seq<CookieView>,
    origin: OriginView,
    path: Seq<char>,
    cross_site: bool,
    now: u64,
    c: CookieView,
)
    requires
        sendable_of(part, origin, path, cross_site, now).contains(c),
    ensures
        path == c.path || {
            &&& c.path.len() <= path.len()
            &&& forall|i: int| 0 <= i < c.path.len() ==> path[i] == c.path[i]
            &&& (c.path.len() > 0 && c.path[c.path.len() - 1] == '/') || (path.len() > c.path.len()
                && path[c.path.len() as int] == '/')
        },
    decreases part.len(),
{
    if part.len() > 0 {
        let rest = sendable_of(part.drop_last(), origin, path, cross_site, now);
        if sendable(part.last(), origin, path, cross_site, now) && c == part.last() {
            if path != c.path {
                assert forall|i: int| 0 <= i < c.path.len() implies path[i] == c.path[i] by {
                    assert(path.take(c.path.len() as int)[i] == path[i]);
                }
            }
        } else {
            if sendable(part.last(), origin, path, cross_site, now) {
                let k = choose|k: int| 0 <= k < rest.push(part.last()).len() && rest.push(part.last())[k] == c;
                assert(k < rest.len());
                assert(rest[k] == c);
            }
            lemma_sent_only_on_its_path(part.drop_last(), origin, path, cross_site, now, c);
        }
    }
}

/// What goes out is stored and passes the per-cookie rule.
proof fn lemma_sent_is_sendable(
    part: Seq<CookieView>,
    origin: OriginView,
    path: Seq<char>,
    cross_site: bool,
    now: u64,
    c: CookieView,
)
    requires
        sendable_of(part, origin, path, cross_site, now).contains(c),
    ensures
        sendable(c, origin, path, cross_site, now),
        part.contains(c),
    decreases part.len(),
{
    if part.len() > 0 {
        let rest = sendable_of(part.drop_last(), origin, path, cross_site, now);
        if sendable(part.last(), origin, path, cross_site, now) && c == part.last() {
            assert(part[part.len() - 1] == c);
        } else {
            if sendable(part.last(), origin, path, cross_site, now) {
                let k = choose|k: int| 0 <= k < rest.push(part.last()).len() && rest.push(part.last())[k] == c;
                assert(rest[k] == c);
            }
            lemma_sent_is_sendable(part.drop_last(), origin, path, cross_site, now, c);
            let j = choose|j: int| 0 <= j < part.drop_last().len() && part.drop_last()[j] == c;
            assert(part[j] == c);
        }
    }
}

/// A cookie goes out only if it was stored, has not expired (its expiry,
/// if any, is later than `now`), is for the request's host (the host,
/// lowercased, is the cookie's domain, or, for a cookie that is not
/// host-only, ends in `.` and the domain), is not `Secure` unless the
/// request goes over `https`, and is `SameSite=None` unless the request is
/// same-site.
pub proof fn lemma_sent_cookie_rules(
    part: Seq<CookieView>,
    origin: OriginView,
    path: Seq<char>,
    cross_site: bool,
    now: u64,
    c: CookieView,
)
    requires
        sendable_of(part, origin, path, cross_site, now).contains(c),
    ensures
        part.contains(c),
        c.expires_at matches Some(at) ==> now < at,
        ({
            let h = lower(origin.host);
            let d = c.domain;
            ||| h == d
            ||| !c.host_only && h.len() >= d.len() + 2 && h[h.len() - d.len() - 1] == '.' && forall|i: int|
                0 <= i < d.len() ==> h[h.len() - d.len() + i] == d[i]
        }),
        c.secure ==> origin.scheme == crate::net::partition::https(),
        c.same_site != SameSite::Unrestricted ==> !cross_site,
{
    lemma_sent_is_sendable(part, origin, path, cross_site, now, c);
    let h = lower(origin.host);
    let d = c.domain;
    if h != d {
        assert forall|i: int| 0 <= i < d.len() implies h[h.len() - d.len() + i] == d[i] by {
            assert(h.skip(h.len() - d.len())[i] == h[h.len() - d.len() + i]);
        }
    }
}

/// And conversely, a stored cookie that has not expired, whose host
/// matches, whose path is the request path or a prefix of it ending at a
/// `/` boundary, that is not `Secure` or goes over `https`, and that is
/// `SameSite=None` or goes with a same-site request, does go out.
pub proof fn lemma_sent_when_it_matches(
    part: Seq<CookieView>,
    origin: OriginView,
    path: Seq<char>,
    cross_site: bool,
    now: u64,
    c: CookieView,
)
    requires
        part.contains(c),
        !expired(c, now),
        host_matches(c, origin.host),
        path == c.path || {
            &&& c.path.len() <= path.len()
            &&& forall|i: int| 0 <= i < c.path.len() ==> path[i] == c.path[i]
            &&& (c.path.len() > 0 && c.path[c.path.len() - 1] == '/') || (path.len() > c.path.len()
                && path[c.path.len() as int] == '/')
        },
        !c.secure || origin.scheme == crate::net::partition::https(),
        c.same_site == SameSite::Unrestricted || !cross_site,
    ensures
        sendable_of(part, origin, path, cross_site, now).contains(c),
    decreases part.len(),
{
    if path != c.path {
        assert(path.take(c.path.len() as int) =~= c.path);
    }
    assert(sendable(c, origin, path, cross_site, now));
    let rest = sendable_of(part.drop_last(), origin, path, cross_site, now);
    if part.last() == c {
        assert(rest.push(c)[rest.len() as int] == c);
    } else {
        let k = choose|k: int| 0 <= k < part.len() && part[k] == c;
        assert(k < part.len() - 1);
        assert(part.drop_last()[k] == c);
        lemma_sent_when_it_matches(part.drop_last(), origin, path, cross_site, now, c);
        if sendable(part.last(), origin, path, cross_site, now) {
            let j = choose|j: int| 0 <= j < rest.len() && rest[j] == c;
            assert(rest.push(part.last())[j] == c);
        }
    }
}

/// The jar after dropping what has expired at `now`: each partition keeps
/// its live cookies, and a partition left with none is dropped.
pub open spec fn expired_away(
    jar: Map<PartitionKeyView, Seq<CookieView>>,
    now: u64,
) -> Map<PartitionKeyView, Seq<CookieView>> {
    Map::new(
        |k: PartitionKeyView| jar.contains_key(k) && live_of(jar[k], now).len() > 0,
        |k: PartitionKeyView| live_of(jar[k], now),
    )
}

/// The views of a run of cookies.
pub open spec fn cookie_views(s: Seq<Cookie>) -> Seq<CookieView> {
    s.map_values(|c: Cookie| c@)
}

/// The views of the jar's partitions, in the order they were first used.
pub open spec fn partition_views(e: Seq<(PartitionKey, Vec<Cookie>)>) -> Seq<(PartitionKeyView, Seq<CookieView>)> {
    e.map_values(|p: (PartitionKey, Vec<Cookie>)| (p.0@, cookie_views(p.1@)))
}

/// Cookies, partitioned by [`PartitionKey`].
pub struct Jar {
    entries: Vec<(PartitionKey, Vec<Cookie>)>,
    clock: Clock,
}

impl View for Jar {
    type V = Map<PartitionKeyView, Seq<CookieView>>;

    closed spec fn view(&self) -> Map<PartitionKeyView, Seq<CookieView>> {
        map_of(partition_views(self.entries@))
    }
}

impl Jar {
    #[verifier::type_invariant]
    closed spec fn inv(self) -> bool {
        &&& distinct_keys(partition_views(self.entries@))
        &&& forall|i: int| 0 <= i < self.entries@.len() ==> #[trigger] self.entries@[i].1@.len() <= MAX_PER_KEY
    }

    /// How many cookies are stored, over every partition.
    pub closed spec fn count(&self) -> nat {
        crate::net::assoc::total_len(partition_views(self.entries@))
    }

    /// The clock reading of the jar's last storing or expiring call; later
    /// calls read the clock no earlier.
    pub closed spec fn reading(&self) -> u64 {
        self.clock.last()
    }

    /// How many of the stored cookies have not expired at `now`.
    pub closed spec fn live_count(&self, now: u64) -> nat {
        live_total(partition_views(self.entries@), now)
    }

    /// An empty jar.
    pub fn new() -> (r: Jar)
        ensures
            r@ == Map::<PartitionKeyView, Seq<CookieView>>::empty(),
            r.count() == 0,
            r.reading() == 0,
    {
        let r = Jar { entries: Vec::new(), clock: Clock::started() };
        assert(r@ =~= Map::<PartitionKeyView, Seq<CookieView>>::empty());
        r
    }

    /// Put `cs` in place of the cookies of the `i`th partition, and hand back
    /// what was there.
    fn swap_partition(&mut self, i: usize, cs: Vec<Cookie>) -> (r: Vec<Cookie>)
        requires
            i < old(self).entries@.len(),
            cs@.len() <= MAX_PER_KEY,
        ensures
            final(self).entries@.len() == old(self).entries@.len(),
            partition_views(final(self).entries@) == partition_views(old(self).entries@).update(
                i as int,
                (partition_views(old(self).entries@)[i as int].0, cookie_views(cs@)),
            ),
            r@ == old(self).entries@[i as int].1@,
            final(self).entries@[i as int].1@ == cs@,
            final(self)@ == old(self)@.insert(partition_views(old(self).entries@)[i as int].0, cookie_views(cs@)),
            final(self).count() == old(self).count() - r@.len() + cs@.len(),
            final(self).reading() == old(self).reading(),
    {
        proof {
            use_type_invariant(&*self);
        }
        let ghost old_e = self.entries@;
        let ghost cv = cookie_views(cs@);
        let mut taken = Jar { entries: Vec::new(), clock: self.clock };
        std::mem::swap(&mut taken, self);
        let Jar { entries: mut es, clock } = taken;
        let (k, old_cs) = es.remove(i);
        es.insert(i, (k, cs));
        proof {
            let s = partition_views(old_e);
            assert(partition_views(es@) =~= s.update(i as int, (s[i as int].0, cv)));
            lemma_map_of_update(s, i as int, cv);
            crate::net::assoc::lemma_total_update(s, i as int, cv);
            assert forall|j: int| 0 <= j < es@.len() implies #[trigger] es@[j].1@.len() <= MAX_PER_KEY by {
                if j != i {
                    assert(es@[j] == old_e[j]);
                }
            }
        }
        *self = Jar { entries: es, clock };
        old_cs
    }

    /// Store a `Set-Cookie` received from `key`'s origin, at `now`.
    ///
    /// A cookie in the same slot (name, domain, path) is replaced; otherwise
    /// the cookie is added unless its partition is full. Only `key`'s
    /// partition changes.
    pub fn store_at(&mut self, psl: &PublicSuffixList, key: &PartitionKey, header: &str, now: u64) -> (r: Result<
        (),
        Rejected,
    >)
        ensures
            match cookie_of(psl@, key@.origin, header@, now) {
                Err(e) => r == Err::<(), Rejected>(e) && final(self)@ == old(self)@ && final(self).count()
                    == old(self).count(),
                Ok(c) => match placed(partition_of(old(self)@, key@), c) {
                    Some(p) => r == Ok::<(), Rejected>(()) && final(self)@ == old(self)@.insert(key@, p)
                        && final(self).count() == old(self).count() + p.len() - partition_of(
                        old(self)@,
                        key@,
                    ).len(),
                    None => r == Err::<(), Rejected>(Rejected::JarFull) && final(self)@ == old(self)@
                        && final(self).count() == old(self).count(),
                },
            },
            forall|k: PartitionKeyView| #[trigger] final(self)@.contains_key(k) ==> final(self)@[k].len()
                <= MAX_PER_KEY,
            final(self).reading() == old(self).reading(),
    {
        proof {
            use_type_invariant(&*self);
            lemma_bounded(self.entries@);
        }
        let cookie = match parse_at(psl, key.origin(), header, now) {
            Ok(c) => c,
            Err(e) => {
                return Err(e);
            },
        };
        let ghost cv = cookie@;
        match self.position(key) {
            None => {
                let ghost old_e = partition_views(self.entries@);
                let mut taken = Jar { entries: Vec::new(), clock: self.clock };
                std::mem::swap(&mut taken, self);
                let Jar { entries: mut es, clock } = taken;
                let ghost es0 = es@;
                assert(forall|j: int| 0 <= j < es0.len() ==> #[trigger] es0[j].1@.len() <= MAX_PER_KEY);
                let mut cs: Vec<Cookie> = Vec::new();
                cs.push(cookie);
                es.push((key.duplicate(), cs));
                proof {
                    assert(cookie_views(cs@) =~= seq![cv]);
                    assert(partition_views(es@) =~= old_e.push((key@, seq![cv])));
                    lemma_map_of_push(old_e, key@, seq![cv]);
                    assert(partition_views(es@).drop_last() =~= old_e);
                    assert(slot_from(Seq::<CookieView>::empty(), cv, 0) == -1);
                    assert forall|j: int| 0 <= j < es@.len() implies #[trigger] es@[j].1@.len() <= MAX_PER_KEY by {
                        if j < es0.len() {
                            assert(es@[j] == es0[j]);
                        }
                    }
                    assert(Seq::<CookieView>::empty().push(cv) =~= seq![cv]);
                }
                *self = Jar { entries: es, clock };
                proof {
                    use_type_invariant(&*self);
                    lemma_bounded(self.entries@);
                    assert(self.count() == old(self).count() + 1);
                    assert(partition_of(old(self)@, key@) == Seq::<CookieView>::empty());
                }
                Ok(())
            },
            Some(i) => {
                proof {
                    lemma_map_of_at(partition_views(self.entries@), i as int);
                }
                let ghost part = cookie_views(self.entries@[i as int].1@);
                match slot_index(&self.entries[i].1, &cookie) {
                    Some(j) => {
                        let mut cs = self.swap_partition(i, Vec::new());
                        cs.set(j, cookie);
                        proof {
                            assert(cookie_views(cs@) =~= part.update(j as int, cv));
                        }
                        let _ = self.swap_partition(i, cs);
                        proof {
                            use_type_invariant(&*self);
                            lemma_bounded(self.entries@);
                            assert(self@ =~= old(self)@.insert(key@, part.update(j as int, cv)));
                            assert(partition_of(old(self)@, key@) == part);
                            assert(self.count() == old(self).count());
                        }
                        Ok(())
                    },
                    None => {
                        if self.entries[i].1.len() >= MAX_PER_KEY {
                            return Err(Rejected::JarFull);
                        }
                        let mut cs = self.swap_partition(i, Vec::new());
                        cs.push(cookie);
                        proof {
                            assert(cookie_views(cs@) =~= part.push(cv));
                        }
                        let _ = self.swap_partition(i, cs);
                        proof {
                            use_type_invariant(&*self);
                            lemma_bounded(self.entries@);
                            assert(self@ =~= old(self)@.insert(key@, part.push(cv)));
                            assert(partition_of(old(self)@, key@) == part);
                            assert(self.count() == old(self).count() + 1);
                        }
                        Ok(())
                    },
                }
            },
        }
    }

    /// Store a `Set-Cookie` received from `key`'s origin, now: at a clock
    /// reading no earlier than the jar's last, which becomes its last.
    pub fn store(&mut self, psl: &PublicSuffixList, key: &PartitionKey, header: &str) -> (r: Result<
        (),
        Rejected,
    >)
        ensures
            exists|now: u64|
                #![trigger cookie_of(psl@, key@.origin, header@, now)]
                old(self).reading() <= now && final(self).reading() == now && match cookie_of(psl@, key@.origin, header@, now) {
                    Err(e) => r == Err::<(), Rejected>(e) && final(self)@ == old(self)@ && final(self).count()
                        == old(self).count(),
                    Ok(c) => match placed(partition_of(old(self)@, key@), c) {
                        Some(p) => r == Ok::<(), Rejected>(()) && final(self)@ == old(self)@.insert(key@, p)
                            && final(self).count() == old(self).count() + p.len() - partition_of(
                            old(self)@,
                            key@,
                        ).len(),
                        None => r == Err::<(), Rejected>(Rejected::JarFull) && final(self)@ == old(self)@
                            && final(self).count() == old(self).count(),
                    },
                },
            forall|k: PartitionKeyView| #[trigger] final(self)@.contains_key(k) ==> final(self)@[k].len()
                <= MAX_PER_KEY,
    {
        proof {
            use_type_invariant(&*self);
        }
        let (clock, now) = self.clock.advanced();
        self.clock = clock;
        assert(self@ == old(self)@);
        assert(self.reading() == now);
        self.store_at(psl, key, header, now)
    }

    /// The cookies to send with a request to `key`'s origin at `path`, at
    /// `now`: from `key`'s partition only, and of those the ones not expired,
    /// matching host and path, not `Secure` on a plaintext origin, and allowed
    /// by `SameSite` when `cross_site`.
    pub fn cookies_for_at(&self, key: &PartitionKey, path: &str, cross_site: bool, now: u64) -> (r: Vec<&Cookie>)
        ensures
            r@.map_values(|c: &Cookie| c@) == sendable_of(
                partition_of(self@, key@),
                key@.origin,
                path@,
                cross_site,
                now,
            ),
    {
        proof {
            use_type_invariant(self);
        }
        let mut out: Vec<&Cookie> = Vec::new();
        let i = match self.position(key) {
            Some(i) => i,
            None => {
                assert(out@.map_values(|c: &Cookie| c@) =~= Seq::<CookieView>::empty());
                return out;
            },
        };
        proof {
            lemma_map_of_at(partition_views(self.entries@), i as int);
        }
        let part = &self.entries[i].1;
        let ghost pv = cookie_views(part@);
        let origin = key.origin();
        let secure = origin.is_secure();
        let host = origin.host();
        let mut j: usize = 0;
        assert(pv.take(0) =~= Seq::<CookieView>::empty());
        assert(out@.map_values(|c: &Cookie| c@) =~= Seq::<CookieView>::empty());
        while j < part.len()
            invariant
                j <= part@.len(),
                pv == cookie_views(part@),
                host@ == key@.origin.host,
                secure == (key@.origin.scheme == crate::net::partition::https()),
                out@.map_values(|c: &Cookie| c@) == sendable_of(pv.take(j as int), key@.origin, path@, cross_site, now),
            decreases part@.len() - j,
        {
            let c = &part[j];
            assert(pv.take(j + 1).drop_last() =~= pv.take(j as int));
            assert(pv.take(j + 1).last() == c@);
            if !c.is_expired(now) && c.matches_host(host) && c.matches_path(path) && (!c.secure || secure)
                && (c.same_site == SameSite::Unrestricted || !cross_site) {
                let ghost before = out@;
                out.push(c);
                assert(out@.map_values(|c: &Cookie| c@) =~= before.map_values(|c: &Cookie| c@).push(c@));
            }
            j += 1;
        }
        assert(pv.take(part@.len() as int) =~= pv);
        out
    }

    /// The cookies to send with a request to `key`'s origin at `path`, now:
    /// at a clock reading no earlier than the jar's last.
    pub fn cookies_for(&self, key: &PartitionKey, path: &str, cross_site: bool) -> (r: Vec<&Cookie>)
        ensures
            exists|now: u64|
                #![trigger sendable_of(partition_of(self@, key@), key@.origin, path@, cross_site, now)]
                self.reading() <= now && r@.map_values(|c: &Cookie| c@) == sendable_of(
                    partition_of(self@, key@),
                    key@.origin,
                    path@,
                    cross_site,
                    now,
                ),
    {
        let now = self.clock.read();
        self.cookies_for_at(key, path, cross_site, now)
    }

    /// Drop everything stored for one partition; the others are untouched.
    pub fn forget(&mut self, key: &PartitionKey)
        ensures
            final(self)@ == old(self)@.remove(key@),
            final(self).count() == old(self).count() - partition_of(old(self)@, key@).len(),
            final(self).reading() == old(self).reading(),
    {
        proof {
            use_type_invariant(&*self);
        }
        match self.position(key) {
            None => {
                assert(self@ =~= old(self)@.remove(key@));
            },
            Some(i) => {
                let ghost s = partition_views(self.entries@);
                proof {
                    lemma_map_of_at(s, i as int);
                }
                let mut taken = Jar { entries: Vec::new(), clock: self.clock };
                std::mem::swap(&mut taken, self);
                let Jar { entries: mut es, clock } = taken;
                let ghost old_es = es@;
                assert(forall|j: int| 0 <= j < old_es.len() ==> #[trigger] old_es[j].1@.len() <= MAX_PER_KEY);
                let _ = es.remove(i);
                proof {
                    assert(partition_views(es@) =~= s.remove(i as int));
                    lemma_map_of_remove(s, i as int);
                    crate::net::assoc::lemma_total_remove(s, i as int);
                    assert forall|j: int| 0 <= j < es@.len() implies #[trigger] es@[j].1@.len() <= MAX_PER_KEY by {
                        if j < i {
                            assert(es@[j] == old_es[j]);
                            assert(old_es[j].1@.len() <= MAX_PER_KEY);
                        } else {
                            assert(es@[j] == old_es[j + 1]);
                            assert(old_es[j + 1].1@.len() <= MAX_PER_KEY);
                        }
                    }
                }
                *self = Jar { entries: es, clock };
            },
        }
    }

    /// How many cookies are stored in total (at most `usize::MAX`).
    pub fn len(&self) -> (n: usize)
        ensures
            n == if self.count() <= usize::MAX { self.count() } else { usize::MAX as nat },
    {
        let ghost s = partition_views(self.entries@);
        let mut total: usize = 0;
        let mut i: usize = 0;
        assert(s.take(0) =~= Seq::<(PartitionKeyView, Seq<CookieView>)>::empty());
        while i < self.entries.len()
            invariant
                i <= self.entries@.len(),
                s == partition_views(self.entries@),
                total == if crate::net::assoc::total_len(s.take(i as int)) <= usize::MAX {
                    crate::net::assoc::total_len(s.take(i as int))
                } else {
                    usize::MAX as nat
                },
            decreases self.entries@.len() - i,
        {
            assert(s.take(i + 1).drop_last() =~= s.take(i as int));
            let here = self.entries[i].1.len();
            assert(s.take(i + 1).last().1.len() == here);
            if total > usize::MAX - here {
                total = usize::MAX;
            } else {
                total = total + here;
            }
            i += 1;
        }
        assert(s.take(self.entries@.len() as int) =~= s);
        total
    }

    /// Whether the jar holds nothing.
    pub fn is_empty(&self) -> (r: bool)
        ensures
            r == (self.count() == 0),
    {
        self.len() == 0
    }

    /// Drop the cookies that have expired at `now`; a partition left with
    /// none is dropped too.
    pub fn expire_at(&mut self, now: u64)
        ensures
            final(self)@ == expired_away(old(self)@, now),
            final(self).count() == old(self).live_count(now),
            final(self).count() <= old(self).count(),
            final(self).reading() == old(self).reading(),
    {
        proof {
            use_type_invariant(&*self);
        }
        let mut taken = Jar { entries: Vec::new(), clock: self.clock };
        std::mem::swap(&mut taken, self);
        let Jar { entries: es, clock } = taken;
        let ghost s = partition_views(es@);
        let mut kept: Vec<(PartitionKey, Vec<Cookie>)> = Vec::new();
        let mut i: usize = 0;
        assert(partition_views(kept@) =~= Seq::<(PartitionKeyView, Seq<CookieView>)>::empty());
        assert(s.take(0) =~= Seq::<(PartitionKeyView, Seq<CookieView>)>::empty());
        while i < es.len()
            invariant
                i <= es@.len(),
                s == partition_views(es@),
                s == partition_views(old(self).entries@),
                distinct_keys(s),
                distinct_keys(partition_views(kept@)),
                crate::net::assoc::total_len(partition_views(kept@)) == live_total(s.take(i as int), now),
                forall|j: int| 0 <= j < kept@.len() ==> #[trigger] kept@[j].1@.len() <= MAX_PER_KEY,
                forall|j: int| 0 <= j < es@.len() ==> #[trigger] es@[j].1@.len() <= MAX_PER_KEY,
                forall|k: PartitionKeyView| #[trigger] map_of(partition_views(kept@)).contains_key(k) ==> exists|j: int|
                    0 <= j < i && s[j].0 == k && live_of(s[j].1, now).len() > 0,
                forall|j: int|
                    0 <= j < i && live_of(#[trigger] s[j].1, now).len() > 0 ==> map_of(
                        partition_views(kept@),
                    ).contains_key(s[j].0) && map_of(partition_views(kept@))[s[j].0] == live_of(s[j].1, now),
            decreases es@.len() - i,
        {
            let live = live_cookies(&es[i].1, now);
            proof {
                assert(s.take(i + 1).drop_last() =~= s.take(i as int));
                assert(s.take(i + 1).last() == s[i as int]);
                assert(s[i as int].1 == cookie_views(es@[i as int].1@));
            }
            if live.len() > 0 {
                let ghost before = partition_views(kept@);
                let ghost k = s[i as int].0;
                proof {
                    if map_of(before).contains_key(k) {
                        let j = choose|j: int| 0 <= j < i && s[j].0 == k && live_of(s[j].1, now).len() > 0;
                        assert(s[j].0 != s[i as int].0);
                    }
                    lemma_live_len(cookie_views(es@[i as int].1@), now);
                }
                let ghost lv = cookie_views(live@);
                let ghost kept0 = kept@;
                kept.push((es[i].0.duplicate(), live));
                proof {
                    assert(partition_views(kept@) =~= before.push((k, lv)));
                    assert(partition_views(kept@).drop_last() =~= before);
                    lemma_map_of_push(before, k, lv);
                    assert forall|j: int| 0 <= j < kept@.len() implies #[trigger] kept@[j].1@.len() <= MAX_PER_KEY by {
                        if j < kept@.len() - 1 {
                            assert(kept@[j] == kept0[j]);
                        }
                    }
                }
            }
            i += 1;
        }
        let ghost t = partition_views(kept@);
        proof {
            assert forall|k: PartitionKeyView| #[trigger] map_of(t).contains_key(k) == expired_away(old(self)@, now).contains_key(k)
                && (map_of(t).contains_key(k) ==> map_of(t)[k] == expired_away(old(self)@, now)[k]) by {
                lemma_map_of_dom(s, k);
                if map_of(t).contains_key(k) {
                    let j = choose|j: int| 0 <= j < i && s[j].0 == k && live_of(s[j].1, now).len() > 0;
                    lemma_map_of_at(s, j);
                }
                if expired_away(old(self)@, now).contains_key(k) {
                    let j = choose|j: int| 0 <= j < s.len() && s[j].0 == k;
                    lemma_map_of_at(s, j);
                }
            }
            assert(map_of(t) =~= expired_away(old(self)@, now));
            assert(s.take(es@.len() as int) =~= s);
            lemma_live_total_le(s, now);
        }
        *self = Jar { entries: kept, clock };
    }

    /// Drop the cookies that have expired now.
    pub fn expire(&mut self)
        ensures
            exists|now: u64|
                #![trigger expired_away(old(self)@, now)]
                old(self).reading() <= now && final(self).reading() == now && final(self)@ == expired_away(old(self)@, now)
                    && final(self).count() == old(self).live_count(now),
            final(self).count() <= old(self).count(),
    {
        proof {
            use_type_invariant(&*self);
        }
        let (clock, now) = self.clock.advanced();
        self.clock = clock;
        assert(self@ == old(self)@);
        assert(self.reading() == now);
        self.expire_at(now)
    }

    /// Where `key`'s partition is in the list, if it has one.
    fn position(&self, key: &PartitionKey) -> (r: Option<usize>)
        ensures
            match r {
                Some(i) => i < self.entries@.len() && partition_views(self.entries@)[i as int].0 == key@,
                None => !self@.contains_key(key@),
            },
    {
        let mut i: usize = 0;
        while i < self.entries.len()
            invariant
                i <= self.entries@.len(),
                forall|j: int| 0 <= j < i ==> partition_views(self.entries@)[j].0 != key@,
            decreases self.entries@.len() - i,
        {
            if self.entries[i].0.same_as(key) {
                return Some(i);
            }
            i += 1;
        }
        proof {
            lemma_map_of_dom(partition_views(self.entries@), key@);
        }
        None
    }
}

/// The per-partition bound and the count, read off the list of partitions.
proof fn lemma_bounded(e: Seq<(PartitionKey, Vec<Cookie>)>)
    requires
        distinct_keys(partition_views(e)),
        forall|i: int| 0 <= i < e.len() ==> #[trigger] e[i].1@.len() <= MAX_PER_KEY,
    ensures
        forall|k: PartitionKeyView| #[trigger] map_of(partition_views(e)).contains_key(k)
            ==> map_of(partition_views(e))[k].len() <= MAX_PER_KEY
            && crate::net::assoc::total_len(partition_views(e)) >= map_of(partition_views(e))[k].len(),
        map_of(partition_views(e)).dom().finite(),
        map_of(partition_views(e)).dom().len() == e.len(),
{
    let s = partition_views(e);
    lemma_map_of_len(s);
    assert forall|k: PartitionKeyView| #[trigger] map_of(s).contains_key(k) implies map_of(s)[k].len()
        <= MAX_PER_KEY && crate::net::assoc::total_len(s) >= map_of(s)[k].len() by {
        lemma_map_of_dom(s, k);
        let i = choose|i: int| 0 <= i < s.len() && s[i].0 == k;
        lemma_map_of_at(s, i);
        assert(e[i].1@.len() <= MAX_PER_KEY);
        crate::net::assoc::lemma_total_at_least(s, i);
    }
}

/// Where in `part` a cookie for `c`'s slot already is, if anywhere.
fn slot_index(part: &Vec<Cookie>, c: &Cookie) -> (r: Option<usize>)
    ensures
        match r {
            Some(j) => j < part@.len() && slot_from(cookie_views(part@), c@, 0) == j,
            None => slot_from(cookie_views(part@), c@, 0) == -1,
        },
{
    let ghost v = cookie_views(part@);
    let mut i: usize = 0;
    while i < part.len()
        invariant
            i <= part@.len(),
            v == cookie_views(part@),
            slot_from(v, c@, 0) == slot_from(v, c@, i as int),
        decreases part@.len() - i,
    {
        if part[i].name == c.name && part[i].domain == c.domain && part[i].path == c.path {
            return Some(i);
        }
        i += 1;
    }
    None
}

/// Dropping expired cookies never lengthens a partition.
proof fn lemma_live_len(part: Seq<CookieView>, now: u64)
    ensures
        live_of(part, now).len() <= part.len(),
    decreases part.len(),
{
    if part.len() > 0 {
        lemma_live_len(part.drop_last(), now);
    }
}

/// Copies of the cookies of `part` that have not expired at `now`.
fn live_cookies(part: &Vec<Cookie>, now: u64) -> (r: Vec<Cookie>)
    ensures
        cookie_views(r@) == live_of(cookie_views(part@), now),
{
    let ghost pv = cookie_views(part@);
    let mut out: Vec<Cookie> = Vec::new();
    let mut j: usize = 0;
    assert(pv.take(0) =~= Seq::<CookieView>::empty());
    assert(cookie_views(out@) =~= Seq::<CookieView>::empty());
    while j < part.len()
        invariant
            j <= part@.len(),
            pv == cookie_views(part@),
            cookie_views(out@) == live_of(pv.take(j as int), now),
        decreases part@.len() - j,
    {
        assert(pv.take(j + 1).drop_last() =~= pv.take(j as int));
        assert(pv.take(j + 1).last() == part@[j as int]@);
        if !part[j].is_expired(now) {
            let ghost before = out@;
            out.push(part[j].duplicate());
            assert(cookie_views(out@) =~= cookie_views(before).push(part@[j as int]@));
        }
        j += 1;
    }
    assert(pv.take(part@.len() as int) =~= pv);
    out
}

/// The message a refusal is shown with.
pub open spec fn rejected_text(r: Rejected) -> Seq<char> {
    match r {
        Rejected::TooLarge => "the Set-Cookie header is too large"@,
        Rejected::Malformed => "no name=value in the Set-Cookie header"@,
        Rejected::BadAttribute(which) => "unparseable "@ + which@ + " attribute"@,
        Rejected::PublicSuffixDomain => "Domain names a public suffix; that is a supercookie"@,
        Rejected::DomainMismatch => "Domain does not match the origin that sent it"@,
        Rejected::InsecureSameSiteNone => "SameSite=None requires Secure"@,
        Rejected::PrefixViolation(which) => which@,
        Rejected::JarFull => "this partition already holds the maximum cookies"@,
    }
}

impl Rejected {
    /// The message this refusal is shown with.
    pub fn to_string(&self) -> (r: String)
        ensures
            r@ == rejected_text(*self),
    {
        let mut s = String::new();
        match self {
            Rejected::TooLarge => crate::text_ops::push_str(&mut s, "the Set-Cookie header is too large"),
            Rejected::Malformed => crate::text_ops::push_str(&mut s, "no name=value in the Set-Cookie header"),
            Rejected::BadAttribute(which) => {
                crate::text_ops::push_str(&mut s, "unparseable ");
                crate::text_ops::push_str(&mut s, which);
                crate::text_ops::push_str(&mut s, " attribute");
            },
            Rejected::PublicSuffixDomain => crate::text_ops::push_str(
                &mut s,
                "Domain names a public suffix; that is a supercookie",
            ),
            Rejected::DomainMismatch => crate::text_ops::push_str(
                &mut s,
                "Domain does not match the origin that sent it",
            ),
            Rejected::InsecureSameSiteNone => crate::text_ops::push_str(&mut s, "SameSite=None requires Secure"),
            Rejected::PrefixViolation(which) => crate::text_ops::push_str(&mut s, which),
            Rejected::JarFull => crate::text_ops::push_str(&mut s, "this partition already holds the maximum cookies"),
        }
        s
    }
}

} // verus!
