//! Redirect policy: whether to follow, and where to.
//!
//! Following a redirect makes a request the caller did not ask for, to a
//! place the caller has not seen, so the fetch layer returns the `Location`
//! and this module decides. It refuses a downgrade from `https` to `http`
//! (the sslstrip move), a target it cannot represent (another scheme, a
//! Unicode host, userinfo, a malformed authority), a plaintext target on the
//! HSTS preload list, a chain longer than [`MAX_HOPS`], and any repeat of a
//! place already visited.
//!
//! It resolves a `Location` in three forms only: absolute, absolute path and
//! bare relative path, the last against the origin's root. A `Location`
//! carrying a Unicode host is refused rather than converted.
use vstd::prelude::*;
use crate::net::hsts::{preloaded, PreloadList};
use crate::net::partition::{https, http, origin_of, site_of, Origin, OriginView, PartitionKey, PartitionKeyView};
use crate::net::psl::{PublicSuffixList, RuleKind};
use crate::numbers::{parse_unsigned, parse_unsigned_window};
use crate::text_ops::{
    chars_of, find, find_in, has_char, lemma_find_range, lower, lower_window, rfind, rfind_in,
    starts_with, string_of, string_of_all, trim, trim_window, vec_eq, window_starts_with,
};

verus! {

/// How many redirects to follow before giving up: a bound on the work an
/// attacker can make us do.
pub const MAX_HOPS: usize = 10;

/// Why a redirect was not followed.
#[derive(Debug, Clone, PartialEq, Eq)]
pub enum RefusedRedirect {
    /// `https` to `http`.
    Downgrade,
    /// The `Location` could not be resolved to an origin this crate fetches.
    Unresolvable(&'static str),
    /// The target is on the HSTS preload list and the redirect is plaintext.
    PreloadedHostOverPlaintext,
    /// The chain exceeded [`MAX_HOPS`].
    TooManyHops,
    /// The chain revisited a place it had already been to.
    Loop,
    /// The top-level site has no registrable domain, so no partition key
    /// exists for the target.
    NotPartitionable,
}

/// Where a followed redirect goes.
#[derive(Debug, Clone, PartialEq, Eq)]
pub struct Hop {
    /// The key for the next request, in the same top-level site the chain
    /// started in.
    pub key: PartitionKey,
    /// The origin-relative request target.
    pub path: String,
}

/// A scheme character after the first: ASCII alphanumeric, `+`, `-` or `.`.
pub open spec fn scheme_char(c: char) -> bool {
    ('a' <= c <= 'z') || ('A' <= c <= 'Z') || ('0' <= c <= '9') || c == '+' || c == '-' || c == '.'
}

/// `scheme:` split off the front of `loc`, lowercased, when what precedes the
/// first colon is an RFC 3986 scheme: a letter, then letters, digits, `+`,
/// `-` or `.`. A leading digit is not a scheme, so `1.2.3.4:80/x` is a path.
pub open spec fn split_scheme(loc: Seq<char>) -> Option<(Seq<char>, Seq<char>)> {
    let colon = find(loc, ':');
    let scheme = loc.take(colon);
    if colon <= 0 {
        None
    } else if !(('a' <= scheme[0] <= 'z') || ('A' <= scheme[0] <= 'Z')) {
        None
    } else if exists|j: int| 1 <= j < scheme.len() && !scheme_char(#[trigger] scheme[j]) {
        None
    } else {
        Some((lower(scheme), loc.skip(colon + 1)))
    }
}

/// `authority[/path]` under a known scheme: userinfo is refused, a port is
/// a `u16`, and without one the scheme's default applies.
pub open spec fn resolve_absolute(scheme: Seq<char>, rest: Seq<char>) -> Result<(OriginView, Seq<char>), RefusedRedirect> {
    let at = find(rest, '/');
    let authority = if at >= 0 {
        rest.take(at)
    } else {
        rest
    };
    let path = if at >= 0 {
        rest.skip(at)
    } else {
        seq!['/']
    };
    let colon = rfind(authority, ':');
    if has_char(authority, '@') {
        Err(RefusedRedirect::Unresolvable("userinfo in the authority"))
    } else if colon >= 0 && parse_unsigned(authority.skip(colon + 1), 65535) is None {
        Err(RefusedRedirect::Unresolvable("port is not a number"))
    } else if colon < 0 && scheme != https() && scheme != http() {
        Err(RefusedRedirect::Unresolvable("scheme is not http(s)"))
    } else {
        let host = if colon >= 0 {
            authority.take(colon)
        } else {
            authority
        };
        let port: u16 = if colon >= 0 {
            parse_unsigned(authority.skip(colon + 1), 65535)->Some_0 as u16
        } else if scheme == https() {
            443
        } else {
            80
        };
        match origin_of(scheme, host, port) {
            Some(o) => Ok((o, path)),
            None => Err(RefusedRedirect::Unresolvable("not an origin this crate fetches")),
        }
    }
}

/// An authority that names no port gets its scheme's default: `https`
/// resolves to port 443 and `http` to port 80. (The authority is what comes
/// before the first `/`; a `:` after it belongs to the path.)
pub proof fn lemma_default_port(scheme: Seq<char>, rest: Seq<char>)
    requires
        forall|i: int| 0 <= i < rest.len() && rest[i] == ':' ==> exists|j: int| 0 <= j < i && rest[j] == '/',
    ensures
        resolve_absolute(scheme, rest) matches Ok((o, _)) ==> o.port == (if scheme == https() {
            443u16
        } else {
            80u16
        }),
{
    crate::text_ops::lemma_find_range(rest, '/');
    let at = find(rest, '/');
    let authority = if at >= 0 {
        rest.take(at)
    } else {
        rest
    };
    assert forall|i: int| 0 <= i < authority.len() implies authority[i] != ':' by {
        if authority[i] == ':' {
            assert(rest[i] == ':');
            let j = choose|j: int| 0 <= j < i && rest[j] == '/';
            if at >= 0 {
                assert(crate::text_ops::first_at(rest, '/', at));
            } else {
                assert(has_char(rest, '/'));
            }
        }
    }
    crate::text_ops::lemma_find_absent(authority, ':');
}

/// An authority that names its port, `host:port` with no path after it,
/// resolves to that port whatever the scheme, and to the path `/`.
pub proof fn lemma_named_port(scheme: Seq<char>, rest: Seq<char>, c: int)
    requires
        0 <= c < rest.len(),
        rest[c] == ':',
        forall|i: int| 0 <= i < rest.len() ==> rest[i] != '/',
        forall|i: int| c < i < rest.len() ==> rest[i] != ':',
    ensures
        resolve_absolute(scheme, rest) matches Ok((o, p)) ==> {
            &&& parse_unsigned(rest.skip(c + 1), 65535) matches Some(n) && o.port == n
            &&& p == seq!['/']
        },
{
    crate::text_ops::lemma_find_absent(rest, '/');
    assert(crate::text_ops::last_at(rest, ':', c));
    crate::text_ops::lemma_rfind_unique(rest, ':', c);
    let digits = rest.skip(c + 1);
    let body = if digits.len() > 0 && digits[0] == '+' {
        digits.drop_first()
    } else {
        digits
    };
    if body.len() > 0 && crate::numbers::all_digits(body) {
        crate::numbers::lemma_dec_value_nonneg(body);
    }
}

/// A control character: below space, or DEL.
pub open spec fn is_control(c: char) -> bool {
    (c as u32) < 0x20 || c == '\u{7f}'
}

/// Where `location` points, resolved against `from`: the origin and the
/// origin-relative path.
pub open spec fn resolve_spec(from: OriginView, location: Seq<char>) -> Result<(OriginView, Seq<char>), RefusedRedirect> {
    let loc = trim(location);
    if loc.len() == 0 {
        Err(RefusedRedirect::Unresolvable("empty"))
    } else if exists|j: int| 0 <= j < loc.len() && is_control(#[trigger] loc[j]) {
        Err(RefusedRedirect::Unresolvable("control character"))
    } else if starts_with(loc, seq!['/', '/']) {
        resolve_absolute(from.scheme, loc.skip(2))
    } else {
        match split_scheme(loc) {
            Some((scheme, rest)) => if starts_with(rest, seq!['/', '/']) {
                resolve_absolute(scheme, rest.skip(2))
            } else {
                Err(RefusedRedirect::Unresolvable("authority missing"))
            },
            None => if loc[0] == '/' {
                Ok((from, loc))
            } else {
                Ok((from, seq!['/'] + loc))
            },
        }
    }
}

/// Where a redirect from `from` to `location` goes, for a chain that has
/// visited `visited`, in the page whose host is `top`; or why it does not.
pub open spec fn follow_spec(
    visited: Seq<(OriginView, Seq<char>)>,
    rules: Map<Seq<char>, RuleKind>,
    preload: Option<Map<Seq<char>, bool>>,
    top: Seq<char>,
    from: OriginView,
    location: Seq<char>,
) -> Result<(PartitionKeyView, Seq<char>), RefusedRedirect> {
    if visited.len() >= MAX_HOPS {
        Err(RefusedRedirect::TooManyHops)
    } else {
        match resolve_spec(from, location) {
            Err(e) => Err(e),
            Ok((o, path)) => if from.scheme == https() && o.scheme != https() {
                Err(RefusedRedirect::Downgrade)
            } else if preload is Some && o.scheme != https() && preloaded(preload->Some_0, o.host) {
                Err(RefusedRedirect::PreloadedHostOverPlaintext)
            } else if visited.contains((o, path)) {
                Err(RefusedRedirect::Loop)
            } else {
                match site_of(rules, top) {
                    None => Err(RefusedRedirect::NotPartitionable),
                    Some(site) => Ok((PartitionKeyView { site, origin: o }, path)),
                }
            },
        }
    }
}

/// A redirect that is followed is never a downgrade from `https`, never a
/// place the chain has already been, never plaintext to a preloaded host,
/// and comes from a chain still under its hop limit; and a chain at its
/// limit refuses every location.
pub proof fn lemma_followed_is_safe(
    visited: Seq<(OriginView, Seq<char>)>,
    rules: Map<Seq<char>, RuleKind>,
    preload: Option<Map<Seq<char>, bool>>,
    top: Seq<char>,
    from: OriginView,
    location: Seq<char>,
)
    ensures
        visited.len() >= 10 ==> follow_spec(visited, rules, preload, top, from, location) == Err::<
            (PartitionKeyView, Seq<char>),
            RefusedRedirect,
        >(RefusedRedirect::TooManyHops),
        follow_spec(visited, rules, preload, top, from, location) matches Ok((key, path)) ==> {
            &&& visited.len() < 10
            &&& resolve_spec(from, location) == Ok::<(OriginView, Seq<char>), RefusedRedirect>((key.origin, path))
            &&& !(from.scheme == https() && key.origin.scheme != https())
            &&& !visited.contains((key.origin, path))
            &&& (preload is Some && key.origin.scheme != https() ==> !preloaded(preload->Some_0, key.origin.host))
            &&& site_of(rules, top) == Some(key.site)
        },
{
}

/// `scheme:` split off the front of `v`: where the scheme ends and the rest
/// begins, when there is a scheme.
fn split_scheme_at(v: &Vec<char>) -> (r: Option<usize>)
    ensures
        match r {
            Some(colon) => colon < v@.len() && split_scheme(v@) == Some(
                (lower(v@.take(colon as int)), v@.skip(colon + 1)),
            ),
            None => split_scheme(v@) is None,
        },
{
    assert(v@.subrange(0, v@.len() as int) =~= v@);
    let colon = match find_in(v, 0, v.len(), ':') {
        Some(k) => k,
        None => {
            return None;
        },
    };
    if colon == 0 {
        return None;
    }
    let c0 = v[0];
    if !(('a' <= c0 && c0 <= 'z') || ('A' <= c0 && c0 <= 'Z')) {
        return None;
    }
    let mut j: usize = 1;
    while j < colon
        invariant
            1 <= j <= colon < v@.len(),
            find(v@, ':') == colon,
            forall|m: int| 1 <= m < j ==> scheme_char(#[trigger] v@.take(colon as int)[m]),
        decreases colon - j,
    {
        let c = v[j];
        if !(('a' <= c && c <= 'z') || ('A' <= c && c <= 'Z') || ('0' <= c && c <= '9') || c == '+'
            || c == '-' || c == '.') {
            assert(!scheme_char(v@.take(colon as int)[j as int]));
            return None;
        }
        j += 1;
    }
    Some(colon)
}

/// Resolve `v[lo..]`, an authority with an optional path, under `scheme`.
fn resolve_absolute_at(scheme: &Vec<char>, v: &Vec<char>, lo: usize) -> (r: Result<(Origin, String), RefusedRedirect>)
    requires
        lo <= v@.len(),
    ensures
        match r {
            Ok((o, p)) => resolve_absolute(scheme@, v@.skip(lo as int)) == Ok::<(OriginView, Seq<char>), RefusedRedirect>((o@, p@)),
            Err(e) => resolve_absolute(scheme@, v@.skip(lo as int)) == Err::<(OriginView, Seq<char>), RefusedRedirect>(e),
        },
{
    let ghost rest = v@.skip(lo as int);
    let n = v.len();
    assert(v@.subrange(lo as int, n as int) =~= rest);
    let (auth_hi, path) = match find_in(v, lo, n, '/') {
        Some(at) => {
            assert(rest.take(at as int) =~= v@.subrange(lo as int, lo + at));
            assert(rest.skip(at as int) =~= v@.subrange(lo + at, n as int));
            (lo + at, string_of(v, lo + at, n))
        },
        None => {
            let slash = chars_of("/");
            proof {
                reveal_strlit("/");
            }
            assert(slash@ =~= seq!['/']);
            (n, string_of_all(&slash))
        },
    };
    let ghost authority = v@.subrange(lo as int, auth_hi as int);
    if find_in(v, lo, auth_hi, '@').is_some() {
        proof {
            lemma_find_range(authority, '@');
        }
        return Err(RefusedRedirect::Unresolvable("userinfo in the authority"));
    }
    proof {
        lemma_find_range(authority, '@');
    }
    let (host_hi, port) = match rfind_in(v, lo, auth_hi, ':') {
        Some(at) => {
            assert(authority.skip(at + 1) =~= v@.subrange(lo + at + 1, auth_hi as int));
            assert(authority.take(at as int) =~= v@.subrange(lo as int, lo + at));
            match parse_unsigned_window(v, lo + at + 1, auth_hi, 65535) {
                Some(p) => (lo + at, p as u16),
                None => {
                    return Err(RefusedRedirect::Unresolvable("port is not a number"));
                },
            }
        },
        None => {
            let https_chars = chars_of("https");
            let http_chars = chars_of("http");
            proof {
                reveal_strlit("https");
                reveal_strlit("http");
            }
            assert(https_chars@ =~= https());
            assert(http_chars@ =~= http());
            if vec_eq(scheme, &https_chars) {
                (auth_hi, 443u16)
            } else if vec_eq(scheme, &http_chars) {
                (auth_hi, 80u16)
            } else {
                return Err(RefusedRedirect::Unresolvable("scheme is not http(s)"));
            }
        },
    };
    let scheme_str = string_of_all(scheme);
    let host_str = string_of(v, lo, host_hi);
    match Origin::new(scheme_str.as_str(), host_str.as_str(), port) {
        Some(o) => Ok((o, path)),
        None => Err(RefusedRedirect::Unresolvable("not an origin this crate fetches")),
    }
}

/// Whether `v` holds a control character.
fn has_control(v: &Vec<char>) -> (r: bool)
    ensures
        r == exists|j: int| 0 <= j < v@.len() && is_control(#[trigger] v@[j]),
{
    let mut i: usize = 0;
    while i < v.len()
        invariant
            i <= v@.len(),
            forall|j: int| 0 <= j < i ==> !is_control(#[trigger] v@[j]),
        decreases v@.len() - i,
    {
        if (v[i] as u32) < 0x20 || v[i] == '\u{7f}' {
            assert(is_control(v@[i as int]));
            return true;
        }
        i += 1;
    }
    false
}

/// `v` with a `/` in front.
fn rooted(v: &Vec<char>) -> (r: Vec<char>)
    ensures
        r@ == seq!['/'] + v@,
{
    let mut whole: Vec<char> = Vec::new();
    whole.push('/');
    let mut k: usize = 0;
    assert(whole@ =~= seq!['/'] + v@.take(0));
    while k < v.len()
        invariant
            k <= v@.len(),
            whole@ == seq!['/'] + v@.take(k as int),
        decreases v@.len() - k,
    {
        whole.push(v[k]);
        k += 1;
        assert(whole@ =~= seq!['/'] + v@.take(k as int));
    }
    assert(v@.take(v@.len() as int) =~= v@);
    whole
}

/// Resolve a `Location` against the origin it came from: the origin and the
/// origin-relative path it points to.
pub fn resolve(from: &Origin, location: &str) -> (r: Result<(Origin, String), RefusedRedirect>)
    ensures
        match r {
            Ok((o, p)) => resolve_spec(from@, location@) == Ok::<(OriginView, Seq<char>), RefusedRedirect>((o@, p@)),
            Err(e) => resolve_spec(from@, location@) == Err::<(OriginView, Seq<char>), RefusedRedirect>(e),
        },
{
    let raw = chars_of(location);
    let (a, b) = trim_window(&raw, 0, raw.len());
    assert(raw@.subrange(0, raw@.len() as int) =~= raw@);
    let v = crate::text_ops::window_vec(&raw, a, b);
    if v.len() == 0 {
        return Err(RefusedRedirect::Unresolvable("empty"));
    }
    if has_control(&v) {
        return Err(RefusedRedirect::Unresolvable("control character"));
    }
    resolve_trimmed(from, &v)
}

/// Resolve a trimmed, non-empty `Location` free of control characters.
#[verifier::spinoff_prover]
#[verifier::rlimit(40)]
fn resolve_trimmed(from: &Origin, v: &Vec<char>) -> (r: Result<(Origin, String), RefusedRedirect>)
    requires
        v@.len() > 0,
    ensures
        ({
            let loc = v@;
            let expected = if starts_with(loc, seq!['/', '/']) {
                resolve_absolute(from@.scheme, loc.skip(2))
            } else {
                match split_scheme(loc) {
                    Some((scheme, rest)) => if starts_with(rest, seq!['/', '/']) {
                        resolve_absolute(scheme, rest.skip(2))
                    } else {
                        Err(RefusedRedirect::Unresolvable("authority missing"))
                    },
                    None => if loc[0] == '/' {
                        Ok((from@, loc))
                    } else {
                        Ok((from@, seq!['/'] + loc))
                    },
                }
            };
            match r {
                Ok((o, p)) => expected == Ok::<(OriginView, Seq<char>), RefusedRedirect>((o@, p@)),
                Err(e) => expected == Err::<(OriginView, Seq<char>), RefusedRedirect>(e),
            }
        }),
{
    let double_slash = v.len() >= 2 && v[0] == '/' && v[1] == '/';
    assert(double_slash == starts_with(v@, seq!['/', '/'])) by {
        if v@.len() >= 2 {
            assert(v@.take(2) =~= seq![v@[0], v@[1]]);
        }
    }
    if double_slash {
        let scheme = chars_of(from.scheme());
        return resolve_absolute_at(&scheme, v, 2);
    }
    match split_scheme_at(v) {
        Some(colon) => {
            let scheme = lower_window(v, 0, colon);
            let n = v.len();
            let ghost rest = v@.skip(colon + 1);
            let has_authority = n - colon >= 3 && v[colon + 1] == '/' && v[colon + 2] == '/';
            assert(has_authority == starts_with(rest, seq!['/', '/'])) by {
                if rest.len() >= 2 {
                    assert(rest.take(2) =~= seq![rest[0], rest[1]]);
                }
            }
            if !has_authority {
                return Err(RefusedRedirect::Unresolvable("authority missing"));
            }
            assert(rest.skip(2) =~= v@.skip(colon + 3));
            resolve_absolute_at(&scheme, v, colon + 3)
        },
        None => {
            if v[0] == '/' {
                Ok((from.duplicate(), string_of_all(v)))
            } else {
                let whole = rooted(v);
                Ok((from.duplicate(), string_of_all(&whole)))
            }
        },
    }
}

/// A redirect chain in progress, holding the places it has been so that a
/// loop is detectable. One per navigation or subresource, not shared.
pub struct Chain {
    visited: Vec<(Origin, String)>,
}

impl View for Chain {
    type V = Seq<(OriginView, Seq<char>)>;

    /// The places visited, in order: each an origin and a path.
    closed spec fn view(&self) -> Seq<(OriginView, Seq<char>)> {
        self.visited@.map_values(|p: (Origin, String)| (p.0@, p.1@))
    }
}

impl Chain {
    #[verifier::type_invariant]
    closed spec fn inv(self) -> bool {
        self.visited@.len() <= MAX_HOPS
    }

    /// A fresh chain.
    pub fn new() -> (r: Chain)
        ensures
            r@ == Seq::<(OriginView, Seq<char>)>::empty(),
    {
        let r = Chain { visited: Vec::new() };
        assert(r@ =~= Seq::<(OriginView, Seq<char>)>::empty());
        r
    }

    /// How many hops have been taken.
    pub fn hops(&self) -> (n: usize)
        ensures
            n == self@.len(),
            n <= MAX_HOPS,
    {
        proof {
            use_type_invariant(self);
        }
        self.visited.len()
    }

    /// Whether the chain has already been to `origin` at `path`.
    fn has_visited(&self, origin: &Origin, path: &String) -> (r: bool)
        ensures
            r == self@.contains((origin@, path@)),
    {
        let mut i: usize = 0;
        while i < self.visited.len()
            invariant
                i <= self@.len(),
                self@.len() == self.visited@.len(),
                forall|j: int| 0 <= j < i ==> self@[j] != (origin@, path@),
            decreases self.visited@.len() - i,
        {
            if self.visited[i].0.same_as(origin) && self.visited[i].1 == *path {
                assert(self@[i as int] == (origin@, path@));
                return true;
            }
            i += 1;
        }
        false
    }

    /// Decide where a redirect goes, or why it does not. `top_level_host` is
    /// the site the user is looking at, the same across the chain; `from` is
    /// the origin the redirect came from, and `location` the header value.
    /// A followed hop is remembered; a refused one changes nothing.
    pub fn follow(
        &mut self,
        psl: &PublicSuffixList,
        preload: Option<&PreloadList>,
        top_level_host: &str,
        from: &Origin,
        location: &str,
    ) -> (r: Result<Hop, RefusedRedirect>)
        ensures
            ({
                let p = match preload {
                    Some(l) => Some(l@),
                    None => None,
                };
                match r {
                    Ok(hop) => follow_spec(old(self)@, psl@, p, top_level_host@, from@, location@) == Ok::<
                        (PartitionKeyView, Seq<char>),
                        RefusedRedirect,
                    >((hop.key@, hop.path@)) && final(self)@ == old(self)@.push((hop.key@.origin, hop.path@)),
                    Err(e) => follow_spec(old(self)@, psl@, p, top_level_host@, from@, location@) == Err::<
                        (PartitionKeyView, Seq<char>),
                        RefusedRedirect,
                    >(e) && final(self)@ == old(self)@,
                }
            }),
    {
        if self.visited.len() >= MAX_HOPS {
            return Err(RefusedRedirect::TooManyHops);
        }
        let (origin, path) = match resolve(from, location) {
            Ok(p) => p,
            Err(e) => {
                return Err(e);
            },
        };
        if from.is_secure() && !origin.is_secure() {
            return Err(RefusedRedirect::Downgrade);
        }
        match preload {
            Some(list) => {
                if !origin.is_secure() && list.requires_https(origin.host()) {
                    return Err(RefusedRedirect::PreloadedHostOverPlaintext);
                }
            },
            None => {},
        }
        if self.has_visited(&origin, &path) {
            return Err(RefusedRedirect::Loop);
        }
        let step_origin = origin.duplicate();
        let step_path = path.clone();
        let key = match PartitionKey::new(psl, top_level_host, origin) {
            Some(k) => k,
            None => {
                return Err(RefusedRedirect::NotPartitionable);
            },
        };
        let ghost before = self@;
        proof {
            use_type_invariant(&*self);
        }
        let mut taken = Chain { visited: Vec::new() };
        std::mem::swap(&mut taken, self);
        let Chain { visited: mut visited } = taken;
        visited.push((step_origin, step_path));
        *self = Chain { visited };
        assert(self@ =~= before.push((key@.origin, path@)));
        Ok(Hop { key, path })
    }
}

/// The message a refused redirect is shown with.
pub open spec fn refused_text(r: RefusedRedirect) -> Seq<char> {
    match r {
        RefusedRedirect::Downgrade => "refusing a redirect from https to http"@,
        RefusedRedirect::Unresolvable(why) => "the Location could not be resolved: "@ + why@,
        RefusedRedirect::PreloadedHostOverPlaintext => "the target is HSTS-preloaded and the redirect is plaintext"@,
        RefusedRedirect::TooManyHops => "more than "@ + crate::numbers::decimal_of(MAX_HOPS as nat) + " redirects"@,
        RefusedRedirect::Loop => "the redirect chain revisited a URL"@,
        RefusedRedirect::NotPartitionable => "the target has no registrable domain and cannot be partitioned"@,
    }
}

impl RefusedRedirect {
    /// The message this refusal is shown with.
    pub fn to_string(&self) -> (r: String)
        ensures
            r@ == refused_text(*self),
    {
        let mut s = String::new();
        match self {
            RefusedRedirect::Downgrade => crate::text_ops::push_str(&mut s, "refusing a redirect from https to http"),
            RefusedRedirect::Unresolvable(why) => {
                crate::text_ops::push_str(&mut s, "the Location could not be resolved: ");
                crate::text_ops::push_str(&mut s, why);
            },
            RefusedRedirect::PreloadedHostOverPlaintext => crate::text_ops::push_str(
                &mut s,
                "the target is HSTS-preloaded and the redirect is plaintext",
            ),
            RefusedRedirect::TooManyHops => {
                crate::text_ops::push_str(&mut s, "more than ");
                let digits = crate::numbers::decimal(MAX_HOPS as u64);
                crate::text_ops::push_str(&mut s, digits.as_str());
                crate::text_ops::push_str(&mut s, " redirects");
            },
            RefusedRedirect::Loop => crate::text_ops::push_str(&mut s, "the redirect chain revisited a URL"),
            RefusedRedirect::NotPartitionable => crate::text_ops::push_str(
                &mut s,
                "the target has no registrable domain and cannot be partitioned",
            ),
        }
        s
    }
}

} // verus!
