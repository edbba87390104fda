//! Partition keys: `(eTLD+1 of the top-level site, origin)`, the key every
//! piece of partitioned state is stored under.
//!
//! [`PartitionKey`] is the only way to name a destination, and its one
//! constructor goes through the public suffix list: a caller that has not
//! decided which top-level site it acts for cannot express a request at all.
use vstd::prelude::*;
use crate::net::psl::{normalized_host, registrable, PublicSuffixList};
use crate::net::ip::is_ip_literal;
use crate::text_ops::{
    all_ascii, chars_of, has_double_dot, lower, lower_window, string_of_all, trim, trim_end_char,
    trim_window, window_has_double_dot, window_is_ascii,
};

verus! {

/// `https`, as characters.
pub open spec fn https() -> Seq<char> {
    seq!['h', 't', 't', 'p', 's']
}

/// `http`, as characters.
pub open spec fn http() -> Seq<char> {
    seq!['h', 't', 't', 'p']
}

/// What an [`Origin`] is: a lowercased scheme, a lowercased ASCII host and a
/// port.
pub struct OriginView {
    pub scheme: Seq<char>,
    pub host: Seq<char>,
    pub port: u16,
}

/// The origin `Origin::new` builds from its arguments, if it accepts them.
pub open spec fn origin_of(scheme: Seq<char>, host: Seq<char>, port: u16) -> Option<OriginView> {
    let s = lower(trim(scheme));
    let h = lower(trim_end_char(trim(host), '.'));
    if s.len() == 0 || h.len() == 0 {
        None
    } else if s != https() && s != http() {
        None
    } else if has_double_dot(h) || h[0] == '.' {
        None
    } else if !all_ascii(h) {
        None
    } else {
        Some(OriginView { scheme: s, host: h, port })
    }
}

/// A scheme, host and port — the thing a connection is made *to*.
///
/// Ports are explicit: a `None` meaning "the default" would be a second
/// representation of the same origin.
#[derive(Debug, Clone, PartialEq, Eq)]
pub struct Origin {
    scheme: String,
    host: String,
    port: u16,
}

impl View for Origin {
    type V = OriginView;

    closed spec fn view(&self) -> OriginView {
        OriginView { scheme: self.scheme@, host: self.host@, port: self.port }
    }
}

/// Whether `v` spells `https`.
fn is_https_chars(v: &Vec<char>) -> (r: bool)
    ensures
        r == (v@ == https()),
{
    let r = v.len() == 5 && v[0] == 'h' && v[1] == 't' && v[2] == 't' && v[3] == 'p' && v[4] == 's';
    if r {
        assert(v@ =~= https());
    }
    r
}

/// Whether `v` spells `http`.
fn is_http_chars(v: &Vec<char>) -> (r: bool)
    ensures
        r == (v@ == http()),
{
    let r = v.len() == 4 && v[0] == 'h' && v[1] == 't' && v[2] == 't' && v[3] == 'p';
    if r {
        assert(v@ =~= http());
    }
    r
}

impl Origin {
    /// Build an origin, normalising case and refusing what cannot be one:
    /// a scheme other than `http` or `https`, an empty host, a host with an
    /// empty label at its start or inside, or a host that is not ASCII (the
    /// IDNA step was skipped).
    pub fn new(scheme: &str, host: &str, port: u16) -> (r: Option<Self>)
        ensures
            match r {
                Some(o) => origin_of(scheme@, host@, port) == Some(o@),
                None => origin_of(scheme@, host@, port) is None,
            },
    {
        let sv = chars_of(scheme);
        let (sa, sb) = trim_window(&sv, 0, sv.len());
        let s = lower_window(&sv, sa, sb);
        let hv = chars_of(host);
        let (ha, hb) = trim_window(&hv, 0, hv.len());
        let mut end = hb;
        while end > ha && hv[end - 1] == '.'
            invariant
                ha <= end <= hb <= hv.len(),
                trim_end_char(hv@.subrange(ha as int, hb as int), '.') == trim_end_char(
                    hv@.subrange(ha as int, end as int),
                    '.',
                ),
            decreases end - ha,
        {
            assert(hv@.subrange(ha as int, end as int).drop_last() =~= hv@.subrange(ha as int, end - 1));
            end -= 1;
        }
        proof {
            assert(sv@.subrange(0, sv@.len() as int) =~= scheme@);
            assert(hv@.subrange(0, hv@.len() as int) =~= host@);
            let w = hv@.subrange(ha as int, end as int);
            if w.len() > 0 {
                assert(w.last() == hv@[end - 1]);
            }
        }
        let h = lower_window(&hv, ha, end);
        if s.len() == 0 || h.len() == 0 {
            return None;
        }
        if !is_https_chars(&s) && !is_http_chars(&s) {
            return None;
        }
        proof {
            assert(h@.subrange(0, h@.len() as int) =~= h@);
        }
        if window_has_double_dot(&h, 0, h.len()) || h[0] == '.' {
            return None;
        }
        if !window_is_ascii(&h, 0, h.len()) {
            return None;
        }
        Some(Origin { scheme: string_of_all(&s), host: string_of_all(&h), port })
    }

    /// The scheme, lowercased.
    pub fn scheme(&self) -> (r: &str)
        ensures
            r@ == self@.scheme,
    {
        self.scheme.as_str()
    }

    /// The host, lowercased and in Punycode.
    pub fn host(&self) -> (r: &str)
        ensures
            r@ == self@.host,
    {
        self.host.as_str()
    }

    /// The port.
    pub fn port(&self) -> (r: u16)
        ensures
            r == self@.port,
    {
        self.port
    }

    /// Whether this origin is carried over TLS.
    pub fn is_secure(&self) -> (r: bool)
        ensures
            r == (self@.scheme == https()),
    {
        let v = chars_of(self.scheme.as_str());
        is_https_chars(&v)
    }

    /// A copy with the same view.
    pub fn duplicate(&self) -> (r: Self)
        ensures
            r@ == self@,
    {
        Origin { scheme: self.scheme.clone(), host: self.host.clone(), port: self.port }
    }

    /// Whether two origins are the same scheme, host and port.
    pub fn same_as(&self, other: &Origin) -> (r: bool)
        ensures
            r == (self@ == other@),
    {
        let r = self.scheme == other.scheme && self.host == other.host && self.port == other.port;
        r
    }
}

/// What a [`PartitionKey`] is.
pub struct PartitionKeyView {
    pub site: Seq<char>,
    pub origin: OriginView,
}

/// `(eTLD+1 of the top-level site, origin)` — the key everything is stored
/// under. Built only through [`PartitionKey::new`], which consults the public
/// suffix list.
#[derive(Debug, Clone, PartialEq, Eq)]
pub struct PartitionKey {
    top_level_site: String,
    origin: Origin,
}

impl View for PartitionKey {
    type V = PartitionKeyView;

    closed spec fn view(&self) -> PartitionKeyView {
        PartitionKeyView { site: self.top_level_site@, origin: self.origin@ }
    }
}

/// The top-level site a host yields under `psl`, as `PartitionKey::new`
/// computes it.
pub open spec fn site_of(psl: Map<Seq<char>, crate::net::psl::RuleKind>, top_level_host: Seq<char>) -> Option<Seq<char>> {
    registrable(psl, top_level_host, is_ip_literal(normalized_host(top_level_host)))
}

impl PartitionKey {
    /// Derive a key for `origin`, loaded on behalf of the page at
    /// `top_level_host`. `None` when the top-level host has no registrable
    /// domain; every caller must treat that as "this request cannot be made".
    pub fn new(psl: &PublicSuffixList, top_level_host: &str, origin: Origin) -> (r: Option<Self>)
        ensures
            match r {
                Some(k) => site_of(psl@, top_level_host@) == Some(k@.site) && k@.origin == origin@,
                None => site_of(psl@, top_level_host@) is None,
            },
    {
        match psl.registrable_domain(top_level_host) {
            Some(site) => Some(PartitionKey { top_level_site: site, origin }),
            None => None,
        }
    }

    /// The eTLD+1 of the page this request is being made for.
    pub fn top_level_site(&self) -> (r: &str)
        ensures
            r@ == self@.site,
    {
        self.top_level_site.as_str()
    }

    /// The origin being connected to.
    pub fn origin(&self) -> (r: &Origin)
        ensures
            r@ == self@.origin,
    {
        &self.origin
    }

    /// Whether two keys are the same partition regardless of destination.
    pub fn same_top_level(&self, other: &Self) -> (r: bool)
        ensures
            r == (self@.site == other@.site),
    {
        self.top_level_site == other.top_level_site
    }

    /// A copy with the same view.
    pub fn duplicate(&self) -> (r: Self)
        ensures
            r@ == self@,
    {
        PartitionKey { top_level_site: self.top_level_site.clone(), origin: self.origin.duplicate() }
    }

    /// Whether two keys name the same partition and destination.
    pub fn same_as(&self, other: &PartitionKey) -> (r: bool)
        ensures
            r == (self@ == other@),
    {
        self.top_level_site == other.top_level_site && self.origin.same_as(&other.origin)
    }
}

/// An origin written out: `scheme://host:port`.
pub open spec fn origin_text(o: OriginView) -> Seq<char> {
    o.scheme + "://"@ + o.host + ":"@ + crate::numbers::decimal_of(o.port as nat)
}

/// A partition key written out: `[site | origin]`.
pub open spec fn partition_key_text(k: PartitionKeyView) -> Seq<char> {
    "["@ + k.site + " | "@ + origin_text(k.origin) + "]"@
}

impl Origin {
    /// This origin written out, as `scheme://host:port`.
    pub fn to_string(&self) -> (r: String)
        ensures
            r@ == origin_text(self@),
    {
        let mut s = String::new();
        crate::text_ops::push_str(&mut s, self.scheme.as_str());
        crate::text_ops::push_str(&mut s, "://");
        crate::text_ops::push_str(&mut s, self.host.as_str());
        crate::text_ops::push_str(&mut s, ":");
        let digits = crate::numbers::decimal(self.port as u64);
        crate::text_ops::push_str(&mut s, digits.as_str());
        s
    }
}

impl PartitionKey {
    /// This key written out, as `[site | scheme://host:port]`.
    pub fn to_string(&self) -> (r: String)
        ensures
            r@ == partition_key_text(self@),
    {
        let mut s = String::new();
        crate::text_ops::push_str(&mut s, "[");
        crate::text_ops::push_str(&mut s, self.top_level_site.as_str());
        crate::text_ops::push_str(&mut s, " | ");
        let origin = self.origin.to_string();
        crate::text_ops::push_str(&mut s, origin.as_str());
        crate::text_ops::push_str(&mut s, "]");
        s
    }
}

} // verus!
