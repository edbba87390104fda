//! The HSTS preload list: hosts that must never be reached over plaintext.
//!
//! An entry is an exact host, or — written with a leading `.` — a host and
//! everything under it. Matching walks the host upward one label at a time, so
//! `notexample.com` is not covered by `.example.com`.
//!
//! This module reports; the fetch layer refuses. Upgrading inside a fetch would
//! change the origin, and with it the partition, after the caller had already
//! built a key for the other one.
use vstd::prelude::*;
use crate::net::partition::{https, origin_of, Origin};
use crate::net::table::CharTable;
use crate::text_ops::{
    chars_of, lemma_split_step, lower, lower_window, piece_end, split_lines, trim, trim_end_char,
    trim_window,
};
use crate::net::psl::trim_end_window;

verus! {

/// The preloaded hosts: host to "does it cover subdomains".
pub struct PreloadList {
    hosts: CharTable<bool>,
}

/// Why a list could not be used.
#[derive(Debug, Clone, PartialEq, Eq, Structural)]
pub enum PreloadError {
    /// The list held no entries; an empty list would silently remove
    /// first-visit protection from every host at once.
    Empty,
}

/// What one line of the shipped list contributes, if anything.
pub open spec fn entry_of_line(line: Seq<char>) -> Option<(Seq<char>, bool)> {
    let t = trim(line);
    if t.len() == 0 || t[0] == '#' {
        None
    } else {
        let (host, subdomains) = if t[0] == '.' {
            (t.drop_first(), true)
        } else {
            (t, false)
        };
        if host.len() == 0 {
            None
        } else {
            Some((lower(host), subdomains))
        }
    }
}

/// The entries a sequence of lines defines. A host listed both ways covers
/// its subdomains.
pub open spec fn hosts_of_lines(lines: Seq<Seq<char>>) -> Map<Seq<char>, bool>
    decreases lines.len(),
{
    if lines.len() == 0 {
        Map::empty()
    } else {
        let m = hosts_of_lines(lines.drop_last());
        match entry_of_line(lines.last()) {
            Some((host, sub)) => m.insert(
                host,
                if m.contains_key(host) {
                    m[host] || sub
                } else {
                    sub
                },
            ),
            None => m,
        }
    }
}

/// Whether the list `m` makes `host` HTTPS-only: the host itself is listed,
/// or a parent reached by dropping leading labels is listed as covering its
/// subdomains.
pub open spec fn preloaded(m: Map<Seq<char>, bool>, host: Seq<char>) -> bool {
    let h = lower(trim_end_char(host, '.'));
    &&& h.len() > 0
    &&& {
        ||| m.contains_key(h)
        ||| exists|k: int|
            0 <= k < h.len() && h[k] == '.' && #[trigger] m.contains_key(h.skip(k + 1))
                && m[h.skip(k + 1)]
    }
}

impl View for PreloadList {
    type V = Map<Seq<char>, bool>;

    closed spec fn view(&self) -> Map<Seq<char>, bool> {
        self.hosts@
    }
}

impl PreloadList {
    /// Parse the shipped form: one host per line, `.` prefix for subdomains,
    /// `#` for comments.
    pub fn parse(text: &str) -> (r: Result<Self, PreloadError>)
        ensures
            match r {
                Ok(list) => list@ == hosts_of_lines(split_lines(text@)) && list@.dom().len() > 0,
                Err(PreloadError::Empty) => hosts_of_lines(split_lines(text@)).dom().len() == 0,
            },
    {
        let v = chars_of(text);
        let mut hosts: CharTable<bool> = CharTable::new();
        let mut pos: usize = 0;
        let ghost mut done: Seq<Seq<char>> = Seq::empty();
        proof {
            assert(v@.skip(0) =~= v@);
            assert(split_lines(v@) =~= done + split_lines(v@.skip(0)));
        }
        loop
            invariant_except_break
                split_lines(v@) == done + split_lines(v@.skip(pos as int)),
            invariant
                pos <= v.len(),
                v@ == text@,
                hosts@ == hosts_of_lines(done),
            ensures
                hosts@ == hosts_of_lines(split_lines(text@)),
            decreases v.len() - pos,
        {
            let end = piece_end(&v, pos, '\n');
            proof {
                lemma_split_step(v@, '\n', pos as int, end as int);
            }
            let ghost piece = v@.subrange(pos as int, end as int);
            let (a, b) = trim_window(&v, pos, end);
            let ghost t = v@.subrange(a as int, b as int);
            if a < b && v[a] != '#' {
                let (start, sub) = if v[a] == '.' {
                    (a + 1, true)
                } else {
                    (a, false)
                };
                proof {
                    assert(t.drop_first() =~= v@.subrange(a + 1, b as int));
                }
                if start < b {
                    let key = lower_window(&v, start, b);
                    let merged = match hosts.get(&key, 0, key.len()) {
                        Some(existing) => existing || sub,
                        None => sub,
                    };
                    proof {
                        assert(key@.subrange(0, key@.len() as int) =~= key@);
                    }
                    hosts.set(key, merged);
                }
            }
            proof {
                let next = done.push(piece);
                assert(next.drop_last() =~= done);
                assert(next.last() == piece);
                done = next;
            }
            if end == v.len() {
                proof {
                    assert(split_lines(v@) =~= done);
                }
                break;
            }
            proof {
                assert(split_lines(v@) =~= done + split_lines(v@.skip(end + 1)));
            }
            pos = end + 1;
        }
        if hosts.len() == 0 {
            return Err(PreloadError::Empty);
        }
        Ok(PreloadList { hosts })
    }

    /// How many hosts are preloaded.
    pub fn len(&self) -> (n: usize)
        ensures
            n == self@.dom().len(),
    {
        self.hosts.len()
    }

    /// Whether the list is empty. Never true for a list from [`Self::parse`].
    pub fn is_empty(&self) -> (r: bool)
        ensures
            r == (self@.dom().len() == 0),
    {
        self.hosts.len() == 0
    }

    /// Whether `host` must be reached over HTTPS.
    #[verifier::loop_isolation(false)]
    pub fn requires_https(&self, host: &str) -> (r: bool)
        ensures
            r == preloaded(self@, host@),
    {
        let v = chars_of(host);
        let n = trim_end_window(&v, '.');
        let h = lower_window(&v, 0, n);
        let ghost hs = lower(trim_end_char(host@, '.'));
        assert(h@ == hs);
        if h.len() == 0 {
            return false;
        }
        proof {
            assert(h@.subrange(0, h@.len() as int) =~= h@);
        }
        if self.hosts.get(&h, 0, h.len()).is_some() {
            return true;
        }
        let mut k: usize = 0;
        while k < h.len()
            invariant
                k <= h.len(),
                h@ == hs,
                !self@.contains_key(hs),
                forall|j: int|
                    0 <= j < k && hs[j] == '.' ==> !(#[trigger] self@.contains_key(hs.skip(j + 1))
                        && self@[hs.skip(j + 1)]),
            decreases h.len() - k,
        {
            if h[k] == '.' {
                proof {
                    assert(h@.subrange(k + 1, h@.len() as int) =~= hs.skip(k + 1));
                }
                if let Some(true) = self.hosts.get(&h, k + 1, h.len()) {
                    return true;
                }
            }
            k += 1;
        }
        false
    }

    /// The origin the caller should have used, if this one is preloaded and
    /// plaintext: `https`, with port 80 moved to 443 and any other port kept.
    /// `None` when there is nothing to correct.
    pub fn upgrade(&self, origin: &Origin) -> (r: Option<Origin>)
        ensures
            origin@.scheme == https() || !preloaded(self@, origin@.host) ==> r is None,
            !(origin@.scheme == https() || !preloaded(self@, origin@.host)) ==> ({
                let port: u16 = if origin@.port == 80 { 443 } else { origin@.port };
                match r {
                    Some(o) => origin_of(https(), origin@.host, port) == Some(o@),
                    None => origin_of(https(), origin@.host, port) is None,
                }
            }),
    {
        if origin.is_secure() || !self.requires_https(origin.host()) {
            return None;
        }
        let port = if origin.port() == 80 {
            443
        } else {
            origin.port()
        };
        proof {
            reveal_strlit("https");
            assert("https"@ =~= https());
        }
        Origin::new("https", origin.host(), port)
    }
}

impl PreloadError {
    /// The message this error is shown with.
    pub fn to_string(&self) -> (r: String)
        ensures
            r@ == "the HSTS preload list contained no entries"@,
    {
        let mut s = String::new();
        crate::text_ops::push_str(&mut s, "the HSTS preload list contained no entries");
        s
    }
}

} // verus!
