//! Name resolution, and the choice of who answers.
//!
//! The system resolver is preselected and DoH is offered; no provider is
//! compiled in as a default endpoint. Whoever answers a lookup learns every
//! site the user visits, and the system resolver is the one choice that
//! cannot be a downgrade for anybody: the user's DNS already goes there.
//!
//! DoH buys confidentiality from the network, not authenticity from the
//! resolver: the resolver still sees every name, and no answer is validated.
//!
//! Answers are cached per partition: a shared cache would let one site learn
//! that a name is already resolved, and so where the user has been.
use vstd::prelude::*;
use crate::net::assoc::{distinct_keys, lemma_map_of_at, lemma_map_of_dom, lemma_map_of_len, lemma_map_of_push,
    lemma_map_of_update, map_of};
use crate::net::clock::Clock;
use crate::net::dns::Address;
use crate::net::partition::{PartitionKey, PartitionKeyView};
use crate::text_ops::lower;
use crate::text_ops::{
    chars_of, find, find_in, pieces_of, split_bounds, split_char, split_lines, string_of, trim,
    trim_window, window_vec,
};

verus! {

/// Who answers a lookup. There is no default: the choice is made, and
/// [`Resolver::system`] is the preselected one.
#[derive(Debug, Clone, PartialEq, Eq)]
pub enum Resolver {
    /// Whatever the operating system is configured to use.
    System,
    /// A DoH endpoint the user selected.
    Doh {
        /// Host of the DoH endpoint.
        host: String,
        /// Path, conventionally `/dns-query`.
        path: String,
    },
}

impl Resolver {
    /// The preselected option.
    pub fn system() -> (r: Resolver)
        ensures
            r is System,
    {
        Resolver::System
    }

    /// Whether this resolver sends lookups over TLS to a chosen third party.
    pub fn is_encrypted(&self) -> (r: bool)
        ensures
            r == (self is Doh),
    {
        match self {
            Resolver::Doh { .. } => true,
            Resolver::System => false,
        }
    }
}

/// A resolver the user may pick, as offered in settings. What it says of its
/// policy is the provider's claim, not anything verified here.
#[derive(Debug, Clone, PartialEq, Eq)]
pub struct Provider {
    /// Display name.
    pub name: String,
    /// Endpoint host.
    pub host: String,
    /// Endpoint path.
    pub path: String,
    /// Where the operator is.
    pub jurisdiction: String,
    /// What the operator's published policy says it retains.
    pub policy: String,
}

/// What a [`Provider`] holds.
pub struct ProviderView {
    pub name: Seq<char>,
    pub host: Seq<char>,
    pub path: Seq<char>,
    pub jurisdiction: Seq<char>,
    pub policy: Seq<char>,
}

impl View for Provider {
    type V = ProviderView;

    open spec fn view(&self) -> ProviderView {
        ProviderView {
            name: self.name@,
            host: self.host@,
            path: self.path@,
            jurisdiction: self.jurisdiction@,
            policy: self.policy@,
        }
    }
}

/// The provider one line of the shipped list describes: four tab-separated
/// fields (name, `host/path`, jurisdiction, policy), each trimmed. A blank
/// line, a `#` comment, too few fields, an endpoint without `/`, and an
/// empty name or host describe none.
pub open spec fn provider_of_line(line: Seq<char>) -> Option<ProviderView> {
    let t = trim(line);
    let fields = split_char(t, '\t');
    let endpoint = trim(fields[1]);
    let slash = find(endpoint, '/');
    if t.len() == 0 || t[0] == '#' || fields.len() < 4 || slash < 0 {
        None
    } else if trim(fields[0]).len() == 0 || slash == 0 {
        None
    } else {
        Some(
            ProviderView {
                name: trim(fields[0]),
                host: endpoint.take(slash),
                path: seq!['/'] + endpoint.skip(slash + 1),
                jurisdiction: trim(fields[2]),
                policy: trim(fields[3]),
            },
        )
    }
}

/// The providers a run of lines describes, in order.
pub open spec fn providers_of_lines(lines: Seq<Seq<char>>) -> Seq<ProviderView>
    decreases lines.len(),
{
    if lines.len() == 0 {
        Seq::empty()
    } else {
        let rest = providers_of_lines(lines.drop_last());
        match provider_of_line(lines.last()) {
            Some(p) => rest.push(p),
            None => rest,
        }
    }
}

/// The string of `v[lo..hi]` with surrounding white space trimmed.
fn trimmed_string(v: &Vec<char>, lo: usize, hi: usize) -> (r: String)
    requires
        lo <= hi <= v@.len(),
    ensures
        r@ == trim(v@.subrange(lo as int, hi as int)),
{
    let (a, b) = trim_window(v, lo, hi);
    string_of(v, a, b)
}

/// The provider the line `v[lo..hi]` describes, if any.
fn provider_at(v: &Vec<char>, lo: usize, hi: usize) -> (r: Option<Provider>)
    requires
        lo <= hi <= v@.len(),
    ensures
        match r {
            Some(p) => provider_of_line(v@.subrange(lo as int, hi as int)) == Some(p@),
            None => provider_of_line(v@.subrange(lo as int, hi as int)) is None,
        },
{
    let (a, b) = trim_window(v, lo, hi);
    if a == b || v[a] == '#' {
        return None;
    }
    let t = window_vec(v, a, b);
    let bounds = split_bounds(&t, '\t');
    let ghost fields = split_char(t@, '\t');
    if bounds.len() < 4 {
        return None;
    }
    let (e0, e1) = bounds[1];
    let (ea, eb) = trim_window(&t, e0, e1);
    let endpoint = window_vec(&t, ea, eb);
    assert(endpoint@ == trim(fields[1]));
    assert(endpoint@.subrange(0, endpoint@.len() as int) =~= endpoint@);
    let slash = match find_in(&endpoint, 0, endpoint.len(), '/') {
        Some(k) => k,
        None => {
            return None;
        },
    };
    let (n0, n1) = bounds[0];
    let name = trimmed_string(&t, n0, n1);
    if name.as_str().is_empty() || slash == 0 {
        return None;
    }
    let (j0, j1) = bounds[2];
    let (p0, p1) = bounds[3];
    let host = string_of(&endpoint, 0, slash);
    assert(endpoint@.take(slash as int) =~= endpoint@.subrange(0, slash as int));
    let mut path_chars: Vec<char> = Vec::new();
    path_chars.push('/');
    let mut k = slash + 1;
    assert(path_chars@ =~= seq!['/'] + endpoint@.subrange(slash + 1, k as int));
    while k < endpoint.len()
        invariant
            slash < k <= endpoint@.len(),
            path_chars@ == seq!['/'] + endpoint@.subrange(slash + 1, k as int),
        decreases endpoint@.len() - k,
    {
        path_chars.push(endpoint[k]);
        k += 1;
        assert(path_chars@ =~= seq!['/'] + endpoint@.subrange(slash + 1, k as int));
    }
    assert(endpoint@.skip(slash + 1) =~= endpoint@.subrange(slash + 1, endpoint@.len() as int));
    let path = string_of(&path_chars, 0, path_chars.len());
    assert(path_chars@.subrange(0, path_chars@.len() as int) =~= path_chars@);
    Some(
        Provider {
            name,
            host,
            path,
            jurisdiction: trimmed_string(&t, j0, j1),
            policy: trimmed_string(&t, p0, p1),
        },
    )
}

/// Parse the shipped provider list. A line that cannot be read is skipped
/// rather than failing the list: a provider this cannot read is absent from
/// the menu, and the menu still exists.
pub fn parse_providers(text: &str) -> (r: Vec<Provider>)
    ensures
        r@.map_values(|p: Provider| p@) == providers_of_lines(split_lines(text@)),
{
    let v = chars_of(text);
    let bounds = split_bounds(&v, '\n');
    let ghost lines = split_char(v@, '\n');
    let mut out: Vec<Provider> = Vec::new();
    let mut i: usize = 0;
    assert(lines.take(0) =~= Seq::<Seq<char>>::empty());
    assert(out@.map_values(|p: Provider| p@) =~= Seq::<ProviderView>::empty());
    while i < bounds.len()
        invariant
            pieces_of(v@, '\n', lines, bounds@),
            lines == split_char(v@, '\n'),
            i <= bounds@.len(),
            out@.map_values(|p: Provider| p@) == providers_of_lines(lines.take(i as int)),
        decreases bounds@.len() - i,
    {
        let (a, b) = bounds[i];
        assert(lines.take(i + 1).drop_last() =~= lines.take(i as int));
        assert(lines.take(i + 1).last() == v@.subrange(a as int, b as int));
        match provider_at(&v, a, b) {
            Some(p) => {
                let ghost before = out@;
                let ghost pv = p@;
                out.push(p);
                assert(out@.map_values(|p: Provider| p@) =~= before.map_values(|p: Provider| p@).push(pv));
            },
            None => {},
        }
        i += 1;
    }
    assert(lines.take(bounds@.len() as int) =~= lines);
    out
}

/// Why a lookup failed.
#[derive(Debug)]
pub enum ResolveError {
    /// The name did not resolve.
    NotFound,
    /// The name could not be used: empty, or not ASCII.
    BadName(&'static str),
    /// The system resolver failed.
    System(std::io::Error),
}

/// `std::io::Error`, carried through unexamined.
#[verifier::external_type_specification]
#[verifier::external_body]
pub struct ExIoError(std::io::Error);

/// Whether `name` may be handed to a resolver: non-empty, and ASCII, since a
/// Unicode name means the IDNA step was skipped.
pub open spec fn lookup_name_ok(name: Seq<char>) -> Result<(), &'static str> {
    if name.len() == 0 {
        Err("empty")
    } else if !crate::text_ops::all_ascii(name) {
        Err("not ASCII; the IDNA step was skipped")
    } else {
        Ok(())
    }
}

/// Check a name before it is looked up.
pub fn check_lookup_name(name: &str) -> (r: Result<(), ResolveError>)
    ensures
        match lookup_name_ok(name@) {
            Ok(()) => r is Ok,
            Err(why) => r matches Err(ResolveError::BadName(w)) && w == why,
        },
{
    let v = chars_of(name);
    if v.len() == 0 {
        return Err(ResolveError::BadName("empty"));
    }
    assert(v@.subrange(0, v@.len() as int) =~= v@);
    if !crate::text_ops::window_is_ascii(&v, 0, v.len()) {
        return Err(ResolveError::BadName("not ASCII; the IDNA step was skipped"));
    }
    Ok(())
}

/// What a lookup that returned `count` addresses amounts to: none is
/// `NotFound`, rather than an empty success.
pub fn lookup_outcome(count: usize) -> (r: Result<(), ResolveError>)
    ensures
        r is Ok <==> count > 0,
        count == 0 ==> r matches Err(ResolveError::NotFound),
{
    if count == 0 {
        Err(ResolveError::NotFound)
    } else {
        Ok(())
    }
}

/// The `Display` text of a `std::io::Error`. What it says is not stated:
/// it comes from the operating system.
#[verifier::external_body]
pub(crate) fn io_error_text(error: &std::io::Error) -> (r: String) {
    error.to_string()
}

impl ResolveError {
    /// The message this error is shown with.
    pub fn to_string(&self) -> (r: String)
        ensures
            match *self {
                ResolveError::NotFound => r@ == "the name did not resolve"@,
                ResolveError::BadName(why) => r@ == "the name cannot be looked up: "@ + why@,
                ResolveError::System(_) => "the system resolver failed: "@.is_prefix_of(r@),
            },
    {
        let mut s = String::new();
        match self {
            ResolveError::NotFound => crate::text_ops::push_str(&mut s, "the name did not resolve"),
            ResolveError::BadName(why) => {
                crate::text_ops::push_str(&mut s, "the name cannot be looked up: ");
                crate::text_ops::push_str(&mut s, why);
            },
            ResolveError::System(error) => {
                crate::text_ops::push_str(&mut s, "the system resolver failed: ");
                let text = io_error_text(error);
                crate::text_ops::push_str(&mut s, text.as_str());
            },
        }
        s
    }
}

/// How long a resolution stays fresh, in milliseconds.
pub const CACHE_TTL_MILLIS: u64 = 60000;

/// The most names one partition may have cached.
pub const MAX_NAMES_PER_KEY: usize = 64;

/// What a cache maps: a partition and a lowercased name, to the addresses
/// the name resolved to and the time they stop being fresh.
pub open spec fn cache_key(key: PartitionKeyView, name: Seq<char>) -> (PartitionKeyView, Seq<char>) {
    (key, lower(name))
}

/// The keys of `m` in partition `p`.
pub open spec fn partition_keys(
    m: Map<(PartitionKeyView, Seq<char>), (Seq<Address>, u64)>,
    p: PartitionKeyView,
) -> Set<(PartitionKeyView, Seq<char>)> {
    m.dom().filter(|k: (PartitionKeyView, Seq<char>)| k.0 == p)
}

/// How many names partition `p` has cached in `m`.
pub open spec fn names_in(m: Map<(PartitionKeyView, Seq<char>), (Seq<Address>, u64)>, p: PartitionKeyView) -> nat {
    partition_keys(m, p).len()
}

/// `m` without partition `p`.
pub open spec fn without_partition(
    m: Map<(PartitionKeyView, Seq<char>), (Seq<Address>, u64)>,
    p: PartitionKeyView,
) -> Map<(PartitionKeyView, Seq<char>), (Seq<Address>, u64)> {
    m.restrict(m.dom().filter(|k: (PartitionKeyView, Seq<char>)| k.0 != p))
}

/// Whether a pair lies outside partition `p`.
spec fn outside(p: PartitionKeyView) -> spec_fn(((PartitionKeyView, Seq<char>), (Seq<Address>, u64))) -> bool {
    |x: ((PartitionKeyView, Seq<char>), (Seq<Address>, u64))| x.0.0 != p
}

/// What a lookup of `name` in partition `key` finds at time `now`: the
/// addresses cached for it there, while they are fresh.
pub open spec fn lookup(
    m: Map<(PartitionKeyView, Seq<char>), (Seq<Address>, u64)>,
    key: PartitionKeyView,
    name: Seq<char>,
    now: u64,
) -> Option<Seq<Address>> {
    let k = cache_key(key, name);
    if m.contains_key(k) && m[k].1 > now {
        Some(m[k].0)
    } else {
        None
    }
}

/// When a resolution recorded at `now` stops being fresh; at once, when
/// the clock is too near its end to add the lifetime.
pub open spec fn expiry_at(now: u64) -> u64 {
    if now > u64::MAX - CACHE_TTL_MILLIS {
        now
    } else {
        (now + CACHE_TTL_MILLIS) as u64
    }
}

/// One cached resolution.
struct Entry {
    key: PartitionKey,
    name: String,
    addresses: Vec<Address>,
    expires: u64,
}

/// What an entry records.
spec fn entry_view(e: Entry) -> ((PartitionKeyView, Seq<char>), (Seq<Address>, u64)) {
    ((e.key@, e.name@), (e.addresses@, e.expires))
}

/// What a run of entries records.
spec fn entry_views(s: Seq<Entry>) -> Seq<((PartitionKeyView, Seq<char>), (Seq<Address>, u64))> {
    s.map_values(|e: Entry| entry_view(e))
}

/// How many of the pairs of `s` belong to partition `p`.
spec fn count_in(s: Seq<((PartitionKeyView, Seq<char>), (Seq<Address>, u64))>, p: PartitionKeyView) -> nat
    decreases s.len(),
{
    if s.len() == 0 {
        0
    } else {
        count_in(s.drop_last(), p) + if s.last().0.0 == p {
            1nat
        } else {
            0nat
        }
    }
}

/// Adding a key changes only its own partition's count, and that by one
/// when the key is new.
proof fn lemma_names_after_insert(
    m: Map<(PartitionKeyView, Seq<char>), (Seq<Address>, u64)>,
    k: (PartitionKeyView, Seq<char>),
    v: (Seq<Address>, u64),
    p: PartitionKeyView,
)
    requires
        m.dom().finite(),
    ensures
        names_in(m.insert(k, v), p) == names_in(m, p) + if k.0 == p && !m.contains_key(k) {
            1nat
        } else {
            0nat
        },
{
    let f = partition_keys(m, p);
    let g = partition_keys(m.insert(k, v), p);
    m.dom().lemma_len_filter(|x: (PartitionKeyView, Seq<char>)| x.0 == p);
    assert(f.finite());
    if k.0 == p {
        assert(g =~= f.insert(k));
        assert(f.contains(k) == m.contains_key(k));
        vstd::set::axiom_set_insert_len(f, k);
    } else {
        assert(g =~= f);
    }
}

/// Counting the pairs of a partition counts its names in the map.
proof fn lemma_count_is_names(s: Seq<((PartitionKeyView, Seq<char>), (Seq<Address>, u64))>, p: PartitionKeyView)
    requires
        distinct_keys(s),
    ensures
        count_in(s, p) == names_in(map_of(s), p),
        map_of(s).dom().finite(),
    decreases s.len(),
{
    lemma_map_of_len(s);
    if s.len() == 0 {
        assert(partition_keys(map_of(s), p) =~= Set::empty());
    } else {
        let d = s.drop_last();
        assert(distinct_keys(d)) by {
            assert forall|a: int, b: int| 0 <= a < b < d.len() implies #[trigger] d[a].0 != #[trigger] d[b].0 by {
                assert(s[a].0 != s[b].0);
            }
        }
        lemma_count_is_names(d, p);
        lemma_map_of_dom(d, s.last().0);
        if map_of(d).contains_key(s.last().0) {
            let j = choose|j: int| 0 <= j < d.len() && d[j].0 == s.last().0;
            assert(s[j].0 != s[s.len() - 1].0);
        }
        lemma_names_after_insert(map_of(d), s.last().0, s.last().1, p);
    }
}

/// Keeping the pairs of every partition but `p` keeps the map's entries
/// outside `p`.
proof fn lemma_map_of_filter(s: Seq<((PartitionKeyView, Seq<char>), (Seq<Address>, u64))>, p: PartitionKeyView)
    requires
        distinct_keys(s),
    ensures
        distinct_keys(s.filter(outside(p))),
        map_of(s.filter(outside(p))) == without_partition(map_of(s), p),
    decreases s.len(),
{
    reveal(Seq::filter);
    if s.len() == 0 {
        assert(without_partition(map_of(s), p) =~= map_of(s));
    } else {
        let d = s.drop_last();
        assert(distinct_keys(d)) by {
            assert forall|a: int, b: int| 0 <= a < b < d.len() implies #[trigger] d[a].0 != #[trigger] d[b].0 by {
                assert(s[a].0 != s[b].0);
            }
        }
        lemma_map_of_filter(d, p);
        let fd = d.filter(outside(p));
        d.filter_lemma(outside(p));
        lemma_map_of_dom(d, s.last().0);
        if map_of(d).contains_key(s.last().0) {
            let j = choose|j: int| 0 <= j < d.len() && d[j].0 == s.last().0;
            assert(s[j].0 != s[s.len() - 1].0);
        }
        if outside(p)(s.last()) {
            assert(s.filter(outside(p)) == fd.push(s.last()));
            lemma_map_of_dom(fd, s.last().0);
            if map_of(fd).contains_key(s.last().0) {
                let j = choose|j: int| 0 <= j < fd.len() && fd[j].0 == s.last().0;
                assert(d.contains(fd[j]));
                let q = choose|q: int| 0 <= q < d.len() && d[q] == fd[j];
                assert(s[q].0 != s[s.len() - 1].0);
            }
            lemma_map_of_push(fd, s.last().0, s.last().1);
        } else {
            assert(s.filter(outside(p)) == fd);
        }
        assert(map_of(s.filter(outside(p))) =~= without_partition(map_of(s), p));
    }
}

/// Dropping a partition empties its count and leaves the others'.
proof fn lemma_names_without(
    m: Map<(PartitionKeyView, Seq<char>), (Seq<Address>, u64)>,
    dropped: PartitionKeyView,
    p: PartitionKeyView,
)
    ensures
        names_in(without_partition(m, dropped), p) <= names_in(m, p),
{
    if p == dropped {
        assert(partition_keys(without_partition(m, dropped), p) =~= Set::empty());
    } else {
        assert(partition_keys(without_partition(m, dropped), p) =~= partition_keys(m, p));
    }
}

/// An empty list of entries is a well-formed cache.
proof fn lemma_empty_entries(v: Seq<Entry>)
    requires
        v.len() == 0,
    ensures
        distinct_keys(entry_views(v)),
        forall|p: PartitionKeyView| #[trigger] names_in(map_of(entry_views(v)), p) <= MAX_NAMES_PER_KEY,
{
    assert(entry_views(v) =~= Seq::empty());
    assert forall|p: PartitionKeyView| #[trigger] names_in(map_of(entry_views(v)), p) <= MAX_NAMES_PER_KEY by {
        assert(partition_keys(map_of(entry_views(v)), p) =~= Set::empty());
    }
}

/// A lookup in one partition is not changed by recording a name in
/// another: what one site caches, no other site can learn of.
pub proof fn lemma_cache_partitions_isolated(
    m: Map<(PartitionKeyView, Seq<char>), (Seq<Address>, u64)>,
    stored: PartitionKeyView,
    stored_name: Seq<char>,
    v: (Seq<Address>, u64),
    other: PartitionKeyView,
    name: Seq<char>,
    now: u64,
)
    requires
        other != stored,
    ensures
        lookup(m.insert(cache_key(stored, stored_name), v), other, name, now) == lookup(m, other, name, now),
{
}

/// A name recorded in a partition is found there, under any case, until it
/// expires.
pub proof fn lemma_cache_read_back(
    m: Map<(PartitionKeyView, Seq<char>), (Seq<Address>, u64)>,
    key: PartitionKeyView,
    name: Seq<char>,
    addresses: Seq<Address>,
    expires: u64,
    asked: Seq<char>,
    now: u64,
)
    requires
        lower(asked) == lower(name),
        now < expires,
    ensures
        lookup(m.insert(cache_key(key, name), (addresses, expires)), key, asked, now) == Some(addresses),
{
}

/// The cache after storing `addresses` for `name` in partition `key` at
/// `now`: unchanged when the partition is full, otherwise holding them
/// until [`CACHE_TTL_MILLIS`] after `now`.
pub open spec fn put_result(
    before: Map<(PartitionKeyView, Seq<char>), (Seq<Address>, u64)>,
    key: PartitionKeyView,
    name: Seq<char>,
    addresses: Seq<Address>,
    now: u64,
) -> Map<(PartitionKeyView, Seq<char>), (Seq<Address>, u64)> {
    if names_in(before, key) >= MAX_NAMES_PER_KEY {
        before
    } else {
        before.insert(cache_key(key, name), (addresses, expiry_at(now)))
    }
}

/// A partitioned cache of resolved names, keyed by partition and name, so
/// that whether a name is already resolved tells one site nothing about
/// where the user has been on another. Each partition holds at most
/// [`MAX_NAMES_PER_KEY`] names. Expiry is timed on the cache's own
/// monotonic clock, started with it.
pub struct Cache {
    entries: Vec<Entry>,
    clock: Clock,
}

impl View for Cache {
    type V = Map<(PartitionKeyView, Seq<char>), (Seq<Address>, u64)>;

    closed spec fn view(&self) -> Map<(PartitionKeyView, Seq<char>), (Seq<Address>, u64)> {
        map_of(entry_views(self.entries@))
    }
}

impl Cache {
    #[verifier::type_invariant]
    closed spec fn well_formed(self) -> bool {
        &&& distinct_keys(entry_views(self.entries@))
        &&& forall|p: PartitionKeyView| #[trigger] names_in(self@, p) <= MAX_NAMES_PER_KEY
    }

    /// The clock reading of the cache's last storing call; later calls
    /// read the clock no earlier.
    pub closed spec fn reading(&self) -> u64 {
        self.clock.last()
    }

    /// Give the cache `clock`; what it holds is unchanged.
    fn set_clock(&mut self, clock: Clock)
        ensures
            final(self)@ == old(self)@,
            final(self).reading() == clock.last(),
    {
        let none: Vec<Entry> = Vec::new();
        proof {
            lemma_empty_entries(none@);
        }
        let mut taken = Cache { entries: none, clock };
        std::mem::swap(&mut taken, self);
        proof {
            use_type_invariant(&taken);
            let es = taken.entries@;
            assert forall|p: PartitionKeyView| #[trigger] names_in(map_of(entry_views(es)), p) <= MAX_NAMES_PER_KEY by {
                assert(names_in(taken@, p) <= MAX_NAMES_PER_KEY);
            }
        }
        let Cache { entries, clock: _ } = taken;
        *self = Cache { entries, clock };
    }

    /// An empty cache.
    pub fn new() -> (r: Cache)
        ensures
            r@ == Map::<(PartitionKeyView, Seq<char>), (Seq<Address>, u64)>::empty(),
            r.reading() == 0,
    {
        let v: Vec<Entry> = Vec::new();
        proof {
            lemma_empty_entries(v@);
        }
        let r = Cache { entries: v, clock: Clock::started() };
        assert(r@ =~= Map::<(PartitionKeyView, Seq<char>), (Seq<Address>, u64)>::empty());
        r
    }

    /// The index of the entry for `key` and the lowercased `name`, if any.
    fn position(&self, key: &PartitionKey, name: &String) -> (r: Option<usize>)
        ensures
            match r {
                Some(i) => i < self.entries@.len() && entry_views(self.entries@)[i as int].0 == (key@, name@),
                None => !self@.contains_key((key@, name@)),
            },
    {
        let ghost s = entry_views(self.entries@);
        let mut i: usize = 0;
        while i < self.entries.len()
            invariant
                s == entry_views(self.entries@),
                i <= self.entries@.len(),
                forall|j: int| 0 <= j < i ==> #[trigger] s[j].0 != (key@, name@),
            decreases self.entries@.len() - i,
        {
            let e = &self.entries[i];
            if e.key.same_as(key) && e.name == *name {
                return Some(i);
            }
            i += 1;
        }
        proof {
            lemma_map_of_dom(s, (key@, name@));
        }
        None
    }

    /// The addresses cached for `name` in partition `key`, if they are
    /// still fresh at `now`.
    pub fn get_at(&self, key: &PartitionKey, name: &str, now: u64) -> (r: Option<&[Address]>)
        ensures
            match lookup(self@, key@, name@, now) {
                Some(a) => r matches Some(found) && found@ == a,
                None => r is None,
            },
    {
        proof {
            use_type_invariant(self);
        }
        let lowered = lowercase(name);
        match self.position(key, &lowered) {
            None => None,
            Some(i) => {
                proof {
                    lemma_map_of_at(entry_views(self.entries@), i as int);
                }
                let e = &self.entries[i];
                if e.expires <= now {
                    None
                } else {
                    Some(e.addresses.as_slice())
                }
            },
        }
    }

    /// The addresses cached for `name` in partition `key`, if they are
    /// still fresh now: at a clock reading no earlier than the cache's last.
    pub fn get(&self, key: &PartitionKey, name: &str) -> (r: Option<&[Address]>)
        ensures
            exists|now: u64|
                #![trigger lookup(self@, key@, name@, now)]
                self.reading() <= now && match r {
                    Some(found) => lookup(self@, key@, name@, now) == Some(found@),
                    None => lookup(self@, key@, name@, now) is None,
                },
    {
        let now = self.clock.read();
        self.get_at(key, name, now)
    }

    /// How many names partition `key` has cached.
    fn count_for(&self, key: &PartitionKey) -> (r: usize)
        ensures
            r == names_in(self@, key@),
    {
        proof {
            use_type_invariant(self);
        }
        let ghost s = entry_views(self.entries@);
        let mut count: usize = 0;
        let mut i: usize = 0;
        while i < self.entries.len()
            invariant
                s == entry_views(self.entries@),
                distinct_keys(s),
                i <= self.entries@.len(),
                count == count_in(s.take(i as int), key@),
                count <= i,
            decreases self.entries@.len() - i,
        {
            proof {
                assert(s.take(i + 1).drop_last() =~= s.take(i as int));
            }
            if self.entries[i].key.same_as(key) {
                count += 1;
            }
            i += 1;
        }
        proof {
            assert(s.take(i as int) =~= s);
            lemma_count_is_names(s, key@);
        }
        count
    }

    /// Records that `name` resolved to `addresses` in partition `key` at
    /// `now`, replacing what was cached for it there. Nothing is recorded
    /// when the partition already holds [`MAX_NAMES_PER_KEY`] names.
    pub fn put_at(&mut self, key: &PartitionKey, name: &str, addresses: Vec<Address>, now: u64)
        ensures
            names_in(old(self)@, key@) >= MAX_NAMES_PER_KEY ==> final(self)@ == old(self)@,
            names_in(old(self)@, key@) < MAX_NAMES_PER_KEY ==> final(self)@ == old(self)@.insert(
                cache_key(key@, name@),
                (addresses@, expiry_at(now)),
            ),
            forall|p: PartitionKeyView| #[trigger] names_in(final(self)@, p) <= MAX_NAMES_PER_KEY,
            final(self).reading() == old(self).reading(),
    {
        proof {
            use_type_invariant(&*self);
        }
        if self.count_for(key) >= MAX_NAMES_PER_KEY {
            return;
        }
        let lowered = lowercase(name);
        let expires = if now > u64::MAX - CACHE_TTL_MILLIS {
            now
        } else {
            now + CACHE_TTL_MILLIS
        };
        let found = self.position(key, &lowered);
        let ghost before = entry_views(self.entries@);
        let ghost k = (key@, lowered@);
        let ghost v = (addresses@, expires);
        let entry = Entry { key: key.duplicate(), name: lowered, addresses, expires };
        let none: Vec<Entry> = Vec::new();
        proof {
            lemma_empty_entries(none@);
        }
        let mut taken = Cache { entries: none, clock: self.clock };
        std::mem::swap(&mut taken, self);
        let Cache { entries: mut es, clock } = taken;
        proof {
            lemma_map_of_len(before);
        }
        match found {
            Some(i) => {
                es.set(i, entry);
                proof {
                    lemma_map_of_update(before, i as int, v);
                    assert(entry_views(es@) =~= before.update(i as int, (before[i as int].0, v)));
                }
            },
            None => {
                es.push(entry);
                proof {
                    lemma_map_of_push(before, k, v);
                    assert(entry_views(es@) =~= before.push((k, v)));
                }
            },
        }
        proof {
            assert forall|p: PartitionKeyView| #[trigger] names_in(map_of(entry_views(es@)), p) <= MAX_NAMES_PER_KEY by {
                lemma_names_after_insert(map_of(before), k, v, p);
            }
        }
        *self = Cache { entries: es, clock };
        proof {
            use_type_invariant(&*self);
        }
    }

    /// Records that `name` resolved to `addresses` in partition `key`, fresh
    /// for [`CACHE_TTL_MILLIS`] from now.
    pub fn put(&mut self, key: &PartitionKey, name: &str, addresses: Vec<Address>)
        ensures
            exists|now: u64|
                #![trigger put_result(old(self)@, key@, name@, addresses@, now)]
                old(self).reading() <= now && final(self).reading() == now && final(self)@ == put_result(
                    old(self)@,
                    key@,
                    name@,
                    addresses@,
                    now,
                ),
            forall|p: PartitionKeyView| #[trigger] names_in(final(self)@, p) <= MAX_NAMES_PER_KEY,
    {
        let (clock, now) = self.clock.advanced();
        self.set_clock(clock);
        assert(self.reading() == now);
        let ghost mid = self@;
        assert(mid == old(self)@);
        self.put_at(key, name, addresses, now);
        proof {
            use_type_invariant(&*self);
            assert(self.reading() == now);
            assert(old(self).reading() <= now);
            assert(self@ == put_result(old(self)@, key@, name@, addresses@, now));
        }
    }

    /// Drops everything cached for partition `key`, and nothing else.
    pub fn forget(&mut self, key: &PartitionKey)
        ensures
            final(self)@ == without_partition(old(self)@, key@),
            forall|p: PartitionKeyView| #[trigger] names_in(final(self)@, p) <= MAX_NAMES_PER_KEY,
            final(self).reading() == old(self).reading(),
    {
        proof {
            use_type_invariant(&*self);
        }
        let ghost m0 = self@;
        let none: Vec<Entry> = Vec::new();
        proof {
            lemma_empty_entries(none@);
        }
        let mut taken = Cache { entries: none, clock: self.clock };
        std::mem::swap(&mut taken, self);
        let Cache { entries: mut es, clock } = taken;
        let ghost s = entry_views(es@);
        let mut kept: Vec<Entry> = Vec::new();
        let ghost mut i: int = 0;
        while es.len() > 0
            invariant
                0 <= i <= s.len(),
                entry_views(es@) == s.skip(i),
                entry_views(kept@) == s.take(i).filter(outside(key@)),
            decreases es@.len(),
        {
            let ghost before = es@;
            let e = es.remove(0);
            proof {
                reveal(Seq::filter);
                assert(entry_views(before).len() == before.len());
                assert(i < s.len());
                assert(entry_views(before)[0] == entry_view(before[0]));
                assert(s.skip(i)[0] == s[i]);
                assert(entry_view(e) == s[i]);
                assert(es@ =~= before.skip(1));
                assert forall|j: int| 0 <= j < es@.len() implies #[trigger] entry_views(es@)[j] == s.skip(i + 1)[j] by {
                    assert(es@[j] == before[j + 1]);
                    assert(entry_views(before)[j + 1] == entry_view(before[j + 1]));
                    assert(s.skip(i)[j + 1] == s[i + j + 1]);
                }
                assert(entry_views(es@) =~= s.skip(i + 1));
                assert(s.take(i + 1).drop_last() =~= s.take(i));
                assert(s.take(i + 1).last() == s[i]);
            }
            let ghost kept0 = kept@;
            if !e.key.same_as(key) {
                kept.push(e);
                proof {
                    assert(entry_views(kept@) =~= entry_views(kept0).push(entry_view(e)));
                }
            }
            proof {
                i = i + 1;
            }
        }
        proof {
            assert(s.take(i) =~= s);
            lemma_map_of_filter(s, key@);
            assert forall|p: PartitionKeyView| #[trigger] names_in(map_of(entry_views(kept@)), p) <= MAX_NAMES_PER_KEY by {
                lemma_names_without(m0, key@, p);
            }
        }
        *self = Cache { entries: kept, clock };
        proof {
            use_type_invariant(&*self);
        }
    }

    /// How many names are cached, over every partition.
    pub fn len(&self) -> (r: usize)
        ensures
            r == self@.dom().len(),
    {
        proof {
            use_type_invariant(self);
            lemma_map_of_len(entry_views(self.entries@));
        }
        self.entries.len()
    }

    /// Whether nothing is cached.
    pub fn is_empty(&self) -> (r: bool)
        ensures
            r == (self@.dom().len() == 0),
    {
        self.len() == 0
    }
}

/// `name` lowercased, as `str::to_ascii_lowercase` does.
fn lowercase(name: &str) -> (r: String)
    ensures
        r@ == lower(name@),
{
    let v = chars_of(name);
    let l = crate::text_ops::lower_window(&v, 0, v.len());
    proof {
        assert(v@.subrange(0, v@.len() as int) =~= v@);
    }
    crate::text_ops::string_of_all(&l)
}

} // verus!
