//! The connection pool, keyed so that no connection can cross a partition.
//!
//! A connection reused across two top-level sites links them, and even the
//! warmth of a shared connection is an oracle; so every lookup takes the full
//! [`PartitionKey`], and there is none that takes less.
//!
//! Entries are also keyed by [`Protocol`], which has one value today: a pool
//! that assumes one connection per origin would be rewritten, boundary and
//! all, when multiplexing arrives.
//!
//! The pool keeps its keys in the order they were first used; when it tracks
//! [`MAX_KEYS`] of them, the oldest makes room. Times are milliseconds on the
//! pool's own monotonic clock, started with it; the functions whose names end
//! in `_at` take the current time, and the others read it.
use vstd::prelude::*;
use crate::net::assoc::{distinct_keys, lemma_map_of_dom, lemma_map_of_len, lemma_total_concat, map_of, total_len};
use crate::net::clock::Clock;
use crate::net::partition::{PartitionKey, PartitionKeyView};

verus! {

/// Which wire protocol a pooled connection speaks.
#[derive(Debug, Clone, Copy, PartialEq, Eq, Hash, PartialOrd, Ord, Structural)]
pub enum Protocol {
    /// HTTP/1.1, the only value today.
    Http11,
}

/// How many idle connections are kept for one key.
pub const MAX_IDLE_PER_KEY: usize = 6;

/// How many distinct keys the pool tracks before evicting the oldest.
pub const MAX_KEYS: usize = 256;

/// How long, in milliseconds, an idle connection may sit before it is dropped.
pub const IDLE_TIMEOUT_MS: u64 = 45_000;

/// A pooled connection and when it went idle.
struct Idle<C> {
    connection: C,
    since: u64,
}

/// Whether a connection idle since `since` may still be used at `now`. A
/// clock that has gone backwards counts as no time passed.
pub open spec fn fresh(since: u64, now: u64) -> bool {
    since >= now || now - since < IDLE_TIMEOUT_MS
}

/// The connections of a slot that may still be used at `now`, oldest first.
pub open spec fn fresh_of<C>(slot: Seq<(C, u64)>, now: u64) -> Seq<(C, u64)>
    decreases slot.len(),
{
    if slot.len() == 0 {
        Seq::empty()
    } else {
        let head: Seq<(C, u64)> = if fresh(slot[0].1, now) {
            seq![slot[0]]
        } else {
            Seq::empty()
        };
        head + fresh_of(slot.drop_first(), now)
    }
}



/// What survives the idle check at `now` is exactly the slot's connections
/// that went idle less than 45 seconds (45,000 ms) before `now`, or not
/// before it at all: one idle for 45 seconds or more is never kept, so
/// [`ConnectionPool::take_at`], which hands out the newest survivor, never
/// hands it out.
pub proof fn lemma_fresh_is_under_timeout<C>(slot: Seq<(C, u64)>, now: u64)
    ensures
        forall|k: int| 0 <= k < fresh_of(slot, now).len() ==> {
            let e = #[trigger] fresh_of(slot, now)[k];
            &&& e.1 >= now || now - e.1 < 45_000
            &&& slot.contains(e)
        },
        forall|k: int| 0 <= k < slot.len() && (slot[k].1 >= now || now - slot[k].1 < 45_000) ==> fresh_of(
            slot,
            now,
        ).contains(#[trigger] slot[k]),
    decreases slot.len(),
{
    if slot.len() > 0 {
        lemma_fresh_is_under_timeout(slot.drop_first(), now);
        let rest = fresh_of(slot.drop_first(), now);
        let head: Seq<(C, u64)> = if fresh(slot[0].1, now) {
            seq![slot[0]]
        } else {
            Seq::empty()
        };
        let f = fresh_of(slot, now);
        assert(f == head + rest);
        assert forall|k: int| 0 <= k < f.len() implies {
            let e = #[trigger] f[k];
            &&& e.1 >= now || now - e.1 < 45_000
            &&& slot.contains(e)
        } by {
            if k < head.len() {
                assert(f[k] == slot[0]);
            } else {
                assert(f[k] == rest[k - head.len()]);
                let j = choose|j: int| 0 <= j < slot.drop_first().len() && slot.drop_first()[j] == rest[k - head.len()];
                assert(slot[j + 1] == f[k]);
            }
        }
        assert forall|k: int| 0 <= k < slot.len() && (slot[k].1 >= now || now - slot[k].1 < 45_000) implies f.contains(
            #[trigger] slot[k],
        ) by {
            if k == 0 {
                assert(f[0] == slot[0]);
            } else {
                assert(slot.drop_first()[k - 1] == slot[k]);
                let j = choose|j: int| 0 <= j < rest.len() && rest[j] == slot[k];
                assert(f[j + head.len()] == slot[k]);
            }
        }
    }
}

/// After dropping what has gone stale at `now`, every connection left in
/// the pool went idle less than 45 seconds (45,000 ms) before `now`, or not
/// before it at all, and was in the pool before.
pub proof fn lemma_expired_idle_drops_stale<C>(s: Seq<((PartitionKeyView, Protocol), Seq<(C, u64)>)>, now: u64)
    ensures
        forall|i: int, k: int|
            0 <= i < expired_idle(s, now).len() && 0 <= k < expired_idle(s, now)[i].1.len() ==> {
                let e = #[trigger] expired_idle(s, now)[i].1[k];
                e.1 >= now || now - e.1 < 45_000
            },
    decreases s.len(),
{
    if s.len() > 0 {
        lemma_expired_idle_drops_stale(s.drop_first(), now);
        lemma_fresh_is_under_timeout(s[0].1, now);
        let f = fresh_of(s[0].1, now);
        let head = if f.len() == 0 {
            Seq::empty()
        } else {
            seq![(s[0].0, f)]
        };
        let rest = expired_idle(s.drop_first(), now);
        let x = expired_idle(s, now);
        assert(x == head + rest);
        assert forall|i: int, k: int| 0 <= i < x.len() && 0 <= k < x[i].1.len() implies {
            let e = #[trigger] x[i].1[k];
            e.1 >= now || now - e.1 < 45_000
        } by {
            if i < head.len() {
                assert(x[i] == (s[0].0, f));
                assert(f[k] == x[i].1[k]);
            } else {
                assert(x[i] == rest[i - head.len()]);
                assert(rest[i - head.len()].1[k] == x[i].1[k]);
            }
        }
    }
}

/// The total of one entry is its own length.
proof fn lemma_total_single<C>(e: ((PartitionKeyView, Protocol), Seq<(C, u64)>))
    ensures
        total_len(seq![e]) == e.1.len(),
{
    let one = seq![e];
    assert(one.drop_last() =~= Seq::<((PartitionKeyView, Protocol), Seq<(C, u64)>)>::empty());
    assert(total_len(one.drop_last()) == 0);
    assert(one.last() == e);
}

/// Dropping the idle-too-long connections leaves no key without a
/// connection, and never adds to how many are pooled.
pub proof fn lemma_expired_idle_shape<C>(s: Seq<((PartitionKeyView, Protocol), Seq<(C, u64)>)>, now: u64)
    ensures
        forall|i: int| 0 <= i < expired_idle(s, now).len() ==> (#[trigger] expired_idle(s, now)[i]).1.len() > 0,
        total_len(expired_idle(s, now)) <= total_len(s),
    decreases s.len(),
{
    if s.len() > 0 {
        let f = fresh_of(s[0].1, now);
        let head: Seq<((PartitionKeyView, Protocol), Seq<(C, u64)>)> = if f.len() == 0 {
            Seq::empty()
        } else {
            seq![(s[0].0, f)]
        };
        let rest = expired_idle(s.drop_first(), now);
        lemma_expired_idle_shape(s.drop_first(), now);
        lemma_fresh_len(s[0].1, now);
        lemma_total_concat(head, rest);
        lemma_total_concat(seq![s[0]], s.drop_first());
        assert(seq![s[0]] + s.drop_first() =~= s);
        lemma_total_single(s[0]);
        if f.len() > 0 {
            lemma_total_single((s[0].0, f));
        } else {
            assert(total_len(head) == 0);
        }
        let e = expired_idle(s, now);
        assert(e == head + rest);
        assert forall|i: int| 0 <= i < e.len() implies (#[trigger] e[i]).1.len() > 0 by {
            if i < head.len() {
                assert(e[i] == head[i]);
            } else {
                assert(e[i] == rest[i - head.len()]);
            }
        }
    }
}

/// The position of `k` in the pool's list of keys, or -1.
pub open spec fn key_index<C>(s: Seq<((PartitionKeyView, Protocol), Seq<(C, u64)>)>, k: (PartitionKeyView, Protocol)) -> int {
    if exists|i: int| 0 <= i < s.len() && s[i].0 == k {
        choose|i: int| 0 <= i < s.len() && s[i].0 == k
    } else {
        -1
    }
}

/// The pool after `put`: a new key first makes room (evicting the oldest key
/// when [`MAX_KEYS`] are tracked) and is added last; the connection joins its
/// slot unless the slot already holds [`MAX_IDLE_PER_KEY`].
pub open spec fn after_put<C>(
    s: Seq<((PartitionKeyView, Protocol), Seq<(C, u64)>)>,
    k: (PartitionKeyView, Protocol),
    c: C,
    now: u64,
) -> Seq<((PartitionKeyView, Protocol), Seq<(C, u64)>)> {
    let i = key_index(s, k);
    if i >= 0 {
        if s[i].1.len() >= MAX_IDLE_PER_KEY {
            s
        } else {
            s.update(i, (k, s[i].1.push((c, now))))
        }
    } else {
        let room = if s.len() >= MAX_KEYS {
            s.drop_first()
        } else {
            s
        };
        room.push((k, seq![(c, now)]))
    }
}

/// The pool without any entry for partition key `key`, under any protocol.
pub open spec fn without_key<C>(
    s: Seq<((PartitionKeyView, Protocol), Seq<(C, u64)>)>,
    key: PartitionKeyView,
) -> Seq<((PartitionKeyView, Protocol), Seq<(C, u64)>)>
    decreases s.len(),
{
    if s.len() == 0 {
        Seq::empty()
    } else {
        let head = if s[0].0.0 == key {
            Seq::empty()
        } else {
            seq![s[0]]
        };
        head + without_key(s.drop_first(), key)
    }
}

/// The pool after dropping what has gone stale at `now`: each slot keeps
/// its fresh connections, and a key left with none is dropped.
pub open spec fn expired_idle<C>(
    s: Seq<((PartitionKeyView, Protocol), Seq<(C, u64)>)>,
    now: u64,
) -> Seq<((PartitionKeyView, Protocol), Seq<(C, u64)>)>
    decreases s.len(),
{
    if s.len() == 0 {
        Seq::empty()
    } else {
        let f = fresh_of(s[0].1, now);
        let head = if f.len() == 0 {
            Seq::empty()
        } else {
            seq![(s[0].0, f)]
        };
        head + expired_idle(s.drop_first(), now)
    }
}

/// The views of a slot: each connection with when it went idle.
spec fn idle_views<C>(s: Seq<Idle<C>>) -> Seq<(C, u64)> {
    s.map_values(|e: Idle<C>| (e.connection, e.since))
}

/// The views of the pool's entries, oldest key first.
spec fn entry_views<C>(e: Seq<((PartitionKey, Protocol), Vec<Idle<C>>)>) -> Seq<
    ((PartitionKeyView, Protocol), Seq<(C, u64)>),
> {
    e.map_values(|p: ((PartitionKey, Protocol), Vec<Idle<C>>)| ((p.0.0@, p.0.1), idle_views(p.1@)))
}

/// A partitioned pool of reusable connections, generic over the connection
/// type so that the partitioning rules can be exercised without a socket.
pub struct ConnectionPool<C> {
    entries: Vec<((PartitionKey, Protocol), Vec<Idle<C>>)>,
    clock: Clock,
}

impl<C> View for ConnectionPool<C> {
    type V = Seq<((PartitionKeyView, Protocol), Seq<(C, u64)>)>;

    /// The keys in the order they were first used, each with its idle
    /// connections, oldest first.
    closed spec fn view(&self) -> Seq<((PartitionKeyView, Protocol), Seq<(C, u64)>)> {
        entry_views(self.entries@)
    }
}

impl<C> ConnectionPool<C> {
    #[verifier::type_invariant]
    closed spec fn inv(self) -> bool {
        &&& distinct_keys(entry_views(self.entries@))
        &&& self.entries@.len() <= MAX_KEYS
        &&& forall|i: int| 0 <= i < self.entries@.len() ==> #[trigger] self.entries@[i].1@.len() <= MAX_IDLE_PER_KEY
    }

    /// The clock reading of the pool's last taking, returning or expiring
    /// call; later calls read the clock no earlier.
    pub closed spec fn reading(&self) -> u64 {
        self.clock.last()
    }

    /// An empty pool.
    pub fn new() -> (r: Self)
        ensures
            r@ == Seq::<((PartitionKeyView, Protocol), Seq<(C, u64)>)>::empty(),
            r.reading() == 0,
    {
        let r = ConnectionPool { entries: Vec::new(), clock: Clock::started() };
        assert(r@ =~= Seq::<((PartitionKeyView, Protocol), Seq<(C, u64)>)>::empty());
        r
    }

    /// What every pool keeps: distinct keys, at most [`MAX_KEYS`] of them,
    /// and at most [`MAX_IDLE_PER_KEY`] connections under each.
    pub fn check_bounds(&self)
        ensures
            distinct_keys(self@),
            self@.len() <= MAX_KEYS,
            forall|i: int| 0 <= i < self@.len() ==> #[trigger] self@[i].1.len() <= MAX_IDLE_PER_KEY,
    {
        proof {
            use_type_invariant(self);
            assert forall|i: int| 0 <= i < self@.len() implies #[trigger] self@[i].1.len() <= MAX_IDLE_PER_KEY by {
                assert(self.entries@[i].1@.len() <= MAX_IDLE_PER_KEY);
            }
        }
    }

    /// Put `slot` in place of the `i`th key's connections, and hand back what
    /// was there.
    fn swap_slot(&mut self, i: usize, slot: Vec<Idle<C>>) -> (r: Vec<Idle<C>>)
        requires
            i < old(self)@.len(),
            slot@.len() <= MAX_IDLE_PER_KEY,
        ensures
            final(self)@ == old(self)@.update(i as int, (old(self)@[i as int].0, idle_views(slot@))),
            idle_views(r@) == old(self)@[i as int].1,
            r@.len() <= MAX_IDLE_PER_KEY,
            final(self).reading() == old(self).reading(),
    {
        proof {
            use_type_invariant(&*self);
        }
        let ghost old_e = self.entries@;
        let mut taken = ConnectionPool { entries: Vec::new(), clock: self.clock };
        std::mem::swap(&mut taken, self);
        let ConnectionPool { entries: mut es, clock } = taken;
        assert(forall|j: int| 0 <= j < old_e.len() ==> #[trigger] old_e[j].1@.len() <= MAX_IDLE_PER_KEY);
        let (k, old_slot) = es.remove(i);
        let ghost sv = idle_views(slot@);
        es.insert(i, (k, slot));
        proof {
            let s = entry_views(old_e);
            assert(entry_views(es@) =~= s.update(i as int, (s[i as int].0, sv)));
            crate::net::assoc::lemma_map_of_update(s, i as int, sv);
            assert forall|j: int| 0 <= j < es@.len() implies #[trigger] es@[j].1@.len() <= MAX_IDLE_PER_KEY by {
                if j != i {
                    assert(es@[j] == old_e[j]);
                }
            }
            assert(old_e[i as int].1@.len() <= MAX_IDLE_PER_KEY);
        }
        *self = ConnectionPool { entries: es, clock };
        old_slot
    }

    /// Take a reusable connection for this key, if one is still fresh at
    /// `now`: connections gone stale are dropped first, and the newest fresh
    /// one is handed out. Only this key's slot changes.
    pub fn take_at(&mut self, key: &PartitionKey, protocol: Protocol, now: u64) -> (r: Option<C>)
        ensures
            ({
                let k = (key@, protocol);
                let i = key_index(old(self)@, k);
                if i < 0 {
                    r is None && final(self)@ == old(self)@
                } else {
                    let f = fresh_of(old(self)@[i].1, now);
                    if f.len() == 0 {
                        r is None && final(self)@ == old(self)@.update(i, (k, f))
                    } else {
                        r == Some(f.last().0) && final(self)@ == old(self)@.update(i, (k, f.drop_last()))
                    }
                }
            }),
            final(self).reading() == old(self).reading(),
    {
        let i = match self.position(key, protocol) {
            Some(i) => i,
            None => {
                return None;
            },
        };
        let slot = self.swap_slot(i, Vec::new());
        let mut fresh = fresh_slot(slot, now);
        let ghost f = idle_views(fresh@);
        let r = match fresh.pop() {
            Some(e) => Some(e.connection),
            None => None,
        };
        proof {
            if f.len() > 0 {
                assert(idle_views(fresh@) =~= f.drop_last());
            } else {
                assert(idle_views(fresh@) =~= f);
            }
        }
        let _ = self.swap_slot(i, fresh);
        r
    }

    /// Take a reusable connection for this key, if one is still fresh now.
    pub fn take(&mut self, key: &PartitionKey, protocol: Protocol) -> (r: Option<C>)
        ensures
            exists|now: u64|
                #![trigger fresh_of(old(self)@[key_index(old(self)@, (key@, protocol))].1, now)]
                old(self).reading() <= now && final(self).reading() == now && {
                    let k = (key@, protocol);
                    let i = key_index(old(self)@, k);
                    if i < 0 {
                        r is None && final(self)@ == old(self)@
                    } else {
                        let f = fresh_of(old(self)@[i].1, now);
                        if f.len() == 0 {
                            r is None && final(self)@ == old(self)@.update(i, (k, f))
                        } else {
                            r == Some(f.last().0) && final(self)@ == old(self)@.update(i, (k, f.drop_last()))
                        }
                    }
                },
    {
        proof {
            use_type_invariant(&*self);
        }
        let (clock, now) = self.clock.advanced();
        self.clock = clock;
        assert(self@ == old(self)@);
        assert(self.reading() == now);
        self.take_at(key, protocol, now)
    }

    /// Drop the key first used longest ago, if there is one.
    fn evict_oldest(&mut self)
        ensures
            old(self)@.len() > 0 ==> final(self)@ == old(self)@.drop_first(),
            old(self)@.len() == 0 ==> final(self)@ == old(self)@,
            final(self).reading() == old(self).reading(),
    {
        proof {
            use_type_invariant(&*self);
        }
        if self.entries.len() == 0 {
            return;
        }
        let ghost old_e = self.entries@;
        let mut taken = ConnectionPool { entries: Vec::new(), clock: self.clock };
        std::mem::swap(&mut taken, self);
        let ConnectionPool { entries: mut es, clock } = taken;
        assert(forall|j: int| 0 <= j < old_e.len() ==> #[trigger] old_e[j].1@.len() <= MAX_IDLE_PER_KEY);
        let _ = es.remove(0);
        proof {
            let s = entry_views(old_e);
            assert(entry_views(es@) =~= s.remove(0));
            assert(s.remove(0) =~= s.drop_first());
            crate::net::assoc::lemma_map_of_remove(s, 0);
            assert forall|j: int| 0 <= j < es@.len() implies #[trigger] es@[j].1@.len() <= MAX_IDLE_PER_KEY by {
                assert(es@[j] == old_e[j + 1]);
                assert(old_e[j + 1].1@.len() <= MAX_IDLE_PER_KEY);
            }
        }
        *self = ConnectionPool { entries: es, clock };
    }

    /// Return a connection to the pool for reuse, at `now`. A connection
    /// whose slot is full is dropped rather than stored.
    pub fn put_at(&mut self, key: PartitionKey, protocol: Protocol, connection: C, now: u64)
        ensures
            final(self)@ == after_put(old(self)@, (key@, protocol), connection, now),
            final(self).reading() == old(self).reading(),
    {
        proof {
            use_type_invariant(&*self);
        }
        let ghost k = (key@, protocol);
        match self.position(&key, protocol) {
            Some(i) => {
                if self.entries[i].1.len() >= MAX_IDLE_PER_KEY {
                    return;
                }
                let mut slot = self.swap_slot(i, Vec::new());
                let ghost sv = idle_views(slot@);
                slot.push(Idle { connection, since: now });
                proof {
                    assert(idle_views(slot@) =~= sv.push((connection, now)));
                }
                let _ = self.swap_slot(i, slot);
                proof {
                    assert(self@ =~= old(self)@.update(i as int, (k, sv.push((connection, now)))));
                }
            },
            None => {
                if self.entries.len() >= MAX_KEYS {
                    self.evict_oldest();
                }
                proof {
                    use_type_invariant(&*self);
                }
                let ghost s = self@;
                let ghost old_e = self.entries@;
                proof {
                    let room = if old(self)@.len() >= MAX_KEYS {
                        old(self)@.drop_first()
                    } else {
                        old(self)@
                    };
                    assert(s == room);
                    assert(s.len() < MAX_KEYS);
                    assert forall|j: int| 0 <= j < s.len() implies s[j].0 != k by {
                        if old(self)@.len() >= MAX_KEYS {
                            assert(s[j] == old(self)@[j + 1]);
                        }
                    }
                    lemma_map_of_dom(s, k);
                }
                let mut taken = ConnectionPool { entries: Vec::new(), clock: self.clock };
                std::mem::swap(&mut taken, self);
                let ConnectionPool { entries: mut es, clock } = taken;
                assert(forall|j: int| 0 <= j < old_e.len() ==> #[trigger] old_e[j].1@.len() <= MAX_IDLE_PER_KEY);
                let mut slot: Vec<Idle<C>> = Vec::new();
                slot.push(Idle { connection, since: now });
                es.push(((key, protocol), slot));
                proof {
                    assert(idle_views(slot@) =~= seq![(connection, now)]);
                    assert(entry_views(es@) =~= s.push((k, seq![(connection, now)])));
                    crate::net::assoc::lemma_map_of_push(s, k, seq![(connection, now)]);
                    assert forall|j: int| 0 <= j < es@.len() implies #[trigger] es@[j].1@.len() <= MAX_IDLE_PER_KEY by {
                        if j < old_e.len() {
                            assert(es@[j] == old_e[j]);
                        }
                    }
                }
                *self = ConnectionPool { entries: es, clock };
            },
        }
    }

    /// Return a connection to the pool for reuse, now.
    pub fn put(&mut self, key: PartitionKey, protocol: Protocol, connection: C)
        ensures
            exists|now: u64|
                #![trigger after_put(old(self)@, (key@, protocol), connection, now)]
                old(self).reading() <= now && final(self).reading() == now && final(self)@ == after_put(
                    old(self)@,
                    (key@, protocol),
                    connection,
                    now,
                ),
    {
        proof {
            use_type_invariant(&*self);
        }
        let (clock, now) = self.clock.advanced();
        self.clock = clock;
        assert(self@ == old(self)@);
        assert(self.reading() == now);
        self.put_at(key, protocol, connection, now)
    }

    /// Drop every connection for partition key `key`, under any protocol.
    /// The other keys keep their connections and their order.
    pub fn forget(&mut self, key: &PartitionKey)
        ensures
            final(self)@ == without_key(old(self)@, key@),
            final(self).reading() == old(self).reading(),
    {
        proof {
            use_type_invariant(&*self);
        }
        let ghost whole = self@;
        let ghost old_e = self.entries@;
        let mut taken = ConnectionPool { entries: Vec::new(), clock: self.clock };
        std::mem::swap(&mut taken, self);
        let ConnectionPool { entries: mut rest, clock } = taken;
        assert(forall|j: int| 0 <= j < old_e.len() ==> #[trigger] old_e[j].1@.len() <= MAX_IDLE_PER_KEY);
        let mut kept: Vec<((PartitionKey, Protocol), Vec<Idle<C>>)> = Vec::new();
        assert(entry_views(kept@) + without_key(entry_views(rest@), key@) =~= without_key(whole, key@));
        while rest.len() > 0
            invariant
                entry_views(kept@) + without_key(entry_views(rest@), key@) == without_key(whole, key@),
            decreases rest@.len(),
        {
            let ghost rv = entry_views(rest@);
            let ghost kv = entry_views(kept@);
            let e = rest.remove(0);
            assert(entry_views(rest@) =~= rv.drop_first());
            if e.0.0.same_as(key) {
                assert(without_key(rv, key@) =~= without_key(rv.drop_first(), key@));
            } else {
                kept.push(e);
                assert(entry_views(kept@) =~= kv + seq![rv[0]]);
                assert(entry_views(kept@) + without_key(entry_views(rest@), key@) =~= kv + (seq![rv[0]]
                    + without_key(rv.drop_first(), key@)));
            }
        }
        assert(without_key(entry_views(rest@), key@) =~= Seq::<((PartitionKeyView, Protocol), Seq<(C, u64)>)>::empty());
        assert(entry_views(kept@) =~= without_key(whole, key@));
        proof {
            lemma_without_key_from(whole, key@);
            assert forall|j: int| 0 <= j < kept@.len() implies #[trigger] kept@[j].1@.len() <= MAX_IDLE_PER_KEY by {
                let w = without_key(whole, key@);
                assert(w[j] == entry_views(kept@)[j]);
                let m = choose|m: int| 0 <= m < whole.len() && w[j] == whole[m];
                assert(whole[m].1.len() == old_e[m].1@.len());
            }
        }
        *self = ConnectionPool { entries: kept, clock };
    }

    /// Drop the connections that have gone stale at `now`; a key left with
    /// none is dropped too.
    pub fn expire_idle_at(&mut self, now: u64)
        ensures
            final(self)@ == expired_idle(old(self)@, now),
            forall|i: int| 0 <= i < final(self)@.len() ==> (#[trigger] final(self)@[i]).1.len() > 0,
            total_len(final(self)@) <= total_len(old(self)@),
            final(self).reading() == old(self).reading(),
    {
        proof {
            lemma_expired_idle_shape(self@, now);
        }
        proof {
            use_type_invariant(&*self);
        }
        let ghost whole = self@;
        let ghost old_e = self.entries@;
        let mut taken = ConnectionPool { entries: Vec::new(), clock: self.clock };
        std::mem::swap(&mut taken, self);
        let ConnectionPool { entries: mut rest, clock } = taken;
        assert(forall|j: int| 0 <= j < old_e.len() ==> #[trigger] old_e[j].1@.len() <= MAX_IDLE_PER_KEY);
        let mut kept: Vec<((PartitionKey, Protocol), Vec<Idle<C>>)> = Vec::new();
        assert(entry_views(kept@) + expired_idle(entry_views(rest@), now) =~= expired_idle(whole, now));
        while rest.len() > 0
            invariant
                entry_views(kept@) + expired_idle(entry_views(rest@), now) == expired_idle(whole, now),
            decreases rest@.len(),
        {
            let ghost rv = entry_views(rest@);
            let ghost kv = entry_views(kept@);
            let (k, slot) = rest.remove(0);
            assert(entry_views(rest@) =~= rv.drop_first());
            assert(idle_views(slot@) == rv[0].1);
            let live = fresh_slot(slot, now);
            if live.len() == 0 {
                assert(expired_idle(rv, now) =~= expired_idle(rv.drop_first(), now));
            } else {
                kept.push((k, live));
                assert(entry_views(kept@) =~= kv + seq![(rv[0].0, fresh_of(rv[0].1, now))]);
                assert(entry_views(kept@) + expired_idle(entry_views(rest@), now) =~= kv + (seq![(rv[0].0, fresh_of(rv[0].1, now))]
                    + expired_idle(rv.drop_first(), now)));
            }
        }
        assert(expired_idle(entry_views(rest@), now) =~= Seq::<((PartitionKeyView, Protocol), Seq<(C, u64)>)>::empty());
        assert(entry_views(kept@) =~= expired_idle(whole, now));
        proof {
            lemma_expired_from(whole, now);
            assert forall|j: int| 0 <= j < kept@.len() implies #[trigger] kept@[j].1@.len() <= MAX_IDLE_PER_KEY by {
                let w = expired_idle(whole, now);
                assert(w[j] == entry_views(kept@)[j]);
                let m = choose|m: int| 0 <= m < whole.len() && w[j] == (whole[m].0, fresh_of(whole[m].1, now));
                assert(whole[m].1.len() == old_e[m].1@.len());
                lemma_fresh_len(whole[m].1, now);
            }
        }
        *self = ConnectionPool { entries: kept, clock };
    }

    /// Drop the connections that have gone stale now.
    pub fn expire_idle(&mut self)
        ensures
            exists|now: u64|
                #![trigger expired_idle(old(self)@, now)]
                old(self).reading() <= now && final(self).reading() == now && final(self)@ == expired_idle(old(self)@, now),
            forall|i: int| 0 <= i < final(self)@.len() ==> (#[trigger] final(self)@[i]).1.len() > 0,
            total_len(final(self)@) <= total_len(old(self)@),
    {
        proof {
            use_type_invariant(&*self);
        }
        let (clock, now) = self.clock.advanced();
        self.clock = clock;
        assert(self@ == old(self)@);
        assert(self.reading() == now);
        self.expire_idle_at(now)
    }

    /// How many connections are pooled in total.
    pub fn len(&self) -> (n: usize)
        ensures
            n == total_len(self@),
    {
        proof {
            use_type_invariant(self);
        }
        let ghost s = self@;
        let mut total: usize = 0;
        let mut i: usize = 0;
        assert(s.take(0) =~= Seq::<((PartitionKeyView, Protocol), Seq<(C, u64)>)>::empty());
        while i < self.entries.len()
            invariant
                i <= self.entries@.len() <= MAX_KEYS,
                s == self@,
                s.len() == self.entries@.len(),
                forall|j: int| 0 <= j < self.entries@.len() ==> #[trigger] self.entries@[j].1@.len() <= MAX_IDLE_PER_KEY,
                total == total_len(s.take(i as int)),
                total <= i * MAX_IDLE_PER_KEY,
            decreases self.entries@.len() - i,
        {
            assert(s.take(i + 1).drop_last() =~= s.take(i as int));
            let here = self.entries[i].1.len();
            assert(s.take(i + 1).last().1.len() == here);
            total = total + here;
            i += 1;
        }
        assert(s.take(self.entries@.len() as int) =~= s);
        total
    }

    /// Whether the pool holds nothing.
    pub fn is_empty(&self) -> (r: bool)
        ensures
            r == (total_len(self@) == 0),
    {
        self.len() == 0
    }

    /// How many distinct keys are tracked.
    pub fn key_count(&self) -> (n: usize)
        ensures
            n == self@.len(),
    {
        self.entries.len()
    }

    /// Where `k` is in the list, if it is there.
    fn position(&self, key: &PartitionKey, protocol: Protocol) -> (r: Option<usize>)
        ensures
            match r {
                Some(i) => i < self@.len() && self@[i as int].0 == (key@, protocol) && key_index(self@, (key@, protocol)) == i,
                None => key_index(self@, (key@, protocol)) == -1,
            },
    {
        proof {
            use_type_invariant(self);
        }
        let mut i: usize = 0;
        while i < self.entries.len()
            invariant
                i <= self@.len(),
                self@.len() == self.entries@.len(),
                distinct_keys(self@),
                forall|j: int| 0 <= j < i ==> #[trigger] self@[j].0 != (key@, protocol),
            decreases self.entries@.len() - i,
        {
            if self.entries[i].0.1 == protocol && self.entries[i].0.0.same_as(key) {
                proof {
                    let s = self@;
                    let k = (key@, protocol);
                    assert(s[i as int].0 == k);
                    let j = choose|j: int| 0 <= j < s.len() && s[j].0 == k;
                    assert(distinct_keys(s));
                    if j != i {
                        if j < i {
                            assert(s[j].0 != s[i as int].0);
                        } else {
                            assert(s[i as int].0 != s[j].0);
                        }
                    }
                }
                return Some(i);
            }
            i += 1;
        }
        None
    }
}

/// A stale connection never survives, so a slot only shrinks.
proof fn lemma_fresh_len<C>(slot: Seq<(C, u64)>, now: u64)
    ensures
        fresh_of(slot, now).len() <= slot.len(),
    decreases slot.len(),
{
    if slot.len() > 0 {
        lemma_fresh_len(slot.drop_first(), now);
    }
}

/// The connections of `slot` still fresh at `now`, oldest first.
fn fresh_slot<C>(slot: Vec<Idle<C>>, now: u64) -> (r: Vec<Idle<C>>)
    ensures
        idle_views(r@) == fresh_of(idle_views(slot@), now),
        r@.len() <= slot@.len(),
{
    let ghost whole = idle_views(slot@);
    let mut rest = slot;
    let mut out: Vec<Idle<C>> = Vec::new();
    proof {
        lemma_fresh_len(whole, now);
    }
    assert(idle_views(out@) + fresh_of(idle_views(rest@), now) =~= fresh_of(whole, now));
    while rest.len() > 0
        invariant
            idle_views(out@) + fresh_of(idle_views(rest@), now) == fresh_of(whole, now),
            out@.len() + rest@.len() <= whole.len(),
            whole.len() == slot@.len(),
        decreases rest@.len(),
    {
        let ghost rv = idle_views(rest@);
        let ghost ov = idle_views(out@);
        let e = rest.remove(0);
        assert(idle_views(rest@) =~= rv.drop_first());
        if e.since >= now || now - e.since < IDLE_TIMEOUT_MS {
            out.push(e);
            assert(idle_views(out@) =~= ov + seq![rv[0]]);
            assert(idle_views(out@) + fresh_of(idle_views(rest@), now) =~= ov + (seq![rv[0]] + fresh_of(
                rv.drop_first(),
                now,
            )));
        } else {
            assert(fresh_of(rv, now) =~= fresh_of(rv.drop_first(), now));
        }
    }
    assert(fresh_of(idle_views(rest@), now) =~= Seq::<(C, u64)>::empty());
    assert(idle_views(out@) =~= fresh_of(whole, now));
    out
}

/// Dropping one partition key keeps a sub-list of the entries: shorter, made
/// of entries of the list it came from, and with distinct keys if those were.
proof fn lemma_without_key_from<C>(s: Seq<((PartitionKeyView, Protocol), Seq<(C, u64)>)>, key: PartitionKeyView)
    ensures
        without_key(s, key).len() <= s.len(),
        forall|j: int| 0 <= j < without_key(s, key).len() ==> exists|m: int| 0 <= m < s.len() && #[trigger] without_key(s, key)[j] == s[m],
        distinct_keys(s) ==> distinct_keys(without_key(s, key)),
    decreases s.len(),
{
    if s.len() > 0 {
        let t = s.drop_first();
        lemma_without_key_from(t, key);
        let w = without_key(s, key);
        let wt = without_key(t, key);
        let hl: int = if s[0].0.0 == key { 0 } else { 1 };
        assert(w.len() == hl + wt.len());
        assert forall|j: int| 0 <= j < w.len() implies exists|m: int| 0 <= m < s.len() && #[trigger] w[j] == s[m] by {
            if j < hl {
                assert(w[j] == s[0]);
            } else {
                assert(w[j] == wt[j - hl]);
                let m = choose|m: int| 0 <= m < t.len() && wt[j - hl] == t[m];
                assert(t[m] == s[m + 1]);
            }
        }
        if distinct_keys(s) {
            assert(distinct_keys(t)) by {
                assert forall|a: int, b: int| 0 <= a < b < t.len() implies #[trigger] t[a].0 != #[trigger] t[b].0 by {
                    assert(s[a + 1].0 != s[b + 1].0);
                }
            }
            assert forall|a: int, b: int| 0 <= a < b < w.len() implies #[trigger] w[a].0 != #[trigger] w[b].0 by {
                if a < hl {
                    assert(w[b] == wt[b - hl]);
                    let m = choose|m: int| 0 <= m < t.len() && wt[b - hl] == t[m];
                    assert(s[0].0 != s[m + 1].0);
                } else {
                    assert(w[a] == wt[a - hl]);
                    assert(w[b] == wt[b - hl]);
                }
            }
        }
    }
}

/// Dropping stale connections keeps a sub-list of the keys, each with the
/// fresh part of its slot, and distinct keys if those were.
proof fn lemma_expired_from<C>(s: Seq<((PartitionKeyView, Protocol), Seq<(C, u64)>)>, now: u64)
    ensures
        expired_idle(s, now).len() <= s.len(),
        forall|j: int| 0 <= j < expired_idle(s, now).len() ==> exists|m: int| 0 <= m < s.len() && #[trigger] expired_idle(s, now)[j] == (s[m].0, fresh_of(s[m].1, now)),
        distinct_keys(s) ==> distinct_keys(expired_idle(s, now)),
    decreases s.len(),
{
    if s.len() > 0 {
        let t = s.drop_first();
        lemma_expired_from(t, now);
        let w = expired_idle(s, now);
        let wt = expired_idle(t, now);
        let hl: int = if fresh_of(s[0].1, now).len() == 0 { 0 } else { 1 };
        assert(w.len() == hl + wt.len());
        assert forall|j: int| 0 <= j < w.len() implies exists|m: int| 0 <= m < s.len() && #[trigger] w[j] == (s[m].0, fresh_of(s[m].1, now)) by {
            if j < hl {
                assert(w[j] == (s[0].0, fresh_of(s[0].1, now)));
            } else {
                assert(w[j] == wt[j - hl]);
                let m = choose|m: int| 0 <= m < t.len() && wt[j - hl] == (t[m].0, fresh_of(t[m].1, now));
                assert(t[m] == s[m + 1]);
            }
        }
        if distinct_keys(s) {
            assert(distinct_keys(t)) by {
                assert forall|a: int, b: int| 0 <= a < b < t.len() implies #[trigger] t[a].0 != #[trigger] t[b].0 by {
                    assert(s[a + 1].0 != s[b + 1].0);
                }
            }
            assert forall|a: int, b: int| 0 <= a < b < w.len() implies #[trigger] w[a].0 != #[trigger] w[b].0 by {
                if a < hl {
                    assert(w[b] == wt[b - hl]);
                    let m = choose|m: int| 0 <= m < t.len() && wt[b - hl] == (t[m].0, fresh_of(t[m].1, now));
                    assert(s[0].0 != s[m + 1].0);
                } else {
                    assert(w[a] == wt[a - hl]);
                    assert(w[b] == wt[b - hl]);
                }
            }
        }
    }
}

} // verus!
