//! A table keyed by character sequences, viewed as a `Map`.
//!
//! Linear search over a `Vec`, with the map it stands for kept as a ghost: the
//! keys are distinct and the table holds exactly the map's entries.
use vstd::prelude::*;
use crate::text_ops::{vec_eq, window_eq};

verus! {

/// A map from character sequences to `V`.
pub struct CharTable<V: Copy> {
    entries: Vec<(Vec<char>, V)>,
    model: Ghost<Map<Seq<char>, V>>,
}

impl<V: Copy> View for CharTable<V> {
    type V = Map<Seq<char>, V>;

    closed spec fn view(&self) -> Map<Seq<char>, V> {
        self.model@
    }
}

impl<V: Copy> CharTable<V> {
    #[verifier::type_invariant]
    closed spec fn inv(self) -> bool {
        &&& self.model@.dom().finite()
        &&& self.model@.dom().len() == self.entries@.len()
        &&& forall|i: int, j: int|
            0 <= i < j < self.entries@.len() ==> #[trigger] self.entries@[i].0@ != #[trigger] self.entries@[j].0@
        &&& forall|i: int|
            0 <= i < self.entries@.len() ==> #[trigger] self.model@.contains_key(self.entries@[i].0@)
                && self.model@[self.entries@[i].0@] == self.entries@[i].1
        &&& forall|k: Seq<char>|
            #[trigger] self.model@.contains_key(k) ==> exists|i: int|
                0 <= i < self.entries@.len() && self.entries@[i].0@ == k
    }

    /// An empty table.
    pub fn new() -> (r: Self)
        ensures
            r@ == Map::<Seq<char>, V>::empty(),
    {
        CharTable { entries: Vec::new(), model: Ghost(Map::empty()) }
    }

    /// The value stored for `key[lo..hi]`, if there is one.
    #[verifier::loop_isolation(false)]
    pub fn get(&self, key: &Vec<char>, lo: usize, hi: usize) -> (r: Option<V>)
        requires
            lo <= hi <= key.len(),
        ensures
            r == (if self@.contains_key(key@.subrange(lo as int, hi as int)) {
                Some(self@[key@.subrange(lo as int, hi as int)])
            } else {
                None
            }),
    {
        proof {
            use_type_invariant(self);
        }
        let mut i: usize = 0;
        while i < self.entries.len()
            invariant
                i <= self.entries@.len(),
                lo <= hi <= key.len(),
                forall|j: int| 0 <= j < i ==> self.entries@[j].0@ != key@.subrange(lo as int, hi as int),
            decreases self.entries@.len() - i,
        {
            let entry = &self.entries[i];
            if window_eq(&entry.0, 0, entry.0.len(), key, lo, hi) {
                assert(entry.0@.subrange(0, entry.0@.len() as int) == entry.0@);
                assert(self.model@.contains_key(self.entries@[i as int].0@));
                return Some(entry.1);
            }
            assert(entry.0@.subrange(0, entry.0@.len() as int) == entry.0@);
            i += 1;
        }
        proof {
            let k = key@.subrange(lo as int, hi as int);
            if self.model@.contains_key(k) {
                let j = choose|j: int| 0 <= j < self.entries@.len() && self.entries@[j].0@ == k;
                assert(self.entries@[j].0@ != k);
            }
        }
        None
    }

    /// Store `kind` for `key`, replacing what was stored for it.
    #[verifier::loop_isolation(false)]
    pub fn set(&mut self, key: Vec<char>, kind: V)
        ensures
            final(self)@ == old(self)@.insert(key@, kind),
    {
        proof {
            use_type_invariant(&*self);
        }
        let mut i: usize = 0;
        while i < self.entries.len()
            invariant
                *self == *old(self),
                i <= self.entries@.len(),
                forall|j: int| 0 <= j < i ==> self.entries@[j].0@ != key@,
            decreases self.entries@.len() - i,
        {
            if vec_eq(&self.entries[i].0, &key) {
                let ghost old_model = self.model@;
                let ghost old_rules = self.entries@;
                proof {
                    use_type_invariant(&*self);
                    assert(self.model@.contains_key(self.entries@[i as int].0@));
                }
                let mut taken = CharTable::new();
                std::mem::swap(&mut taken, self);
                let CharTable { entries: mut rules, model: _ } = taken;
                rules.set(i, (key, kind));
                let ghost new_model = old_model.insert(key@, kind);
                proof {
                    assert(old_model.contains_key(key@));
                    assert(new_model.dom() =~= old_model.dom());
                    assert forall|j: int| 0 <= j < rules@.len() implies #[trigger] rules@[j].0@ == old_rules[j].0@ by {
                        if j == i {
                            assert(rules@[j].0@ == key@);
                        }
                    }
                    assert forall|j: int| 0 <= j < rules@.len() implies #[trigger] new_model.contains_key(rules@[j].0@)
                        && new_model[rules@[j].0@] == rules@[j].1 by {
                        if j != i {
                            assert(old_model.contains_key(old_rules[j].0@));
                            assert(old_rules[j].0@ != old_rules[i as int].0@);
                        }
                    }
                    assert forall|k: Seq<char>| #[trigger] new_model.contains_key(k) implies exists|j: int|
                        0 <= j < rules@.len() && rules@[j].0@ == k by {
                        assert(old_model.contains_key(k));
                        let j = choose|j: int| 0 <= j < old_rules.len() && old_rules[j].0@ == k;
                        assert(rules@[j].0@ == k);
                    }
                }
                *self = CharTable { entries: rules, model: Ghost(new_model) };
                return;
            }
            i += 1;
        }
        let ghost old_model = self.model@;
        let ghost old_rules = self.entries@;
        let ghost key_view = key@;
        proof {
            use_type_invariant(&*self);
            if old_model.contains_key(key_view) {
                let j = choose|j: int| 0 <= j < old_rules.len() && old_rules[j].0@ == key_view;
                assert(old_rules[j].0@ != key_view);
            }
        }
        let mut taken = CharTable::new();
        std::mem::swap(&mut taken, self);
        let CharTable { entries: mut rules, model: _ } = taken;
        rules.push((key, kind));
        let ghost new_model = old_model.insert(key_view, kind);
        proof {
            assert(new_model.dom() =~= old_model.dom().insert(key_view));
            assert forall|k: Seq<char>| #[trigger] new_model.contains_key(k) implies exists|i: int|
                0 <= i < rules@.len() && rules@[i].0@ == k by {
                if k == key_view {
                    assert(rules@[rules@.len() - 1].0@ == k);
                } else {
                    assert(old_model.contains_key(k));
                    let i = choose|i: int| 0 <= i < old_rules.len() && old_rules[i].0@ == k;
                    assert(rules@[i] == old_rules[i]);
                }
            }
        }
        *self = CharTable { entries: rules, model: Ghost(new_model) };
    }

    /// How many keys are stored.
    pub fn len(&self) -> (n: usize)
        ensures
            n == self@.dom().len(),
    {
        proof {
            use_type_invariant(self);
        }
        self.entries.len()
    }
}

} // verus!
