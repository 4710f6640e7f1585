//! Names shared by every module: the faults, and the string-keyed dictionary
//! that variable mappings, tables and records are made of.

use vstd::prelude::*;

pub use crate::data::{extract, strong, Totem};
pub use crate::event::Time;
pub use crate::instance::Flop;

verus! {

/// Why a call was abandoned.
#[derive(Clone, Copy, PartialEq, Eq, Structural, Debug)]
pub enum Fault {
    /// A table names an algorithm, interface or role that is not declared.
    LoadError,
    /// A state was set twice without a cancel between, an activation ended
    /// without a resting state, or a loop body left by another way than its
    /// marker.
    ProtocolViolation,
    /// A value was used as a variant that it is not.
    TypeMismatch,
    /// A variable, a set member or a table entry is missing.
    KeyError,
    /// The instance's limit on steps or on nesting was used up.
    LimitReached,
}

/// The entries of a dictionary as a sequence of `(key, value)` pairs, keys by
/// their characters.
pub type Entries<V> = Seq<(Seq<char>, V)>;

/// Index of the first entry of `s` whose key is `key`.
pub open spec fn dict_find<V>(s: Entries<V>, key: Seq<char>) -> Option<int>
    decreases s.len(),
{
    if s.len() == 0 {
        None
    } else if s.last().0 == key && dict_find(s.drop_last(), key) is None {
        Some(s.len() - 1)
    } else {
        dict_find(s.drop_last(), key)
    }
}

/// The value stored under `key`, if any.
pub open spec fn dict_get<V>(s: Entries<V>, key: Seq<char>) -> Option<V> {
    match dict_find(s, key) {
        Some(i) => Some(s[i].1),
        None => None,
    }
}

/// `s` with `key` bound to `val`: in place where the key is present, at the
/// end where it is not.
pub open spec fn dict_insert<V>(s: Entries<V>, key: Seq<char>, val: V) -> Entries<V> {
    match dict_find(s, key) {
        Some(i) => s.update(i, (key, val)),
        None => s.push((key, val)),
    }
}

/// `s` without its first entry for `key`.
pub open spec fn dict_remove<V>(s: Entries<V>, key: Seq<char>) -> Entries<V> {
    match dict_find(s, key) {
        Some(i) => s.remove(i),
        None => s,
    }
}

/// No key occurs twice.
pub open spec fn dict_distinct<V>(s: Entries<V>) -> bool {
    forall|i: int, j: int|
        #![trigger s[i], s[j]]
        0 <= i < j < s.len() ==> s[i].0 != s[j].0
}

/// Inserting and removing keep the keys distinct.
pub proof fn lemma_dict_distinct<V>(s: Entries<V>, key: Seq<char>, val: V)
    requires
        dict_distinct(s),
    ensures
        dict_distinct(dict_insert(s, key, val)),
        dict_distinct(dict_remove(s, key)),
{
    lemma_dict_find(s, key);
    let a = dict_insert(s, key, val);
    assert forall|i: int, j: int| #![trigger a[i], a[j]] 0 <= i < j < a.len() implies a[i].0
        != a[j].0 by {
        match dict_find(s, key) {
            Some(k) => {
                assert(a[i].0 == s[i].0 && a[j].0 == s[j].0);
            },
            None => {
                if j < s.len() {
                    assert(a[i] == s[i] && a[j] == s[j]);
                } else {
                    assert(a[i] == s[i]);
                }
            },
        }
    }
    let b = dict_remove(s, key);
    assert forall|i: int, j: int| #![trigger b[i], b[j]] 0 <= i < j < b.len() implies b[i].0
        != b[j].0 by {
        match dict_find(s, key) {
            Some(k) => {
                let oi = if i < k {
                    i
                } else {
                    i + 1
                };
                let oj = if j < k {
                    j
                } else {
                    j + 1
                };
                assert(b[i] == s[oi] && b[j] == s[oj]);
            },
            None => {},
        }
    }
}

/// `dict_find` returns the least matching index, and `None` exactly when no
/// entry matches.
pub proof fn lemma_dict_find<V>(s: Entries<V>, key: Seq<char>)
    ensures
        match dict_find(s, key) {
            Some(i) => 0 <= i < s.len() && s[i].0 == key && forall|j: int|
                0 <= j < i ==> (#[trigger] s[j]).0 != key,
            None => forall|j: int| 0 <= j < s.len() ==> (#[trigger] s[j]).0 != key,
        },
    decreases s.len(),
{
    if s.len() > 0 {
        let t = s.drop_last();
        lemma_dict_find(t, key);
        assert(forall|j: int| 0 <= j < t.len() ==> t[j] == s[j]);
    }
}

/// The entries of `d` with `f` applied to each value.
pub open spec fn entries_map<A, B>(d: Entries<A>, f: spec_fn(A) -> B) -> Entries<B> {
    Seq::new(d.len(), |i: int| (d[i].0, f(d[i].1)))
}

/// Finding, getting, inserting and removing go through a mapping of the
/// values unchanged.
pub proof fn lemma_entries_map<A, B>(d: Entries<A>, f: spec_fn(A) -> B, key: Seq<char>)
    ensures
        dict_find(entries_map(d, f), key) == dict_find(d, key),
        dict_get(entries_map(d, f), key) == match dict_get(d, key) {
            Some(v) => Some(f(v)),
            None => None,
        },
        entries_map(dict_remove(d, key), f) == dict_remove(entries_map(d, f), key),
        forall|val: A| #[trigger]
            entries_map(dict_insert(d, key, val), f) == dict_insert(
                entries_map(d, f),
                key,
                f(val),
            ),
    decreases d.len(),
{
    if d.len() > 0 {
        lemma_entries_map(d.drop_last(), f, key);
        assert(entries_map(d, f).drop_last() =~= entries_map(d.drop_last(), f));
    }
    lemma_dict_find(d, key);
    assert(entries_map(dict_remove(d, key), f) =~= dict_remove(entries_map(d, f), key));
    assert forall|val: A| #[trigger]
        entries_map(dict_insert(d, key, val), f) == dict_insert(
            entries_map(d, f),
            key,
            f(val),
        ) by {
        assert(entries_map(dict_insert(d, key, val), f) =~= dict_insert(
            entries_map(d, f),
            key,
            f(val),
        ));
    }
}

/// A string-keyed dictionary that keeps its entries in the order in which the
/// keys first came in.
#[derive(Debug)]
pub struct Dict<T> {
    pub entries: Vec<(String, T)>,
}

impl<T> View for Dict<T> {
    type V = Entries<T>;

    open spec fn view(&self) -> Entries<T> {
        Seq::new(self.entries@.len(), |i: int| (self.entries@[i].0@, self.entries@[i].1))
    }
}

impl<T> Dict<T> {
    /// Whether the dictionary is valid: no key occurs twice. A new
    /// dictionary is valid, and every operation keeps one so.
    pub open spec fn wf(&self) -> bool {
        dict_distinct(self@)
    }

    pub fn new() -> (r: Self)
        ensures
            r@ == Seq::<(Seq<char>, T)>::empty(),
            r.entries@.len() == 0,
            r.wf(),
    {
        let r = Dict { entries: Vec::new() };
        assert(r@ =~= Seq::<(Seq<char>, T)>::empty());
        r
    }

    pub fn len(&self) -> (n: usize)
        ensures
            n == self@.len(),
    {
        self.entries.len()
    }

    /// Position of `key` among the entries.
    pub fn position(&self, key: &String) -> (r: Option<usize>)
        ensures
            match r {
                Some(i) => dict_find(self@, key@) == Some(i as int) && i < self@.len(),
                None => dict_find(self@, key@) is None,
            },
    {
        let n = self.entries.len();
        let mut i: usize = 0;
        while i < n
            invariant
                n == self.entries@.len(),
                i <= n,
                forall|j: int| 0 <= j < i ==> (#[trigger] self@[j]).0 != key@,
            decreases n - i,
        {
            if self.entries[i].0 == *key {
                proof {
                    lemma_dict_find(self@, key@);
                    assert(self@[i as int].0 == key@);
                }
                return Some(i);
            }
            i += 1;
        }
        proof {
            lemma_dict_find(self@, key@);
        }
        None
    }

    pub fn contains_key(&self, key: &String) -> (r: bool)
        ensures
            r == dict_find(self@, key@).is_some(),
    {
        self.position(key).is_some()
    }

    pub fn get(&self, key: &String) -> (r: Option<&T>)
        ensures
            match r {
                Some(v) => dict_get(self@, key@) == Some(*v),
                None => dict_get(self@, key@) is None,
            },
    {
        match self.position(key) {
            Some(i) => Some(&self.entries[i].1),
            None => None,
        }
    }

    /// Key and value at position `i`.
    pub fn entry(&self, i: usize) -> (r: (&String, &T))
        requires
            i < self@.len(),
        ensures
            r.0@ == self@[i as int].0,
            *r.1 == self@[i as int].1,
    {
        (&self.entries[i].0, &self.entries[i].1)
    }

    /// Binds `key` to `val` and returns the value it had before.
    pub fn insert(&mut self, key: String, val: T) -> (r: Option<T>)
        ensures
            final(self)@ == dict_insert(old(self)@, key@, val),
            r == dict_get(old(self)@, key@),
            old(self).wf() ==> final(self).wf(),
    {
        proof {
            if self.wf() {
                lemma_dict_distinct(self@, key@, val);
            }
        }
        match self.position(&key) {
            Some(i) => {
                let mut slot = (key, val);
                let ghost before = self@;
                let old_pair = self.entries.remove(i);
                self.entries.insert(i, slot);
                assert(self@ =~= before.update(i as int, (key@, val)));
                Some(old_pair.1)
            },
            None => {
                let ghost before = self@;
                self.entries.push((key, val));
                assert(self@ =~= before.push((key@, val)));
                None
            },
        }
    }

    /// Takes the entry for `key` out and returns its value.
    pub fn remove(&mut self, key: &String) -> (r: Option<T>)
        ensures
            final(self)@ == dict_remove(old(self)@, key@),
            r == dict_get(old(self)@, key@),
            old(self).wf() ==> final(self).wf(),
    {
        proof {
            if self.wf() && self@.len() > 0 {
                lemma_dict_distinct(self@, key@, self@[0].1);
            }
        }
        match self.position(key) {
            Some(i) => {
                let ghost before = self@;
                let pair = self.entries.remove(i);
                assert(self@ =~= before.remove(i as int));
                Some(pair.1)
            },
            None => None,
        }
    }
}

/// What a dictionary holds under a key after an insertion: the value put
/// in under its own key, and what it held before under every other.
pub proof fn lemma_insert_get<V>(d: Entries<V>, key: Seq<char>, val: V, other: Seq<char>)
    ensures
        dict_get(dict_insert(d, key, val), other) == if other == key {
            Some(val)
        } else {
            dict_get(d, other)
        },
{
    let r = dict_insert(d, key, val);
    lemma_dict_find(d, key);
    lemma_dict_find(d, other);
    lemma_dict_find(r, other);
    match dict_find(d, key) {
        Some(i) => {
            assert(r.len() == d.len());
            assert forall|j: int| 0 <= j < d.len() implies (#[trigger] r[j]).0 == d[j].0 && (j
                != i ==> r[j] == d[j]) by {}
            lemma_same_keys_find(d, r, other);
        },
        None => {
            assert(r.len() == d.len() + 1);
            assert forall|j: int| 0 <= j < d.len() implies #[trigger] r[j] == d[j] by {}
            match dict_find(d, other) {
                Some(j) => {
                    assert(r[j].0 == other);
                    match dict_find(r, other) {
                        Some(j2) => {
                            if j2 < j {
                                assert(d[j2].0 == r[j2].0);
                            }
                        },
                        None => {},
                    }
                },
                None => {
                    match dict_find(r, other) {
                        Some(j2) => {
                            if j2 < d.len() {
                                assert(d[j2].0 == r[j2].0);
                            }
                        },
                        None => {
                            assert(r[d.len() as int].0 == key);
                        },
                    }
                },
            }
        },
    }
}

/// Dictionaries with the same keys at the same places find a key at the
/// same place.
pub proof fn lemma_same_keys_find<V>(a: Entries<V>, b: Entries<V>, key: Seq<char>)
    requires
        a.len() == b.len(),
        forall|j: int| 0 <= j < a.len() ==> (#[trigger] b[j]).0 == a[j].0,
    ensures
        dict_find(a, key) == dict_find(b, key),
    decreases a.len(),
{
    if a.len() > 0 {
        assert(b.last().0 == a.last().0);
        assert forall|j: int| 0 <= j < a.drop_last().len() implies (
        #[trigger] b.drop_last()[j]).0 == a.drop_last()[j].0 by {
            assert(b[j].0 == a[j].0);
        }
        lemma_same_keys_find(a.drop_last(), b.drop_last(), key);
    }
}

} // verus!
