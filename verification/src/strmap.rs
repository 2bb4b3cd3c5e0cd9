//! A map keyed by strings that remembers the order in which keys were first
//! inserted. It stands where a `HashMap<String, V>` would: keys are unique,
//! inserting an existing key replaces its value in place.

use vstd::prelude::*;
use crate::text::str_eq;

verus! {

/// The value stored under `k` in an entry sequence: the last entry with that key.
pub open spec fn lookup<V>(s: Seq<(Seq<char>, V)>, k: Seq<char>) -> Option<V>
    decreases s.len(),
{
    if s.len() == 0 {
        None
    } else if s.last().0 == k {
        Some(s.last().1)
    } else {
        lookup(s.drop_last(), k)
    }
}

/// Whether an entry sequence holds key `k`.
pub open spec fn has_key<V>(s: Seq<(Seq<char>, V)>, k: Seq<char>) -> bool {
    exists|i: int| 0 <= i < s.len() && #[trigger] s[i].0 == k
}

/// No key occurs twice.
pub open spec fn unique_keys<V>(s: Seq<(Seq<char>, V)>) -> bool {
    forall|i: int, j: int| 0 <= i < s.len() && 0 <= j < s.len() && i != j ==> #[trigger] s[i].0 != #[trigger] s[j].0
}

/// The entry sequence after inserting `(k, v)`: an existing entry for `k` gets the
/// new value where it stands, otherwise the pair is appended.
pub open spec fn insert_entries<V>(s: Seq<(Seq<char>, V)>, k: Seq<char>, v: V) -> Seq<(Seq<char>, V)> {
    if has_key(s, k) {
        s.map_values(|e: (Seq<char>, V)| if e.0 == k { (k, v) } else { e })
    } else {
        s.push((k, v))
    }
}

/// With unique keys, the value stored under the key of entry `i` is that entry's value.
pub proof fn lemma_lookup_at<V>(s: Seq<(Seq<char>, V)>, i: int)
    requires
        unique_keys(s),
        0 <= i < s.len(),
    ensures
        lookup(s, s[i].0) == Some(s[i].1),
    decreases s.len(),
{
    if i != s.len() - 1 {
        assert(s[s.len() - 1].0 != s[i].0);
        assert(s.drop_last()[i] == s[i]);
        lemma_lookup_at(s.drop_last(), i);
    }
}

/// A key that no entry holds has no value.
pub proof fn lemma_lookup_absent<V>(s: Seq<(Seq<char>, V)>, k: Seq<char>)
    requires
        !has_key(s, k),
    ensures
        lookup(s, k) is None,
    decreases s.len(),
{
    if s.len() > 0 {
        assert(s[s.len() - 1].0 != k);
        assert forall|i: int| 0 <= i < s.drop_last().len() implies #[trigger] s.drop_last()[i].0 != k by {
            assert(s.drop_last()[i] == s[i]);
        }
        lemma_lookup_absent(s.drop_last(), k);
    }
}

/// Inserting keeps keys unique.
pub proof fn lemma_insert_unique<V>(s: Seq<(Seq<char>, V)>, k: Seq<char>, v: V)
    requires
        unique_keys(s),
    ensures
        unique_keys(insert_entries(s, k, v)),
        has_key(insert_entries(s, k, v), k),
{
    let t = insert_entries(s, k, v);
    if has_key(s, k) {
        let i = choose|i: int| 0 <= i < s.len() && #[trigger] s[i].0 == k;
        assert(t[i].0 == k);
        assert forall|a: int, b: int| 0 <= a < t.len() && 0 <= b < t.len() && a != b implies #[trigger] t[a].0 != #[trigger] t[b].0 by {
            assert(t[a].0 == s[a].0);
            assert(t[b].0 == s[b].0);
        }
    } else {
        assert(t[s.len() as int].0 == k);
        assert forall|a: int, b: int| 0 <= a < t.len() && 0 <= b < t.len() && a != b implies #[trigger] t[a].0 != #[trigger] t[b].0 by {
            if a < s.len() && b < s.len() {
                assert(t[a] == s[a] && t[b] == s[b]);
            } else if a < s.len() {
                assert(t[a] == s[a]);
            } else {
                assert(t[b] == s[b]);
            }
        }
    }
}

/// What a read gives back after a write: the written value under the written
/// key, and the earlier value under every other key.
pub proof fn lemma_lookup_after_insert<V>(s: Seq<(Seq<char>, V)>, k: Seq<char>, v: V, k2: Seq<char>)
    requires
        unique_keys(s),
    ensures
        lookup(insert_entries(s, k, v), k) == Some(v),
        k2 != k ==> lookup(insert_entries(s, k, v), k2) == lookup(s, k2),
{
    let t = insert_entries(s, k, v);
    lemma_insert_unique(s, k, v);
    let i = choose|i: int| 0 <= i < t.len() && #[trigger] t[i].0 == k;
    lemma_lookup_at(t, i);
    if has_key(s, k) {
        assert(t[i] == (k, v));
    } else {
        if i < s.len() {
            assert(t[i] == s[i]);
        }
        assert(t[i] == (k, v));
    }
    if k2 != k {
        if has_key(s, k2) {
            let j = choose|j: int| 0 <= j < s.len() && #[trigger] s[j].0 == k2;
            lemma_lookup_at(s, j);
            if has_key(s, k) {
                assert(t[j] == s[j]);
            } else {
                assert(t[j] == s[j]);
            }
            lemma_lookup_at(t, j);
        } else {
            lemma_lookup_absent(s, k2);
            assert forall|j: int| 0 <= j < t.len() implies #[trigger] t[j].0 != k2 by {
                if has_key(s, k) {
                    assert(t[j].0 == s[j].0 || t[j].0 == k);
                } else if j < s.len() {
                    assert(t[j] == s[j]);
                }
            }
            lemma_lookup_absent(t, k2);
        }
    }
}

/// A string-keyed map whose entries keep their first insertion order.
#[derive(Debug)]
pub struct StrMap<V> {
    entries: Vec<(String, V)>,
}

impl<V> View for StrMap<V> {
    type V = Seq<(Seq<char>, V)>;

    closed spec fn view(&self) -> Seq<(Seq<char>, V)> {
        self.entries@.map_values(|e: (String, V)| (e.0@, e.1))
    }
}

impl<V> StrMap<V> {
    /// No key occurs twice; every map holds this.
    #[verifier::type_invariant]
    pub open spec fn keys_unique(self) -> bool {
        unique_keys(self@)
    }

    /// The value stored under `k`.
    pub open spec fn spec_get(&self, k: Seq<char>) -> Option<V> {
        lookup(self@, k)
    }

    /// Whether `k` is a key.
    pub open spec fn spec_contains(&self, k: Seq<char>) -> bool {
        has_key(self@, k)
    }

    /// An empty map.
    pub fn new() -> (m: Self)
        ensures
            m@ == Seq::<(Seq<char>, V)>::empty(),
    {
        let m = StrMap { entries: Vec::new() };
        assert(m@ =~= Seq::<(Seq<char>, V)>::empty());
        m
    }

    /// The number of keys.
    pub fn len(&self) -> (n: usize)
        ensures
            n == self@.len(),
    {
        self.entries.len()
    }

    /// Whether there are no keys.
    pub fn is_empty(&self) -> (b: bool)
        ensures
            b == (self@.len() == 0),
    {
        self.entries.len() == 0
    }

    /// The key of the `i`-th entry.
    pub fn key_at(&self, i: usize) -> (k: &String)
        requires
            i < self@.len(),
        ensures
            k@ == self@[i as int].0,
    {
        &self.entries[i].0
    }

    /// The value of the `i`-th entry.
    pub fn value_at(&self, i: usize) -> (v: &V)
        requires
            i < self@.len(),
        ensures
            *v == self@[i as int].1,
    {
        &self.entries[i].1
    }

    /// The position of key `k`, if it is present.
    pub fn position(&self, k: &str) -> (r: Option<usize>)
        ensures
            match r {
                Some(i) => i < self@.len() && self@[i as int].0 == k@,
                None => !has_key(self@, k@),
            },
    {
        let mut i: usize = 0;
        while i < self.entries.len()
            invariant
                i <= self@.len(),
                self@.len() == self.entries@.len(),
                forall|j: int| 0 <= j < i ==> #[trigger] self@[j].0 != k@,
            decreases self.entries.len() - i,
        {
            if str_eq(self.entries[i].0.as_str(), k) {
                return Some(i);
            }
            i = i + 1;
        }
        None
    }

    /// The value stored under `k`, if any (`HashMap::get`).
    pub fn get(&self, k: &str) -> (r: Option<&V>)
        ensures
            match r {
                Some(v) => self.spec_get(k@) == Some(*v),
                None => self.spec_get(k@) is None,
            },
    {
        proof {
            use_type_invariant(self);
        }
        match self.position(k) {
            Some(i) => {
                proof {
                    lemma_lookup_at(self@, i as int);
                }
                Some(&self.entries[i].1)
            },
            None => {
                proof {
                    lemma_lookup_absent(self@, k@);
                }
                None
            },
        }
    }

    /// Whether `k` is a key (`HashMap::contains_key`).
    pub fn contains_key(&self, k: &str) -> (b: bool)
        ensures
            b == self.spec_contains(k@),
    {
        self.position(k).is_some()
    }

    /// Stores `v` under `k`, replacing the value of an existing key where it stands.
    pub fn insert(&mut self, k: String, v: V)
        ensures
            final(self)@ == insert_entries(old(self)@, k@, v),
    {
        proof {
            use_type_invariant(&*self);
        }
        let ghost old_view = self@;
        let pos = self.position(k.as_str());
        let mut entries: Vec<(String, V)> = Vec::new();
        std::mem::swap(&mut entries, &mut self.entries);
        assert(entries@.map_values(|e: (String, V)| (e.0@, e.1)) == old_view);
        match pos {
            Some(i) => {
                entries.set(i, (k, v));
                proof {
                    let t = entries@.map_values(|e: (String, V)| (e.0@, e.1));
                    assert(t =~= insert_entries(old_view, k@, v)) by {
                        assert(has_key(old_view, k@));
                        assert forall|j: int| 0 <= j < t.len() implies #[trigger] t[j] == insert_entries(old_view, k@, v)[j] by {
                            if j != i {
                                assert(old_view[j].0 != k@);
                            }
                        }
                    }
                    lemma_insert_unique(old_view, k@, v);
                }
            },
            None => {
                entries.push((k, v));
                proof {
                    let t = entries@.map_values(|e: (String, V)| (e.0@, e.1));
                    assert(t =~= insert_entries(old_view, k@, v));
                    lemma_insert_unique(old_view, k@, v);
                }
            },
        }
        self.entries = entries;
    }
}

} // verus!
