//! A map from strings to values that keeps its entries in key order, the way
//! a `BTreeMap<String, V>` iterates them.
use vstd::prelude::*;
use crate::order::{chars_lt, lemma_str_lt_irreflexive, lemma_str_lt_total, lemma_str_lt_transitive, str_lt};
use crate::text::{chars_equal, chars_of};

verus! {

/// The keys of `s` come in strictly increasing order (so no key occurs twice).
pub open spec fn keys_strictly_sorted<V>(s: Seq<(Seq<char>, V)>) -> bool {
    forall|i: int, j: int| 0 <= i < j < s.len() ==> str_lt(#[trigger] s[i].0, #[trigger] s[j].0)
}

/// `s` has an entry with key `k`.
pub open spec fn has_key<V>(s: Seq<(Seq<char>, V)>, k: Seq<char>) -> bool {
    exists|i: int| 0 <= i < s.len() && #[trigger] s[i].0 == k
}

/// A position of `s` that holds the key `k`, where one does.
pub open spec fn key_index<V>(s: Seq<(Seq<char>, V)>, k: Seq<char>) -> int {
    choose|i: int| 0 <= i < s.len() && #[trigger] s[i].0 == k
}

/// The value stored under `k` in `s`, if any.
pub open spec fn lookup<V>(s: Seq<(Seq<char>, V)>, k: Seq<char>) -> Option<V> {
    if has_key(s, k) {
        Some(s[key_index(s, k)].1)
    } else {
        None
    }
}

/// In a map with sorted keys, the entry at `i` is what `lookup` finds for its key.
pub proof fn lemma_lookup_at<V>(s: Seq<(Seq<char>, V)>, i: int)
    requires
        keys_strictly_sorted(s),
        0 <= i < s.len(),
    ensures
        lookup(s, s[i].0) == Some(s[i].1),
{
    let k = s[i].0;
    assert(has_key(s, k));
    let j = key_index(s, k);
    if j < i {
        assert(str_lt(s[j].0, s[i].0));
        lemma_str_lt_irreflexive(k);
    } else if i < j {
        assert(str_lt(s[i].0, s[j].0));
        lemma_str_lt_irreflexive(k);
    }
    assert(j == i);
}

spec fn entries_view<V>(v: Seq<(String, V)>) -> Seq<(Seq<char>, V)> {
    v.map_values(|e: (String, V)| (e.0@, e.1))
}

/// Appending an entry whose key comes after every key: the new key finds the
/// new value, every other key what it found before.
pub proof fn lemma_lookup_push<V>(s: Seq<(Seq<char>, V)>, e: (Seq<char>, V), q: Seq<char>)
    requires
        keys_strictly_sorted(s.push(e)),
    ensures
        lookup(s.push(e), q) == if q == e.0 { Some(e.1) } else { lookup(s, q) },
{
    let t = s.push(e);
    assert(keys_strictly_sorted(s)) by {
        assert forall|i: int, j: int| 0 <= i < j < s.len() implies str_lt(#[trigger] s[i].0, #[trigger] s[j].0) by {
            assert(t[i] == s[i] && t[j] == s[j]);
        }
    }
    if q == e.0 {
        lemma_lookup_at(t, s.len() as int);
    } else {
        if has_key(s, q) {
            let j = key_index(s, q);
            lemma_lookup_at(s, j);
            assert(t[j] == s[j]);
            lemma_lookup_at(t, j);
        }
        if has_key(t, q) {
            let j = key_index(t, q);
            if j < s.len() {
                assert(t[j] == s[j]);
            }
        }
    }
}

/// A prefix of a sorted entry list is sorted.
pub proof fn lemma_sorted_take<V>(s: Seq<(Seq<char>, V)>, n: int)
    requires
        keys_strictly_sorted(s),
        0 <= n <= s.len(),
    ensures
        keys_strictly_sorted(s.take(n)),
{
    assert forall|i: int, j: int| 0 <= i < j < s.take(n).len() implies str_lt(#[trigger] s.take(n)[i].0, #[trigger] s.take(n)[j].0) by {
        assert(s.take(n)[i] == s[i] && s.take(n)[j] == s[j]);
    }
}

/// A map from strings to values, kept sorted by key.
pub struct StrMap<V> {
    entries: Vec<(String, V)>,
}

impl<V> View for StrMap<V> {
    type V = Seq<(Seq<char>, V)>;

    closed spec fn view(&self) -> Seq<(Seq<char>, V)> {
        entries_view(self.entries@)
    }
}

impl<V> StrMap<V> {
    #[verifier::type_invariant]
    spec fn sorted(self) -> bool {
        keys_strictly_sorted(self@)
    }

    /// An empty map.
    pub fn new() -> (m: Self)
        ensures
            m@ == Seq::<(Seq<char>, V)>::empty(),
    {
        let m = StrMap { entries: Vec::new() };
        assert(m@ =~= Seq::<(Seq<char>, V)>::empty());
        m
    }

    /// The number of entries; the entries are in strictly increasing key order.
    pub fn len(&self) -> (n: usize)
        ensures
            n == self@.len(),
            keys_strictly_sorted(self@),
    {
        proof {
            use_type_invariant(self);
        }
        self.entries.len()
    }

    /// Whether the map has no entry.
    pub fn is_empty(&self) -> (b: bool)
        ensures
            b == (self@.len() == 0),
            keys_strictly_sorted(self@),
    {
        self.len() == 0
    }

    /// The `i`-th entry in key order.
    pub fn entry(&self, i: usize) -> (r: (&String, &V))
        requires
            i < self@.len(),
        ensures
            (r.0@, *r.1) == self@[i as int],
            keys_strictly_sorted(self@),
    {
        proof {
            use_type_invariant(self);
        }
        let e = &self.entries[i];
        (&e.0, &e.1)
    }

    /// The position of `key`, or of the first key after it, and whether `key` is there.
    fn position(&self, key: &Vec<char>) -> (r: (usize, bool))
        ensures
            r.0 <= self@.len(),
            forall|j: int| 0 <= j < r.0 ==> str_lt(#[trigger] self@[j].0, key@),
            r.1 ==> r.0 < self@.len() && self@[r.0 as int].0 == key@,
            !r.1 ==> forall|j: int| r.0 <= j < self@.len() ==> str_lt(key@, #[trigger] self@[j].0),
    {
        proof {
            use_type_invariant(self);
        }
        let n = self.entries.len();
        let mut i: usize = 0;
        while i < n
            invariant
                n == self@.len(),
                i <= n,
                keys_strictly_sorted(self@),
                forall|j: int| 0 <= j < i ==> str_lt(#[trigger] self@[j].0, key@),
            decreases n - i,
        {
            let k = chars_of(self.entries[i].0.as_str());
            assert(k@ == self@[i as int].0);
            if chars_equal(&k, key) {
                return (i, true);
            }
            if !chars_lt(&k, key) {
                proof {
                    lemma_str_lt_total(k@, key@);
                    assert forall|j: int| i <= j < n implies str_lt(key@, #[trigger] self@[j].0) by {
                        if i < j {
                            lemma_str_lt_transitive(key@, self@[i as int].0, self@[j].0);
                        }
                    }
                }
                return (i, false);
            }
            i += 1;
        }
        (n, false)
    }

    /// The value stored under `key`, if any.
    pub fn get(&self, key: &str) -> (r: Option<&V>)
        ensures
            match r {
                Some(v) => lookup(self@, key@) == Some(*v),
                None => lookup(self@, key@) is None,
            },
            keys_strictly_sorted(self@),
    {
        proof {
            use_type_invariant(self);
        }
        let kc = chars_of(key);
        let (i, found) = self.position(&kc);
        if found {
            proof {
                lemma_lookup_at(self@, i as int);
            }
            Some(&self.entries[i].1)
        } else {
            proof {
                assert forall|j: int| 0 <= j < self@.len() implies #[trigger] self@[j].0 != key@ by {
                    if j < i {
                        lemma_str_lt_irreflexive(key@);
                    } else {
                        lemma_str_lt_irreflexive(key@);
                    }
                }
            }
            None
        }
    }

    /// Whether some entry has the key `key`.
    pub fn contains_key(&self, key: &str) -> (b: bool)
        ensures
            b == has_key(self@, key@),
            keys_strictly_sorted(self@),
    {
        match self.get(key) {
            Some(_) => true,
            None => false,
        }
    }

    /// Stores `value` under `key`, replacing the value stored there before.
    pub fn insert(&mut self, key: String, value: V)
        ensures
            keys_strictly_sorted(final(self)@),
            lookup(final(self)@, key@) == Some(value),
            forall|k: Seq<char>| k != key@ ==> lookup(final(self)@, k) == lookup(old(self)@, k),
            final(self)@.len() == old(self)@.len() + (if has_key(old(self)@, key@) { 0int } else { 1int }),
    {
        proof {
            use_type_invariant(&*self);
        }
        let ghost old_v = self@;
        let kc = chars_of(key.as_str());
        let (i, found) = self.position(&kc);
        let ghost k = key@;
        let mut entries: Vec<(String, V)> = Vec::new();
        std::mem::swap(&mut entries, &mut self.entries);
        assert(entries_view(entries@) == old_v);
        if found {
            let _ = entries.remove(i);
            entries.insert(i, (key, value));
            proof {
                let s2 = entries_view(entries@);
                assert(s2 =~= old_v.update(i as int, (k, value)));
                assert forall|a: int, b: int| 0 <= a < b < s2.len() implies str_lt(#[trigger] s2[a].0, #[trigger] s2[b].0) by {
                    assert(s2[a].0 == old_v[a].0);
                    assert(s2[b].0 == old_v[b].0);
                }
            }
            self.entries = entries;
            proof {
                assert(self@ =~= old_v.update(i as int, (k, value)));
                lemma_lookup_at(self@, i as int);
                assert forall|q: Seq<char>| q != k implies lookup(self@, q) == lookup(old_v, q) by {
                    if has_key(old_v, q) {
                        let j = choose|j: int| 0 <= j < old_v.len() && #[trigger] old_v[j].0 == q;
                        lemma_lookup_at(old_v, j);
                        lemma_lookup_at(self@, j);
                    }
                    if has_key(self@, q) {
                        let j = choose|j: int| 0 <= j < self@.len() && #[trigger] self@[j].0 == q;
                        assert(old_v[j].0 == q);
                    }
                }
            }
        } else {
            proof {
                assert forall|j: int| 0 <= j < old_v.len() implies #[trigger] old_v[j].0 != k by {
                    lemma_str_lt_irreflexive(k);
                }
                assert forall|a: int, b: int| 0 <= a < b < old_v.len() + 1 implies str_lt(
                    #[trigger] old_v.insert(i as int, (k, value))[a].0,
                    #[trigger] old_v.insert(i as int, (k, value))[b].0,
                ) by {
                    let s = old_v.insert(i as int, (k, value));
                    if b < i {
                    } else if a < i && b == i {
                    } else if a < i && b > i {
                        assert(s[b] == old_v[b - 1]);
                        lemma_str_lt_transitive(old_v[a].0, k, old_v[b - 1].0);
                    } else if a == i {
                        assert(s[b] == old_v[b - 1]);
                    } else {
                        assert(s[a] == old_v[a - 1]);
                        assert(s[b] == old_v[b - 1]);
                    }
                }
            }
            entries.insert(i, (key, value));
            proof {
                assert(entries_view(entries@) =~= old_v.insert(i as int, (k, value)));
            }
            self.entries = entries;
            proof {
                assert(self@ =~= old_v.insert(i as int, (k, value)));
                lemma_lookup_at(self@, i as int);
                assert forall|q: Seq<char>| q != k implies lookup(self@, q) == lookup(old_v, q) by {
                    if has_key(old_v, q) {
                        let j = choose|j: int| 0 <= j < old_v.len() && #[trigger] old_v[j].0 == q;
                        lemma_lookup_at(old_v, j);
                        if j < i {
                            assert(self@[j] == old_v[j]);
                            lemma_lookup_at(self@, j);
                        } else {
                            assert(self@[j + 1] == old_v[j]);
                            lemma_lookup_at(self@, j + 1);
                        }
                    }
                    if has_key(self@, q) {
                        let j = choose|j: int| 0 <= j < self@.len() && #[trigger] self@[j].0 == q;
                        if j < i {
                            assert(old_v[j].0 == q);
                        } else if j > i {
                            assert(old_v[j - 1].0 == q);
                        }
                    }
                }
            }
        }
    }

    /// The keys, in increasing order.
    pub fn keys(&self) -> (r: Vec<String>)
        ensures
            r@.len() == self@.len(),
            forall|i: int| 0 <= i < r@.len() ==> #[trigger] r@[i]@ == self@[i].0,
            keys_strictly_sorted(self@),
    {
        proof {
            use_type_invariant(self);
        }
        let mut out: Vec<String> = Vec::new();
        let mut i: usize = 0;
        while i < self.entries.len()
            invariant
                i <= self@.len(),
                self.entries@.len() == self@.len(),
                out@.len() == i,
                forall|j: int| 0 <= j < i ==> #[trigger] out@[j]@ == self@[j].0,
            decreases self@.len() - i,
        {
            out.push(self.entries[i].0.clone());
            i += 1;
        }
        out
    }
}

} // verus!
