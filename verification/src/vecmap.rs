//! A small finite map from `u64` keys to values, backed by a vector of
//! entries with pairwise-distinct keys. Its view is a `Map<u64, V>`.
//!
//! All of the engine's persistent mappings (item to position, item to stable
//! identity, stable identity to template and to last known position) use this
//! type, so that iteration over the entries is ordinary verified code.

use vstd::prelude::*;

verus! {

/// Folds a sequence of entries into a map; a later entry overrides an
/// earlier one with the same key.
pub open spec fn assoc_map<V>(s: Seq<(u64, V)>) -> Map<u64, V>
    decreases s.len(),
{
    if s.len() == 0 {
        Map::empty()
    } else {
        assoc_map(s.drop_last()).insert(s.last().0, s.last().1)
    }
}

/// All first components of `s` are pairwise distinct.
pub open spec fn distinct_keys<V>(s: Seq<(u64, V)>) -> bool {
    forall|i: int, j: int| 0 <= i < j < s.len() ==> s[i].0 != s[j].0
}

/// Every key of `assoc_map(s)` occurs as a first component of `s`.
pub proof fn lemma_assoc_contains<V>(s: Seq<(u64, V)>, k: u64)
    requires
        assoc_map(s).contains_key(k),
    ensures
        exists|i: int| 0 <= i < s.len() && s[i].0 == k,
    decreases s.len(),
{
    if s.len() > 0 {
        if s.last().0 == k {
            assert(s[s.len() - 1].0 == k);
        } else {
            lemma_assoc_contains(s.drop_last(), k);
            let i = choose|i: int| 0 <= i < s.drop_last().len() && s.drop_last()[i].0 == k;
            assert(s[i].0 == k);
        }
    }
}

/// If no entry of `s` has key `k`, then `assoc_map(s)` lacks `k`.
pub proof fn lemma_assoc_absent<V>(s: Seq<(u64, V)>, k: u64)
    requires
        forall|i: int| 0 <= i < s.len() ==> s[i].0 != k,
    ensures
        !assoc_map(s).contains_key(k),
    decreases s.len(),
{
    if s.len() > 0 {
        assert(forall|i: int| 0 <= i < s.drop_last().len() ==> s.drop_last()[i].0 != k);
        lemma_assoc_absent(s.drop_last(), k);
        assert(s[s.len() - 1].0 != k);
    }
}

/// Every key that occurs in `s` is a key of `assoc_map(s)`.
pub proof fn lemma_assoc_key_present<V>(s: Seq<(u64, V)>, i: int)
    requires
        0 <= i < s.len(),
    ensures
        assoc_map(s).contains_key(s[i].0),
    decreases s.len(),
{
    if i < s.len() - 1 {
        lemma_assoc_key_present(s.drop_last(), i);
        assert(s.drop_last()[i] == s[i]);
    }
}

/// With distinct keys, the entry at index `i` gives the map's value at its key.
pub proof fn lemma_assoc_at<V>(s: Seq<(u64, V)>, i: int)
    requires
        distinct_keys(s),
        0 <= i < s.len(),
    ensures
        assoc_map(s).contains_key(s[i].0),
        assoc_map(s)[s[i].0] == s[i].1,
    decreases s.len(),
{
    if i == s.len() - 1 {
    } else {
        assert(forall|a: int, b: int|
            0 <= a < b < s.drop_last().len() ==> s.drop_last()[a].0 != s.drop_last()[b].0);
        lemma_assoc_at(s.drop_last(), i);
        assert(s.last().0 != s[i].0);
    }
}

/// A map from `u64` keys to values of type `V`, with replace-on-insert
/// semantics. Iteration order over `keys` is deterministic for a given
/// history of operations.
pub struct VecMap<V> {
    entries: Vec<(u64, V)>,
}

impl<V> View for VecMap<V> {
    type V = Map<u64, V>;

    closed spec fn view(&self) -> Map<u64, V> {
        assoc_map(self.entries@)
    }
}

impl<V> VecMap<V> {
    #[verifier::type_invariant]
    closed spec fn inv(self) -> bool {
        distinct_keys(self.entries@)
    }

    pub fn new() -> (r: Self)
        ensures
            r@ == Map::<u64, V>::empty(),
    {
        VecMap { entries: Vec::new() }
    }

    pub fn contains_key(&self, k: u64) -> (b: bool)
        ensures
            b == self@.contains_key(k),
    {
        proof {
            use_type_invariant(self);
        }
        let n = self.entries.len();
        let mut i: usize = 0;
        while i < n
            invariant
                n == self.entries@.len(),
                0 <= i <= n,
                distinct_keys(self.entries@),
                forall|j: int| 0 <= j < i ==> self.entries@[j].0 != k,
            decreases n - i,
        {
            if self.entries[i].0 == k {
                proof {
                    lemma_assoc_at(self.entries@, i as int);
                }
                return true;
            }
            i += 1;
        }
        proof {
            lemma_assoc_absent(self.entries@, k);
        }
        false
    }

    pub fn get(&self, k: u64) -> (r: Option<&V>)
        ensures
            match r {
                Some(v) => self@.contains_key(k) && *v == self@[k],
                None => !self@.contains_key(k),
            },
    {
        proof {
            use_type_invariant(self);
        }
        let n = self.entries.len();
        let mut i: usize = 0;
        while i < n
            invariant
                n == self.entries@.len(),
                0 <= i <= n,
                distinct_keys(self.entries@),
                forall|j: int| 0 <= j < i ==> self.entries@[j].0 != k,
            decreases n - i,
        {
            if self.entries[i].0 == k {
                proof {
                    lemma_assoc_at(self.entries@, i as int);
                }
                return Some(&self.entries[i].1);
            }
            i += 1;
        }
        proof {
            lemma_assoc_absent(self.entries@, k);
        }
        None
    }

    /// Removes the entry with key `k`, if any, and returns its value.
    pub fn take(&mut self, k: u64) -> (r: Option<V>)
        ensures
            final(self)@ == old(self)@.remove(k),
            match r {
                Some(v) => old(self)@.contains_key(k) && v == old(self)@[k],
                None => !old(self)@.contains_key(k),
            },
    {
        proof {
            use_type_invariant(&*self);
        }
        let ghost s = self.entries@;
        let mut work: Vec<(u64, V)> = Vec::new();
        core::mem::swap(&mut self.entries, &mut work);
        let n = work.len();
        let mut kept: Vec<(u64, V)> = Vec::new();
        let mut found: Option<V> = None;
        let mut i: usize = 0;
        while i < n
            invariant
                n == s.len(),
                0 <= i <= n,
                distinct_keys(s),
                work@ == s.skip(i as int),
                distinct_keys(kept@),
                assoc_map(kept@) == assoc_map(s.take(i as int)).remove(k),
                forall|j: int| 0 <= j < kept@.len() ==> kept@[j].0 != k,
                forall|j: int, m: int|
                    0 <= j < kept@.len() && i <= m < n ==> kept@[j].0 != s[m].0,
                match found {
                    Some(v) => assoc_map(s.take(i as int)).contains_key(k)
                        && v == assoc_map(s.take(i as int))[k],
                    None => !assoc_map(s.take(i as int)).contains_key(k),
                },
            decreases n - i,
        {
            proof {
                assert(s.take(i + 1).drop_last() =~= s.take(i as int));
                assert(s.take(i + 1).last() == s[i as int]);
            }
            let e = work.remove(0);
            proof {
                assert(work@ =~= s.skip(i + 1));
                assert(e == s[i as int]);
                assert(assoc_map(s.take(i + 1))
                    == assoc_map(s.take(i as int)).insert(e.0, e.1));
            }
            if e.0 == k {
                found = Some(e.1);
                assert(assoc_map(kept@) =~= assoc_map(s.take(i + 1)).remove(k));
            } else {
                let ghost kept_old = kept@;
                kept.push(e);
                proof {
                    assert(kept@.drop_last() =~= kept_old);
                    assert(kept@.last() == e);
                    assert(assoc_map(kept@) == assoc_map(kept_old).insert(e.0, e.1));
                    assert(assoc_map(kept@) =~= assoc_map(s.take(i + 1)).remove(k));
                }
            }
            i += 1;
        }
        proof {
            assert(s.take(n as int) =~= s);
        }
        self.entries = kept;
        found
    }

    /// Inserts `v` at key `k`, replacing any existing entry.
    pub fn insert(&mut self, k: u64, v: V)
        ensures
            final(self)@ == old(self)@.insert(k, v),
    {
        let _ = self.take(k);
        proof {
            use_type_invariant(&*self);
            assert forall|j: int| 0 <= j < self.entries@.len() implies self.entries@[j].0 != k by {
                if self.entries@[j].0 == k {
                    lemma_assoc_at(self.entries@, j);
                }
            }
        }
        let ghost pre = self.entries@;
        let mut work: Vec<(u64, V)> = Vec::new();
        core::mem::swap(&mut self.entries, &mut work);
        work.push((k, v));
        self.entries = work;
        proof {
            assert(self.entries@.drop_last() =~= pre);
            assert(self@ == assoc_map(pre).insert(k, v));
            assert(old(self)@.remove(k).insert(k, v) =~= old(self)@.insert(k, v));
        }
    }

    /// The keys currently present, each exactly once.
    pub fn keys(&self) -> (ks: Vec<u64>)
        ensures
            forall|i: int, j: int| 0 <= i < j < ks@.len() ==> ks@[i] != ks@[j],
            forall|i: int| 0 <= i < ks@.len() ==> self@.contains_key(ks@[i]),
            forall|k: u64| self@.contains_key(k) ==> ks@.contains(k),
    {
        proof {
            use_type_invariant(self);
        }
        let n = self.entries.len();
        let mut ks: Vec<u64> = Vec::new();
        let mut i: usize = 0;
        while i < n
            invariant
                n == self.entries@.len(),
                0 <= i <= n,
                distinct_keys(self.entries@),
                ks@.len() == i,
                forall|j: int| 0 <= j < i ==> ks@[j] == self.entries@[j].0,
            decreases n - i,
        {
            ks.push(self.entries[i].0);
            i += 1;
        }
        proof {
            assert forall|j: int| 0 <= j < ks@.len() implies self@.contains_key(ks@[j]) by {
                lemma_assoc_at(self.entries@, j);
            }
            assert forall|k: u64| self@.contains_key(k) implies ks@.contains(k) by {
                lemma_assoc_contains(self.entries@, k);
                let j = choose|j: int| 0 <= j < self.entries@.len() && self.entries@[j].0 == k;
                assert(ks@[j] == k);
            }
        }
        ks
    }
}

impl VecMap<u64> {
    /// Whether some entry maps to the value `v`.
    pub fn contains_value(&self, v: u64) -> (b: bool)
        ensures
            b == exists|k: u64| self@.contains_key(k) && self@[k] == v,
    {
        proof {
            use_type_invariant(self);
        }
        let n = self.entries.len();
        let mut i: usize = 0;
        while i < n
            invariant
                n == self.entries@.len(),
                0 <= i <= n,
                distinct_keys(self.entries@),
                forall|j: int| 0 <= j < i ==> self.entries@[j].1 != v,
            decreases n - i,
        {
            if self.entries[i].1 == v {
                proof {
                    lemma_assoc_at(self.entries@, i as int);
                    let ghost w = self.entries@[i as int].0;
                    assert(self@.contains_key(w) && self@[w] == v);
                }
                return true;
            }
            i += 1;
        }
        proof {
            assert forall|k: u64| self@.contains_key(k) implies self@[k] != v by {
                lemma_assoc_contains(self.entries@, k);
                let j = choose|j: int| 0 <= j < self.entries@.len() && self.entries@[j].0 == k;
                lemma_assoc_at(self.entries@, j);
            }
        }
        false
    }
}

} // verus!
