//! An association list from `String` keys to values, with pairwise
//! distinct keys. It stands in for a hash map keyed by interned strings:
//! contracts speak of the abstract `Map` from key contents (`Seq<char>`)
//! to values.

use vstd::prelude::*;

verus! {

pub struct StringMap<V> {
    entries: Vec<(String, V)>,
}

/// The map denoted by an association list: later entries shadow earlier
/// ones (irrelevant once keys are distinct).
pub open spec fn alist_map<V>(s: Seq<(String, V)>) -> Map<Seq<char>, V>
    decreases s.len(),
{
    if s.len() == 0 {
        Map::empty()
    } else {
        alist_map(s.drop_last()).insert(s.last().0@, s.last().1)
    }
}

/// Pairwise distinct keys, by character content.
pub open spec fn distinct_string_keys<V>(s: Seq<(String, V)>) -> bool {
    forall|i: int, j: int| 0 <= i < j < s.len() ==> s[i].0@ != s[j].0@
}

pub proof fn lemma_alist_map_contains<V>(s: Seq<(String, V)>, k: Seq<char>)
    ensures
        alist_map(s).contains_key(k) <==> exists|i: int| 0 <= i < s.len() && s[i].0@ == k,
    decreases s.len(),
{
    if s.len() > 0 {
        lemma_alist_map_contains(s.drop_last(), k);
        if alist_map(s).contains_key(k) {
            if s.last().0@ == k {
                assert(s[s.len() - 1].0@ == k);
            } else {
                let i = choose|i: int| 0 <= i < s.drop_last().len() && s.drop_last()[i].0@ == k;
                assert(s[i].0@ == k);
            }
        }
        if exists|i: int| 0 <= i < s.len() && s[i].0@ == k {
            let i = choose|i: int| 0 <= i < s.len() && s[i].0@ == k;
            if i < s.len() - 1 {
                assert(s.drop_last()[i].0@ == k);
            }
        }
    }
}

pub proof fn lemma_alist_map_index<V>(s: Seq<(String, V)>, i: int)
    requires
        0 <= i < s.len(),
        distinct_string_keys(s),
    ensures
        alist_map(s).contains_key(s[i].0@),
        alist_map(s)[s[i].0@] == s[i].1,
    decreases s.len(),
{
    lemma_alist_map_contains(s, s[i].0@);
    if i < s.len() - 1 {
        assert(s.drop_last()[i] == s[i]);
        lemma_alist_map_index(s.drop_last(), i);
        assert(s.last().0@ != s[i].0@);
    }
}

/// Inserting an entry with a fresh key at any position inserts exactly
/// that key into the denoted map.
pub proof fn lemma_alist_map_insert_at<V>(s: Seq<(String, V)>, i: int, k: String, v: V)
    requires
        0 <= i <= s.len(),
        !alist_map(s).contains_key(k@),
    ensures
        alist_map(s.insert(i, (k, v))) == alist_map(s).insert(k@, v),
    decreases s.len(),
{
    let t = s.insert(i, (k, v));
    if i == s.len() {
        assert(t == s.push((k, v)));
        assert(t.drop_last() == s);
    } else {
        assert(t.last() == s.last());
        assert(t.drop_last() =~= s.drop_last().insert(i, (k, v)));
        assert(alist_map(s).contains_key(s.last().0@));
        assert(k@ != s.last().0@);
        if alist_map(s.drop_last()).contains_key(k@) {
            assert(alist_map(s).contains_key(k@));
        }
        lemma_alist_map_insert_at(s.drop_last(), i, k, v);
        assert(alist_map(t) =~= alist_map(s).insert(k@, v));
    }
}

/// Removing the entry at `i` removes exactly its key from the denoted map,
/// provided keys are distinct.
pub proof fn lemma_alist_map_remove<V>(s: Seq<(String, V)>, i: int)
    requires
        0 <= i < s.len(),
        distinct_string_keys(s),
    ensures
        alist_map(s.remove(i)) == alist_map(s).remove(s[i].0@),
    decreases s.len(),
{
    let t = s.remove(i);
    if i == s.len() - 1 {
        assert(t == s.drop_last());
        lemma_alist_map_contains(t, s[i].0@);
        assert(alist_map(s.drop_last()) =~= alist_map(s).remove(s[i].0@));
    } else {
        let su = s.drop_last();
        assert(t.last() == s.last());
        assert(t.drop_last() == su.remove(i));
        lemma_alist_map_remove(su, i);
        assert(su[i] == s[i]);
        assert(s.last().0@ != s[i].0@);
        assert(alist_map(t) =~= alist_map(s).remove(s[i].0@));
    }
}

impl<V> StringMap<V> {
    /// Keys are pairwise distinct; every operation preserves this.
    pub closed spec fn wf(self) -> bool {
        distinct_string_keys(self.entries@)
    }

    pub closed spec fn view(self) -> Map<Seq<char>, V> {
        alist_map(self.entries@)
    }

    pub fn new() -> (r: Self)
        ensures
            r.wf(),
            r@ == Map::<Seq<char>, V>::empty(),
    {
        StringMap { entries: Vec::new() }
    }

    /// Index of the entry holding key `k`, if any.
    fn find(&self, k: &String) -> (r: Option<usize>)
        requires
            self.wf(),
        ensures
            match r {
                Some(i) => i < self.entries@.len() && self.entries@[i as int].0@ == k@
                    && self@.contains_key(k@) && self@[k@] == self.entries@[i as int].1,
                None => !self@.contains_key(k@),
            },
    {
        let n = self.entries.len();
        let mut i: usize = 0;
        while i < n
            invariant
                self.wf(),
                n == self.entries@.len(),
                i <= n,
                forall|j: int| 0 <= j < i ==> self.entries@[j].0@ != k@,
            decreases n - i,
        {
            if self.entries[i].0 == *k {
                proof {
                    lemma_alist_map_index(self.entries@, i as int);
                }
                return Some(i);
            }
            i = i + 1;
        }
        proof {
            lemma_alist_map_contains(self.entries@, k@);
        }
        None
    }

    pub fn contains_key(&self, k: &String) -> (r: bool)
        requires
            self.wf(),
        ensures
            r == self@.contains_key(k@),
    {
        self.find(k).is_some()
    }

    pub fn get(&self, k: &String) -> (r: Option<&V>)
        requires
            self.wf(),
        ensures
            match r {
                Some(v) => self@.contains_key(k@) && *v == self@[k@],
                None => !self@.contains_key(k@),
            },
    {
        match self.find(k) {
            Some(i) => Some(&self.entries[i].1),
            None => None,
        }
    }

    /// Inserts a binding for a key not yet present. Collisions are the
    /// caller's concern: every caller in this crate rejects a duplicate
    /// key before mutating the map.
    pub fn insert_new(&mut self, k: String, v: V)
        requires
            old(self).wf(),
            !old(self)@.contains_key(k@),
        ensures
            final(self).wf(),
            final(self)@ == old(self)@.insert(k@, v),
    {
        proof {
            lemma_alist_map_contains(self.entries@, k@);
        }
        let ghost old_entries = self.entries@;
        self.entries.push((k, v));
        proof {
            assert(self.entries@.drop_last() == old_entries);
            assert(forall|i: int|
                0 <= i < old_entries.len() ==> self.entries@[i] == old_entries[i]);
        }
    }

    /// Removes the binding for `k` if present, and returns its value.
    pub fn remove(&mut self, k: &String) -> (r: Option<V>)
        requires
            old(self).wf(),
        ensures
            final(self).wf(),
            final(self)@ == old(self)@.remove(k@),
            match r {
                Some(v) => old(self)@.contains_key(k@) && v == old(self)@[k@],
                None => !old(self)@.contains_key(k@),
            },
    {
        match self.find(k) {
            Some(i) => {
                let ghost old_entries = self.entries@;
                let (_, v) = self.entries.remove(i);
                proof {
                    assert(self.entries@ == old_entries.remove(i as int));
                    lemma_alist_map_remove(old_entries, i as int);
                    assert(forall|p: int, q: int|
                        0 <= p < q < self.entries@.len()
                            ==> self.entries@[p].0@ != self.entries@[q].0@);
                }
                Some(v)
            },
            None => {
                proof {
                    assert(self@ =~= self@.remove(k@));
                }
                None
            },
        }
    }

    /// Hands the entries out as a vector of pairs, consuming the map.
    pub fn into_entries(self) -> (r: Vec<(String, V)>)
        ensures
            distinct_string_keys(r@) == self.wf(),
            alist_map(r@) == self@,
    {
        self.entries
    }
}

} // verus!
