//! The merge accumulator: an association list from normalization
//! aliases to merged entries, kept sorted lexicographically by alias.
//! Converting it into the final merged selection set is then a matter
//! of reading the entries off in order.

use vstd::prelude::*;
use crate::merged::MergedServerFieldSelection;
use crate::order::{
    lemma_lex_le_total, lex_le, lex_leq, lex_lt,
};
use crate::string_map::{
    alist_map, distinct_string_keys, lemma_alist_map_contains, lemma_alist_map_index,
    lemma_alist_map_insert_at, lemma_alist_map_remove,
};

verus! {

pub struct AliasMap {
    entries: Vec<(String, MergedServerFieldSelection)>,
}

/// Strictly sorted by alias (which makes the aliases distinct).
pub open spec fn sorted_by_alias(s: Seq<(String, MergedServerFieldSelection)>) -> bool {
    forall|i: int, j: int| 0 <= i < j < s.len() ==> lex_lt((#[trigger] s[i]).0@, (#[trigger] s[j]).0@)
}

impl AliasMap {
    pub closed spec fn wf(self) -> bool {
        sorted_by_alias(self.entries@)
    }

    pub closed spec fn view(self) -> Map<Seq<char>, MergedServerFieldSelection> {
        alist_map(self.entries@)
    }

    proof fn lemma_distinct(self)
        requires
            self.wf(),
        ensures
            distinct_string_keys(self.entries@),
    {
    }

    pub fn new() -> (r: Self)
        ensures
            r.wf(),
            r@ == Map::<Seq<char>, MergedServerFieldSelection>::empty(),
    {
        AliasMap { entries: Vec::new() }
    }

    fn find(&self, k: &String) -> (r: Option<usize>)
        requires
            self.wf(),
        ensures
            match r {
                Some(i) => i < self.entries@.len() && self.entries@[i as int].0@ == k@
                    && self@.contains_key(k@) && self@[k@] == self.entries@[i as int].1,
                None => !self@.contains_key(k@),
            },
    {
        proof {
            self.lemma_distinct();
        }
        let n = self.entries.len();
        let mut i: usize = 0;
        while i < n
            invariant
                self.wf(),
                n == self.entries@.len(),
                i <= n,
                forall|j: int| 0 <= j < i ==> (#[trigger] self.entries@[j]).0@ != k@,
            decreases n - i,
        {
            if self.entries[i].0 == *k {
                proof {
                    self.lemma_distinct();
                    lemma_alist_map_index(self.entries@, i as int);
                }
                return Some(i);
            }
            i = i + 1;
        }
        proof {
            lemma_alist_map_contains(self.entries@, k@);
        }
        None
    }

    pub fn get(&self, k: &String) -> (r: Option<&MergedServerFieldSelection>)
        requires
            self.wf(),
        ensures
            match r {
                Some(v) => self@.contains_key(k@) && *v == self@[k@],
                None => !self@.contains_key(k@),
            },
    {
        match self.find(k) {
            Some(i) => Some(&self.entries[i].1),
            None => None,
        }
    }

    /// Removes the entry for `k`, handing it to the caller for merging.
    pub fn remove(&mut self, k: &String) -> (r: Option<MergedServerFieldSelection>)
        requires
            old(self).wf(),
        ensures
            final(self).wf(),
            final(self)@ == old(self)@.remove(k@),
            match r {
                Some(v) => old(self)@.contains_key(k@) && v == old(self)@[k@],
                None => !old(self)@.contains_key(k@) && *final(self) == *old(self),
            },
    {
        match self.find(k) {
            Some(i) => {
                let ghost old_entries = self.entries@;
                let (_, v) = self.entries.remove(i);
                proof {
                    assert(self.entries@ == old_entries.remove(i as int));
                    assert(forall|p: int, q: int|
                        0 <= p < q < self.entries@.len() ==> lex_lt(
                            (#[trigger] self.entries@[p]).0@,
                            (#[trigger] self.entries@[q]).0@,
                        ));
                    lemma_alist_map_remove(old_entries, i as int);
                }
                Some(v)
            },
            None => {
                proof {
                    assert(self@ =~= self@.remove(k@));
                }
                None
            },
        }
    }

    /// Inserts an entry under an alias not yet present, at its sorted
    /// position.
    pub fn insert_new(&mut self, k: String, v: MergedServerFieldSelection)
        requires
            old(self).wf(),
            !old(self)@.contains_key(k@),
        ensures
            final(self).wf(),
            final(self)@ == old(self)@.insert(k@, v),
    {
        proof {
            lemma_alist_map_contains(self.entries@, k@);
            assert(forall|j: int|
                0 <= j < self.entries@.len() ==> (#[trigger] self.entries@[j]).0@ != k@);
        }
        let n = self.entries.len();
        let mut pos: usize = 0;
        while pos < n && lex_leq(&self.entries[pos].0, &k)
            invariant
                self.wf(),
                n == self.entries@.len(),
                pos <= n,
                !self@.contains_key(k@),
                forall|j: int| 0 <= j < self.entries@.len() ==> (#[trigger] self.entries@[j]).0@ != k@,
                forall|j: int| 0 <= j < pos ==> lex_le((#[trigger] self.entries@[j]).0@, k@),
            decreases n - pos,
        {
            pos = pos + 1;
        }
        proof {
            if (pos as int) < n {
                lemma_lex_le_total(self.entries@[pos as int].0@, k@);
                assert(lex_le(k@, self.entries@[pos as int].0@));
            }
        }
        let ghost old_entries = self.entries@;
        self.entries.insert(pos, (k, v));
        proof {
            assert(self.entries@ == old_entries.insert(pos as int, (k, v)));
            let t = self.entries@;
            assert forall|i: int, j: int| 0 <= i < j < t.len() implies lex_lt(
                (#[trigger] t[i]).0@,
                (#[trigger] t[j]).0@,
            ) by {
                let p = pos as int;
                if i < p && j == p {
                    assert(t[i] == old_entries[i]);
                } else if i == p && j > p {
                    assert(t[j] == old_entries[j - 1]);
                    assert(lex_le(k@, old_entries[p].0@));
                    if j - 1 > p {
                        crate::order::lemma_lex_le_transitive(
                            k@,
                            old_entries[p].0@,
                            old_entries[j - 1].0@,
                        );
                    }
                } else if i < p && j > p {
                    assert(t[i] == old_entries[i]);
                    assert(t[j] == old_entries[j - 1]);
                    if i < j - 1 {
                    } else {
                        assert(i == j - 1);
                        assert(lex_le(old_entries[i].0@, k@));
                        assert(lex_le(k@, old_entries[p].0@));
                        crate::order::lemma_lex_le_transitive(
                            old_entries[i].0@,
                            k@,
                            old_entries[p].0@,
                        );
                        assert(old_entries[i].0@ != old_entries[p].0@ || i == p);
                    }
                } else if i < p && j < p {
                    assert(t[i] == old_entries[i]);
                    assert(t[j] == old_entries[j]);
                } else if i > p && j > p {
                    assert(t[i] == old_entries[i - 1]);
                    assert(t[j] == old_entries[j - 1]);
                }
            }
            lemma_alist_map_insert_at(old_entries, pos as int, k, v);
        }
    }

    /// The entries in ascending alias order, consuming the map.
    pub fn into_sorted_entries(self) -> (r: Vec<(String, MergedServerFieldSelection)>)
        requires
            self.wf(),
        ensures
            sorted_by_alias(r@),
            distinct_string_keys(r@),
            alist_map(r@) == self@,
            forall|i: int|
                0 <= i < r@.len() ==> self@.contains_key((#[trigger] r@[i]).0@)
                    && self@[r@[i].0@] == r@[i].1,
    {
        proof {
            self.lemma_distinct();
            assert forall|i: int| 0 <= i < self.entries@.len() implies self@.contains_key(
                (#[trigger] self.entries@[i]).0@,
            ) && self@[self.entries@[i].0@] == self.entries@[i].1 by {
                lemma_alist_map_index(self.entries@, i);
            }
        }
        self.entries
    }
}

} // verus!
