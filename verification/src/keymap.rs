//! The flat configuration namespace: a string-keyed map with unique keys,
//! iterated in lexicographic key order, insertion replacing the previous
//! binding of an equal key.

use vstd::prelude::*;

use crate::text::{
    lemma_lex_lt_connected, lemma_lex_lt_irreflexive, lemma_lex_lt_transitive, lex_lt, str_eq,
    str_lt,
};

verus! {

/// View of a list of owned entries as a list of character-sequence pairs.
pub open spec fn entries_view(s: Seq<(String, String)>) -> Seq<(Seq<char>, Seq<char>)> {
    s.map_values(|p: (String, String)| (p.0@, p.1@))
}

/// The empty list of entry views.
pub open spec fn no_pairs() -> Seq<(Seq<char>, Seq<char>)> {
    Seq::empty()
}

/// Keys strictly ascending in lexicographic order (hence unique).
pub open spec fn sorted_keys(s: Seq<(Seq<char>, Seq<char>)>) -> bool {
    forall|i: int, j: int| 0 <= i < j < s.len() ==> lex_lt(#[trigger] s[i].0, #[trigger] s[j].0)
}

/// Fold a list of entries into a map, later entries winning.
pub open spec fn entries_map(s: Seq<(Seq<char>, Seq<char>)>) -> Map<Seq<char>, Seq<char>>
    decreases s.len(),
{
    if s.len() == 0 {
        Map::empty()
    } else {
        entries_map(s.drop_last()).insert(s.last().0, s.last().1)
    }
}

/// A key is in the folded map exactly when some entry holds it.
pub proof fn lemma_entries_map_domain(s: Seq<(Seq<char>, Seq<char>)>, k: Seq<char>)
    ensures
        entries_map(s).contains_key(k) <==> exists|i: int| 0 <= i < s.len() && (#[trigger] s[i]).0
            == k,
    decreases s.len(),
{
    if s.len() > 0 {
        lemma_entries_map_domain(s.drop_last(), k);
        if s.last().0 == k {
            assert(s[s.len() - 1].0 == k);
        } else if entries_map(s).contains_key(k) {
            let i = choose|i: int| 0 <= i < s.drop_last().len() && (#[trigger] s.drop_last()[i]).0
                == k;
            assert(s[i].0 == k);
        } else if exists|i: int| 0 <= i < s.len() && (#[trigger] s[i]).0 == k {
            let i = choose|i: int| 0 <= i < s.len() && (#[trigger] s[i]).0 == k;
            assert(i < s.len() - 1);
            assert(s.drop_last()[i].0 == k);
        }
    }
}

/// In a sorted list each entry is visible in the folded map.
pub proof fn lemma_entries_map_at(s: Seq<(Seq<char>, Seq<char>)>, i: int)
    requires
        sorted_keys(s),
        0 <= i < s.len(),
    ensures
        entries_map(s).contains_key(s[i].0),
        entries_map(s)[s[i].0] == s[i].1,
    decreases s.len(),
{
    if i == s.len() - 1 {
    } else {
        assert(lex_lt(s[i].0, s.last().0));
        lemma_lex_lt_irreflexive(s[i].0);
        assert(s[i].0 != s.last().0);
        assert(sorted_keys(s.drop_last())) by {
            assert forall|a: int, b: int| 0 <= a < b < s.drop_last().len() implies lex_lt(
                #[trigger] s.drop_last()[a].0,
                #[trigger] s.drop_last()[b].0,
            ) by {
                assert(s.drop_last()[a] == s[a] && s.drop_last()[b] == s[b]);
            }
        }
        assert(s.drop_last()[i] == s[i]);
        lemma_entries_map_at(s.drop_last(), i);
    }
}

proof fn lemma_sorted_prefix(s: Seq<(Seq<char>, Seq<char>)>)
    requires
        sorted_keys(s),
        s.len() > 0,
    ensures
        sorted_keys(s.drop_last()),
{
    assert forall|a: int, b: int| 0 <= a < b < s.drop_last().len() implies lex_lt(
        #[trigger] s.drop_last()[a].0,
        #[trigger] s.drop_last()[b].0,
    ) by {
        assert(s.drop_last()[a] == s[a] && s.drop_last()[b] == s[b]);
    }
}

proof fn lemma_map_update(s: Seq<(Seq<char>, Seq<char>)>, i: int, v: Seq<char>)
    requires
        sorted_keys(s),
        0 <= i < s.len(),
    ensures
        entries_map(s.update(i, (s[i].0, v))) == entries_map(s).insert(s[i].0, v),
    decreases s.len(),
{
    let k = s[i].0;
    let t = s.update(i, (k, v));
    assert(t.len() == s.len());
    if i == s.len() - 1 {
        assert(t.drop_last() =~= s.drop_last());
        assert(t.last() == (k, v));
        assert(entries_map(s.drop_last()).insert(s.last().0, s.last().1).insert(k, v)
            =~= entries_map(s.drop_last()).insert(k, v));
    } else {
        lemma_sorted_prefix(s);
        assert(s.drop_last()[i] == s[i]);
        lemma_map_update(s.drop_last(), i, v);
        assert(t.drop_last() =~= s.drop_last().update(i, (k, v)));
        assert(t.last() == s.last());
        assert(lex_lt(k, s.last().0));
        lemma_lex_lt_irreflexive(k);
        assert(k != s.last().0);
        assert(entries_map(s.drop_last()).insert(k, v).insert(s.last().0, s.last().1)
            =~= entries_map(s.drop_last()).insert(s.last().0, s.last().1).insert(k, v));
    }
}

proof fn lemma_map_insert_at(s: Seq<(Seq<char>, Seq<char>)>, i: int, k: Seq<char>, v: Seq<char>)
    requires
        sorted_keys(s),
        0 <= i <= s.len(),
        forall|j: int| 0 <= j < i ==> lex_lt((#[trigger] s[j]).0, k),
        forall|j: int| i <= j < s.len() ==> lex_lt(k, (#[trigger] s[j]).0),
    ensures
        entries_map(s.insert(i, (k, v))) == entries_map(s).insert(k, v),
    decreases s.len(),
{
    let t = s.insert(i, (k, v));
    assert(t.len() == s.len() + 1);
    if i == s.len() {
        assert(t.drop_last() =~= s);
        assert(t.last() == (k, v));
    } else {
        lemma_sorted_prefix(s);
        assert(t.last() == s.last());
        assert(t.drop_last() =~= s.drop_last().insert(i, (k, v)));
        assert forall|j: int| 0 <= j < i implies lex_lt((#[trigger] s.drop_last()[j]).0, k) by {
            assert(s.drop_last()[j] == s[j]);
        }
        assert forall|j: int| i <= j < s.drop_last().len() implies lex_lt(
            k,
            (#[trigger] s.drop_last()[j]).0,
        ) by {
            assert(s.drop_last()[j] == s[j]);
        }
        lemma_map_insert_at(s.drop_last(), i, k, v);
        assert(lex_lt(k, s.last().0));
        lemma_lex_lt_irreflexive(k);
        assert(k != s.last().0);
        assert(entries_map(s.drop_last()).insert(k, v).insert(s.last().0, s.last().1)
            =~= entries_map(s.drop_last()).insert(s.last().0, s.last().1).insert(k, v));
    }
}

/// The flat, ordered configuration namespace.
#[derive(Debug, Clone, PartialEq, Eq)]
pub struct ConfigMap {
    pairs: Vec<(String, String)>,
}

impl ConfigMap {
    /// The entries, in storage (= lexicographic key) order.
    pub closed spec fn entries(self) -> Seq<(Seq<char>, Seq<char>)> {
        entries_view(self.pairs@)
    }

    /// The entries as a map.
    pub open spec fn map_view(self) -> Map<Seq<char>, Seq<char>> {
        entries_map(self.entries())
    }

    /// Well-formed: keys strictly ascending, hence unique.
    pub open spec fn wf(self) -> bool {
        sorted_keys(self.entries())
    }

    pub fn new() -> (r: ConfigMap)
        ensures
            r.wf(),
            r.entries() == no_pairs(),
    {
        let r = ConfigMap { pairs: Vec::new() };
        proof {
            assert(r.entries() =~= no_pairs());
        }
        r
    }

    /// Wrap a list of entries already in strictly ascending key order.
    pub fn from_entries(pairs: Vec<(String, String)>) -> (r: ConfigMap)
        requires
            sorted_keys(entries_view(pairs@)),
        ensures
            r.wf(),
            r.entries() == entries_view(pairs@),
    {
        ConfigMap { pairs }
    }

    pub fn len(&self) -> (r: usize)
        ensures
            r == self.entries().len(),
    {
        self.pairs.len()
    }

    pub fn key_at(&self, i: usize) -> (r: &String)
        requires
            i < self.entries().len(),
        ensures
            r@ == self.entries()[i as int].0,
    {
        &self.pairs[i].0
    }

    pub fn value_at(&self, i: usize) -> (r: &String)
        requires
            i < self.entries().len(),
        ensures
            r@ == self.entries()[i as int].1,
    {
        &self.pairs[i].1
    }

    /// Look a key up.
    pub fn get<'a>(&'a self, key: &str) -> (r: Option<&'a String>)
        requires
            self.wf(),
        ensures
            match r {
                Some(v) => self.map_view().contains_key(key@) && v@ == self.map_view()[key@],
                None => !self.map_view().contains_key(key@),
            },
    {
        let n = self.pairs.len();
        let mut i: usize = 0;
        while i < n
            invariant
                0 <= i <= n,
                n == self.entries().len(),
                self.wf(),
                forall|j: int| 0 <= j < i ==> (#[trigger] self.entries()[j]).0 != key@,
            decreases n - i,
        {
            if str_eq(self.pairs[i].0.as_str(), key) {
                proof {
                    lemma_entries_map_at(self.entries(), i as int);
                }
                return Some(&self.pairs[i].1);
            }
            i += 1;
        }
        proof {
            lemma_entries_map_domain(self.entries(), key@);
        }
        None
    }

    /// Bind `key` to `value`, replacing any previous binding and keeping the
    /// entries sorted.
    pub fn insert(&mut self, key: String, value: String)
        requires
            old(self).wf(),
        ensures
            final(self).wf(),
            final(self).map_view() == old(self).map_view().insert(key@, value@),
    {
        let ghost s0 = self.entries();
        let n = self.pairs.len();
        let mut idx: usize = 0;
        while idx < n && str_lt(self.pairs[idx].0.as_str(), key.as_str())
            invariant
                0 <= idx <= n,
                n == self.entries().len(),
                self.wf(),
                self.entries() == s0,
                forall|j: int| 0 <= j < idx ==> lex_lt((#[trigger] self.entries()[j]).0, key@),
            decreases n - idx,
        {
            idx += 1;
        }
        if idx < n && str_eq(self.pairs[idx].0.as_str(), key.as_str()) {
            proof {
                lemma_map_update(s0, idx as int, value@);
            }
            self.pairs.set(idx, (key, value));
            proof {
                assert(self.entries() =~= s0.update(idx as int, (s0[idx as int].0, value@)));
                assert(sorted_keys(self.entries())) by {
                    assert forall|a: int, b: int|
                        0 <= a < b < self.entries().len() implies lex_lt(
                        (#[trigger] self.entries()[a]).0,
                        (#[trigger] self.entries()[b]).0,
                    ) by {
                        assert(self.entries()[a].0 == s0[a].0);
                        assert(self.entries()[b].0 == s0[b].0);
                    }
                }
            }
        } else {
            proof {
                if idx < n {
                    assert(!lex_lt(s0[idx as int].0, key@));
                    assert(s0[idx as int].0 != key@);
                    lemma_lex_lt_connected(s0[idx as int].0, key@);
                    assert(lex_lt(key@, s0[idx as int].0));
                }
                assert forall|j: int| idx <= j < s0.len() implies lex_lt(
                    key@,
                    (#[trigger] s0[j]).0,
                ) by {
                    if j > idx {
                        lemma_lex_lt_transitive(key@, s0[idx as int].0, s0[j].0);
                    }
                }
                lemma_map_insert_at(s0, idx as int, key@, value@);
            }
            self.pairs.insert(idx, (key, value));
            proof {
                assert(self.entries() =~= s0.insert(idx as int, (key@, value@)));
                let t = self.entries();
                assert(sorted_keys(t)) by {
                    assert forall|a: int, b: int| 0 <= a < b < t.len() implies lex_lt(
                        (#[trigger] t[a]).0,
                        (#[trigger] t[b]).0,
                    ) by {
                        let ia = if a < idx {
                            a
                        } else {
                            a - 1
                        };
                        let ib = if b < idx {
                            b
                        } else {
                            b - 1
                        };
                        if a == idx {
                            assert(t[a].0 == key@);
                            assert(t[b] == s0[b - 1]);
                        } else if b == idx {
                            assert(t[b].0 == key@);
                            assert(t[a] == s0[a]);
                        } else {
                            assert(t[a] == s0[ia]);
                            assert(t[b] == s0[ib]);
                            assert(0 <= ia < ib < s0.len());
                        }
                    }
                }
            }
        }
    }
}

} // verus!
