//! Loading the configuration: partition the main file's parsed entries into
//! macro table, include set and plain keys; merge each included file's
//! entries (last write wins); then expand macros in every surviving value.
//!
//! Reading and parsing files is the caller's business: the functions here
//! take parsed entry lists and hand back the substituted include paths that
//! the caller must load next.

use vstd::prelude::*;

use crate::errors::BootstrapError;
use crate::keymap::{entries_view, lemma_entries_map_at, lemma_entries_map_domain,
    no_pairs, sorted_keys, ConfigMap};
use crate::macros::{macro_entries, macro_table_insert, macro_table_new, replace_macros, subst,
    subst_error_for, SubstOutcome};
use crate::text::{has_prefix, lemma_lex_lt_irreflexive, lemma_lex_lt_transitive, lex_lt, lower,
    str_eq, to_lowercase};

verus! {

/// A key that defines a macro in the main file.
pub open spec fn is_macro_key(k: Seq<char>) -> bool {
    k.len() >= 7 && k.subrange(0, 7) == "macros."@
}

/// The table name of a macro key: the suffix, lowercased.
pub open spec fn macro_name_of(k: Seq<char>) -> Seq<char> {
    lower(k.subrange(7, k.len() as int))
}

/// A key that requests the merge of another file.
pub open spec fn is_include_key(k: Seq<char>) -> bool {
    k.len() >= 14 && k.subrange(0, 14) == "include.files."@
}

/// The macro table extracted from a main file's entries, later definitions
/// of an equal (lowercased) name winning.
pub open spec fn macros_of(s: Seq<(Seq<char>, Seq<char>)>) -> Map<Seq<char>, Seq<char>>
    decreases s.len(),
{
    if s.len() == 0 {
        Map::empty()
    } else {
        let m = macros_of(s.drop_last());
        if is_macro_key(s.last().0) {
            m.insert(macro_name_of(s.last().0), s.last().1)
        } else {
            m
        }
    }
}

/// The include paths gathered from a main file's entries: values of
/// `include.files.*` keys, deduplicated as a set, kept in first-occurrence
/// order.
pub open spec fn includes_of(s: Seq<(Seq<char>, Seq<char>)>) -> Seq<Seq<char>>
    decreases s.len(),
{
    if s.len() == 0 {
        Seq::empty()
    } else {
        let r = includes_of(s.drop_last());
        let p = s.last();
        if !is_macro_key(p.0) && is_include_key(p.0) && !r.contains(p.1) {
            r.push(p.1)
        } else {
            r
        }
    }
}

/// The plain working keys of a main file's entries: everything that is
/// neither a macro definition nor an include request.
pub open spec fn plain_of(s: Seq<(Seq<char>, Seq<char>)>) -> Map<Seq<char>, Seq<char>>
    decreases s.len(),
{
    if s.len() == 0 {
        Map::empty()
    } else {
        let m = plain_of(s.drop_last());
        let p = s.last();
        if !is_macro_key(p.0) && !is_include_key(p.0) {
            m.insert(p.0, p.1)
        } else {
            m
        }
    }
}

/// Merge a file's entries into a base map; on key collision the merged
/// entry wins, and among entries of one file the later wins.
pub open spec fn merged(base: Map<Seq<char>, Seq<char>>, s: Seq<(Seq<char>, Seq<char>)>) -> Map<
    Seq<char>,
    Seq<char>,
>
    decreases s.len(),
{
    if s.len() == 0 {
        base
    } else {
        merged(base, s.drop_last()).insert(s.last().0, s.last().1)
    }
}

/// The view of a list of parsed files.
pub open spec fn files_view(v: Seq<Vec<(String, String)>>) -> Seq<Seq<(Seq<char>, Seq<char>)>> {
    v.map_values(|f: Vec<(String, String)>| entries_view(f@))
}

/// Merge several files in order into a base map.
pub open spec fn merged_all(
    base: Map<Seq<char>, Seq<char>>,
    files: Seq<Seq<(Seq<char>, Seq<char>)>>,
) -> Map<Seq<char>, Seq<char>>
    decreases files.len(),
{
    if files.len() == 0 {
        base
    } else {
        merged(merged_all(base, files.drop_last()), files.last())
    }
}

/// The view of a list of strings.
pub open spec fn strings_view(v: Seq<String>) -> Seq<Seq<char>> {
    v.map_values(|x: String| x@)
}

fn contains_string(v: &Vec<String>, s: &str) -> (r: bool)
    ensures
        r == strings_view(v@).contains(s@),
{
    let n = v.len();
    let mut i: usize = 0;
    while i < n
        invariant
            0 <= i <= n,
            n == v@.len(),
            forall|j: int| 0 <= j < i ==> (#[trigger] v@[j])@ != s@,
        decreases n - i,
    {
        if str_eq(v[i].as_str(), s) {
            assert(strings_view(v@)[i as int] == s@);
            return true;
        }
        i += 1;
    }
    assert forall|j: int| 0 <= j < strings_view(v@).len() implies #[trigger] strings_view(v@)[j]
        != s@ by {
        assert(strings_view(v@)[j] == v@[j]@);
    }
    false
}

/// The working state between partitioning the main file and expanding the
/// merged namespace.
#[derive(Debug)]
pub struct Bootstrap {
    /// The macro table, built from the main file only.
    pub macros: ahash::AHashMap<String, String, ahash::RandomState>,
    /// The macro-substituted include paths, deduplicated by their
    /// pre-substitution value, in first-occurrence order.
    pub include_paths: Vec<String>,
    /// The working key set.
    pub keys: ConfigMap,
}

impl Bootstrap {
    /// Partition a main file's parsed entries into the macro table, the
    /// substituted include paths and the plain working keys.
    pub fn partition(main: &Vec<(String, String)>) -> (r: Result<Bootstrap, BootstrapError>)
        ensures
            (r matches Ok(b) ==> {
                let s = entries_view(main@);
                &&& macro_entries(b.macros) == macros_of(s)
                &&& b.keys.wf()
                &&& b.keys.map_view() == plain_of(s)
                &&& b.include_paths@.len() == includes_of(s).len()
                &&& forall|j: int|
                    0 <= j < includes_of(s).len() ==> subst(includes_of(s)[j], macros_of(s))
                        == SubstOutcome::Done((#[trigger] b.include_paths@[j])@)
            }),
            ((forall|j: int|
                0 <= j < includes_of(entries_view(main@)).len() ==> subst(
                    #[trigger] includes_of(entries_view(main@))[j],
                    macros_of(entries_view(main@)),
                ) matches SubstOutcome::Done(_)) ==> r matches Ok(_)),
            (r matches Err(e) ==> exists|j: int|
                {
                    &&& 0 <= j < includes_of(entries_view(main@)).len()
                    &&& !(subst(
                        #[trigger] includes_of(entries_view(main@))[j],
                        macros_of(entries_view(main@)),
                    ) matches SubstOutcome::Done(_))
                    &&& (forall|l: int|
                        0 <= l < j ==> subst(
                            #[trigger] includes_of(entries_view(main@))[l],
                            macros_of(entries_view(main@)),
                        ) matches SubstOutcome::Done(_))
                    &&& subst_error_for(
                        subst(includes_of(entries_view(main@))[j], macros_of(entries_view(main@))),
                        "include.files"@,
                        e,
                    )
                }),
    {
        let ghost s = entries_view(main@);
        let mut mt = macro_table_new();
        let mut incs: Vec<String> = Vec::new();
        let mut km = ConfigMap::new();
        let n = main.len();
        let mut i: usize = 0;
        proof {
            assert(s.take(0) =~= Seq::empty());
            assert(strings_view(incs@) =~= Seq::empty());
            assert(km.map_view() =~= plain_of(s.take(0)));
            assert(macro_entries(mt) =~= macros_of(s.take(0)));
        }
        while i < n
            invariant
                0 <= i <= n,
                n == main@.len(),
                s == entries_view(main@),
                s.len() == n,
                macro_entries(mt) == macros_of(s.take(i as int)),
                strings_view(incs@) == includes_of(s.take(i as int)),
                km.wf(),
                km.map_view() == plain_of(s.take(i as int)),
            decreases n - i,
        {
            let k = main[i].0.clone();
            let v = main[i].1.clone();
            proof {
                assert(s[i as int] == (main@[i as int].0@, main@[i as int].1@));
                assert(s.take(i + 1).drop_last() =~= s.take(i as int));
                assert(s.take(i + 1).last() == s[i as int]);
                reveal_strlit("macros.");
                reveal_strlit("include.files.");
            }
            if has_prefix(k.as_str(), "macros.") {
                let klen = k.as_str().unicode_len();
                let name = k.as_str().substring_char(7, klen);
                let lname = to_lowercase(name);
                proof {
                    assert(name@ =~= k@.subrange(7, k@.len() as int));
                    assert(lname@ == macro_name_of(k@));
                    assert(is_macro_key(s[i as int].0));
                }
                macro_table_insert(&mut mt, lname, v);
            } else if has_prefix(k.as_str(), "include.files.") {
                proof {
                    assert(!is_macro_key(s[i as int].0));
                    assert(is_include_key(s[i as int].0));
                }
                if !contains_string(&incs, v.as_str()) {
                    incs.push(v);
                    proof {
                        assert(strings_view(incs@) =~= includes_of(s.take(i + 1)));
                    }
                } else {
                    proof {
                        assert(strings_view(incs@) =~= includes_of(s.take(i + 1)));
                    }
                }
            } else {
                proof {
                    assert(!is_macro_key(s[i as int].0));
                    assert(!is_include_key(s[i as int].0));
                }
                km.insert(k, v);
            }
            i += 1;
        }
        proof {
            assert(s.take(n as int) =~= s);
        }
        let ni = incs.len();
        let mut paths: Vec<String> = Vec::new();
        let mut j: usize = 0;
        while j < ni
            invariant
                0 <= j <= ni,
                ni == incs@.len(),
                strings_view(incs@) == includes_of(s),
                s == entries_view(main@),
                macro_entries(mt) == macros_of(s),
                km.wf(),
                km.map_view() == plain_of(s),
                paths@.len() == j,
                forall|l: int|
                    0 <= l < j ==> subst(includes_of(s)[l], macros_of(s)) == SubstOutcome::Done(
                        (#[trigger] paths@[l])@,
                    ),
            decreases ni - j,
        {
            proof {
                assert(incs@[j as int]@ == includes_of(s)[j as int]);
            }
            match replace_macros("include.files", incs[j].as_str(), &mt) {
                Ok(p) => {
                    paths.push(p);
                },
                Err(e) => {
                    proof {
                        assert(!(subst(includes_of(entries_view(main@))[j as int], macros_of(
                            entries_view(main@),
                        )) matches SubstOutcome::Done(_)));
                        assert forall|l: int| 0 <= l < j implies subst(
                            #[trigger] includes_of(entries_view(main@))[l],
                            macros_of(entries_view(main@)),
                        ) matches SubstOutcome::Done(_) by {
                            assert(subst(includes_of(s)[l], macros_of(s)) == SubstOutcome::Done(
                                paths@[l]@,
                            ));
                        }
                    }
                    return Err(e);
                },
            }
            j += 1;
        }
        Ok(Bootstrap { macros: mt, include_paths: paths, keys: km })
    }

    /// Merge one included file's parsed entries into the working keys; on
    /// key collision the newly merged value wins.
    pub fn merge(&mut self, pairs: &Vec<(String, String)>)
        requires
            old(self).keys.wf(),
        ensures
            final(self).keys.wf(),
            final(self).keys.map_view() == merged(
                old(self).keys.map_view(),
                entries_view(pairs@),
            ),
            final(self).macros == old(self).macros,
            final(self).include_paths == old(self).include_paths,
    {
        let ghost p = entries_view(pairs@);
        let n = pairs.len();
        let mut i: usize = 0;
        proof {
            assert(p.take(0) =~= Seq::empty());
        }
        while i < n
            invariant
                0 <= i <= n,
                n == pairs@.len(),
                p == entries_view(pairs@),
                p.len() == n,
                self.keys.wf(),
                self.keys.map_view() == merged(old(self).keys.map_view(), p.take(i as int)),
                self.macros == old(self).macros,
                self.include_paths == old(self).include_paths,
            decreases n - i,
        {
            let k = pairs[i].0.clone();
            let v = pairs[i].1.clone();
            proof {
                assert(p[i as int] == (pairs@[i as int].0@, pairs@[i as int].1@));
                assert(p.take(i + 1).drop_last() =~= p.take(i as int));
                assert(p.take(i + 1).last() == p[i as int]);
            }
            self.keys.insert(k, v);
            i += 1;
        }
        proof {
            assert(p.take(n as int) =~= p);
        }
    }

    /// Expand macros in every value of the merged working set and freeze the
    /// result. Values are processed in key order, so the reported failure is
    /// the one owned by the least failing key.
    pub fn finish(self) -> (r: Result<Config, BootstrapError>)
        requires
            self.keys.wf(),
        ensures
            ((forall|k: Seq<char>|
                #[trigger] self.keys.map_view().contains_key(k) ==> subst(
                    self.keys.map_view()[k],
                    macro_entries(self.macros),
                ) matches SubstOutcome::Done(_)) ==> r matches Ok(_)),
            (r matches Ok(c) ==> {
                &&& c.wf()
                &&& (forall|k: Seq<char>|
                    #[trigger] c.map_view().contains_key(k)
                        <==> self.keys.map_view().contains_key(k))
                &&& (forall|k: Seq<char>|
                    #[trigger] self.keys.map_view().contains_key(k) ==> (subst(
                        self.keys.map_view()[k],
                        macro_entries(self.macros),
                    ) matches SubstOutcome::Done(t) && c.map_view()[k] == t))
            }),
            (r matches Err(e) ==> exists|k: Seq<char>|
                {
                    &&& #[trigger] self.keys.map_view().contains_key(k)
                    &&& !(subst(self.keys.map_view()[k], macro_entries(self.macros))
                        matches SubstOutcome::Done(_))
                    &&& subst_error_for(
                        subst(self.keys.map_view()[k], macro_entries(self.macros)),
                        k,
                        e,
                    )
                    &&& (forall|k2: Seq<char>|
                        #[trigger] self.keys.map_view().contains_key(k2) && lex_lt(k2, k) ==> subst(
                            self.keys.map_view()[k2],
                            macro_entries(self.macros),
                        ) matches SubstOutcome::Done(_))
                }),
    {
        let ghost s = self.keys.entries();
        let ghost km = self.keys.map_view();
        let ghost mm = macro_entries(self.macros);
        let n = self.keys.len();
        let mut out: Vec<(String, String)> = Vec::new();
        let mut i: usize = 0;
        while i < n
            invariant
                0 <= i <= n,
                n == s.len(),
                s == self.keys.entries(),
                km == self.keys.map_view(),
                mm == macro_entries(self.macros),
                self.keys.wf(),
                out@.len() == i,
                forall|l: int|
                    0 <= l < i ==> (#[trigger] entries_view(out@)[l]).0 == s[l].0,
                forall|l: int|
                    0 <= l < i ==> subst(s[l].1, mm) == SubstOutcome::Done(
                        (#[trigger] entries_view(out@)[l]).1,
                    ),
            decreases n - i,
        {
            let k = self.keys.key_at(i).clone();
            let v = self.keys.value_at(i);
            match replace_macros(k.as_str(), v.as_str(), &self.macros) {
                Ok(nv) => {
                    let ghost out0 = out@;
                    out.push((k, nv));
                    proof {
                        assert forall|l: int| 0 <= l < i + 1 implies (#[trigger] entries_view(
                            out@,
                        )[l]).0 == s[l].0 && subst(s[l].1, mm) == SubstOutcome::Done(
                            entries_view(out@)[l].1,
                        ) by {
                            if l < i {
                                assert(out@[l] == out0[l]);
                                assert(entries_view(out@)[l] == entries_view(out0)[l]);
                            } else {
                                assert(entries_view(out@)[l] == (k@, nv@));
                            }
                        }
                    }
                },
                Err(e) => {
                    proof {
                        lemma_entries_map_at(s, i as int);
                        assert(km.contains_key(s[i as int].0) && km[s[i as int].0] == s[i
                            as int].1);
                        assert forall|k2: Seq<char>|
                            #[trigger] km.contains_key(k2) && lex_lt(k2, s[i as int].0)
                            implies subst(km[k2], mm) matches SubstOutcome::Done(_) by {
                            lemma_entries_map_domain(s, k2);
                            let l = choose|l: int| 0 <= l < s.len() && (#[trigger] s[l]).0 == k2;
                            if l > i {
                                assert(lex_lt(s[i as int].0, s[l].0));
                                lemma_lex_lt_transitive(k2, s[i as int].0, s[l].0);
                                lemma_lex_lt_irreflexive(k2);
                                assert(false);
                            } else if l == i {
                                lemma_lex_lt_irreflexive(k2);
                                assert(false);
                            }
                            assert(0 <= l < i);
                            assert(subst(s[l].1, mm) == SubstOutcome::Done(
                                entries_view(out@)[l].1,
                            ));
                            lemma_entries_map_at(s, l);
                        }
                    }
                    return Err(e);
                },
            }
            i += 1;
        }
        proof {
            assert(sorted_keys(entries_view(out@))) by {
                assert forall|a: int, b: int|
                    0 <= a < b < entries_view(out@).len() implies lex_lt(
                    (#[trigger] entries_view(out@)[a]).0,
                    (#[trigger] entries_view(out@)[b]).0,
                ) by {
                    assert(entries_view(out@)[a].0 == s[a].0);
                    assert(entries_view(out@)[b].0 == s[b].0);
                }
            }
        }
        let km2 = ConfigMap::from_entries(out);
        let c = Config { keys: km2 };
        proof {
            let t = c.keys.entries();
            assert(t.len() == s.len());
            assert forall|k: Seq<char>| #[trigger]
                c.map_view().contains_key(k) <==> km.contains_key(k) by {
                lemma_entries_map_domain(t, k);
                lemma_entries_map_domain(s, k);
                if exists|l: int| 0 <= l < t.len() && (#[trigger] t[l]).0 == k {
                    let l = choose|l: int| 0 <= l < t.len() && (#[trigger] t[l]).0 == k;
                    assert(s[l].0 == k);
                }
                if exists|l: int| 0 <= l < s.len() && (#[trigger] s[l]).0 == k {
                    let l = choose|l: int| 0 <= l < s.len() && (#[trigger] s[l]).0 == k;
                    assert(t[l].0 == k);
                }
            }
            assert forall|k: Seq<char>| #[trigger]
                km.contains_key(k) implies (subst(km[k], mm) matches SubstOutcome::Done(t2)
                && c.map_view()[k] == t2) by {
                lemma_entries_map_domain(s, k);
                let l = choose|l: int| 0 <= l < s.len() && (#[trigger] s[l]).0 == k;
                lemma_entries_map_at(s, l);
                assert(t[l].0 == k);
                lemma_entries_map_at(t, l);
            }
        }
        Ok(c)
    }
}

/// The final flat configuration namespace: immutable once built, keys
/// unique, iterated in lexicographic key order.
#[derive(Debug, Clone, PartialEq, Eq)]
pub struct Config {
    pub keys: ConfigMap,
}

impl Config {
    pub open spec fn map_view(self) -> Map<Seq<char>, Seq<char>> {
        self.keys.map_view()
    }

    pub open spec fn wf(self) -> bool {
        self.keys.wf()
    }

    /// Look a key up in the final namespace.
    pub fn get<'a>(&'a self, key: &str) -> (r: Option<&'a String>)
        requires
            self.wf(),
        ensures
            match r {
                Some(v) => self.map_view().contains_key(key@) && v@ == self.map_view()[key@],
                None => !self.map_view().contains_key(key@),
            },
    {
        self.keys.get(key)
    }

    /// Build the final namespace from the main file's parsed entries and the
    /// parsed entries of each included file, in include order. The caller
    /// obtains the include paths from [`Bootstrap::partition`], loads and
    /// parses each file, and hands the results here.
    pub fn init(main: &Vec<(String, String)>, included: &Vec<Vec<(String, String)>>) -> (r: Result<
        Config,
        BootstrapError,
    >)
        ensures
            (r matches Ok(c) ==> {
                let s = entries_view(main@);
                let fm = merged_all(plain_of(s), files_view(included@));
                &&& c.wf()
                &&& (forall|k: Seq<char>|
                    #[trigger] c.map_view().contains_key(k) <==> fm.contains_key(k))
                &&& (forall|k: Seq<char>|
                    #[trigger] fm.contains_key(k) ==> (subst(fm[k], macros_of(s))
                        matches SubstOutcome::Done(t) && c.map_view()[k] == t))
            }),
            (((forall|j: int|
                0 <= j < includes_of(entries_view(main@)).len() ==> subst(
                    #[trigger] includes_of(entries_view(main@))[j],
                    macros_of(entries_view(main@)),
                ) matches SubstOutcome::Done(_)) && (forall|k: Seq<char>| #[trigger] merged_all(
                plain_of(entries_view(main@)),
                files_view(included@),
            ).contains_key(k) ==> subst(
                merged_all(plain_of(entries_view(main@)), files_view(included@))[k],
                macros_of(entries_view(main@)),
            ) matches SubstOutcome::Done(_))) ==> r matches Ok(_)),
            (r matches Err(e) ==> {
                let s = entries_view(main@);
                let fm = merged_all(plain_of(s), files_view(included@));
                ||| (exists|j: int|
                    {
                        &&& 0 <= j < includes_of(s).len()
                        &&& !(subst(#[trigger] includes_of(s)[j], macros_of(s))
                            matches SubstOutcome::Done(_))
                        &&& (forall|l: int|
                            0 <= l < j ==> subst(#[trigger] includes_of(s)[l], macros_of(s))
                                matches SubstOutcome::Done(_))
                        &&& subst_error_for(
                            subst(includes_of(s)[j], macros_of(s)),
                            "include.files"@,
                            e,
                        )
                    })
                ||| (exists|k: Seq<char>|
                    {
                        &&& #[trigger] fm.contains_key(k)
                        &&& !(subst(fm[k], macros_of(s)) matches SubstOutcome::Done(_))
                        &&& subst_error_for(subst(fm[k], macros_of(s)), k, e)
                        &&& (forall|k2: Seq<char>|
                            #[trigger] fm.contains_key(k2) && lex_lt(k2, k) ==> subst(
                                fm[k2],
                                macros_of(s),
                            ) matches SubstOutcome::Done(_))
                    })
            }),
    {
        let ghost s = entries_view(main@);
        let ghost fv = files_view(included@);
        match Bootstrap::partition(main) {
            Err(e) => Err(e),
            Ok(mut b) => {
                let nf = included.len();
                let mut i: usize = 0;
                proof {
                    assert(fv.take(0) =~= Seq::empty());
                }
                while i < nf
                    invariant
                        0 <= i <= nf,
                        nf == included@.len(),
                        s == entries_view(main@),
                        fv == files_view(included@),
                        fv.len() == nf,
                        b.keys.wf(),
                        b.keys.map_view() == merged_all(plain_of(s), fv.take(i as int)),
                        macro_entries(b.macros) == macros_of(s),
                    decreases nf - i,
                {
                    proof {
                        assert(fv[i as int] == entries_view(included@[i as int]@));
                        assert(fv.take(i + 1).drop_last() =~= fv.take(i as int));
                        assert(fv.take(i + 1).last() == fv[i as int]);
                    }
                    b.merge(&included[i]);
                    i += 1;
                }
                proof {
                    assert(fv.take(nf as int) =~= fv);
                }
                b.finish()
            },
        }
    }
}

impl Default for Config {
    /// The empty namespace.
    fn default() -> (r: Config)
        ensures
            r.wf(),
            r.keys.entries() == no_pairs(),
    {
        Config { keys: ConfigMap::new() }
    }
}

/// Include requests are a set: entries with an equal path value collapse to
/// a single load, so the gathered include paths are pairwise distinct.
pub proof fn lemma_include_set_semantics(s: Seq<(Seq<char>, Seq<char>)>)
    ensures
        forall|i: int, j: int|
            0 <= i < j < includes_of(s).len() ==> #[trigger] includes_of(s)[i]
                != #[trigger] includes_of(s)[j],
    decreases s.len(),
{
    if s.len() > 0 {
        lemma_include_set_semantics(s.drop_last());
        let r = includes_of(s.drop_last());
        let p = s.last();
        if !is_macro_key(p.0) && is_include_key(p.0) && !r.contains(p.1) {
            assert forall|i: int, j: int|
                0 <= i < j < includes_of(s).len() implies #[trigger] includes_of(s)[i]
                != #[trigger] includes_of(s)[j] by {
                if j == includes_of(s).len() - 1 {
                    assert(includes_of(s)[i] == r[i]);
                    if r[i] == p.1 {
                        assert(r.contains(p.1));
                    }
                } else {
                    assert(includes_of(s)[i] == r[i] && includes_of(s)[j] == r[j]);
                }
            }
        }
    }
}

/// Partition consumes the directives: no plain working key taken from the
/// main file is itself a macro definition or an include request. (A
/// directive-looking key inside an included file is an ordinary plain key:
/// extraction is single-level by design.)
pub proof fn lemma_plain_keys_are_plain(s: Seq<(Seq<char>, Seq<char>)>, k: Seq<char>)
    requires
        plain_of(s).contains_key(k),
    ensures
        !is_macro_key(k),
        !is_include_key(k),
    decreases s.len(),
{
    if s.len() > 0 {
        let p = s.last();
        if !is_macro_key(p.0) && !is_include_key(p.0) {
            if k != p.0 {
                lemma_plain_keys_are_plain(s.drop_last(), k);
            }
        } else {
            lemma_plain_keys_are_plain(s.drop_last(), k);
        }
    }
}

/// The index of the last entry with a given key, or -1.
pub open spec fn last_index_with_key(s: Seq<(Seq<char>, Seq<char>)>, k: Seq<char>) -> int
    decreases s.len(),
{
    if s.len() == 0 {
        -1
    } else if s.last().0 == k {
        s.len() - 1
    } else {
        last_index_with_key(s.drop_last(), k)
    }
}

/// Merging is last-write-wins: a key set by any merged entry ends with the
/// value of the last entry that sets it, and a key set by none keeps its
/// base binding.
pub proof fn lemma_last_write_wins(
    base: Map<Seq<char>, Seq<char>>,
    s: Seq<(Seq<char>, Seq<char>)>,
    k: Seq<char>,
)
    ensures
        (exists|i: int| 0 <= i < s.len() && (#[trigger] s[i]).0 == k) ==> {
            &&& merged(base, s).contains_key(k)
            &&& 0 <= last_index_with_key(s, k) < s.len()
            &&& merged(base, s)[k] == s[last_index_with_key(s, k)].1
        },
        !(exists|i: int| 0 <= i < s.len() && (#[trigger] s[i]).0 == k) ==> {
            &&& (merged(base, s).contains_key(k) <==> base.contains_key(k))
            &&& (base.contains_key(k) ==> merged(base, s)[k] == base[k])
        },
    decreases s.len(),
{
    if s.len() > 0 {
        lemma_last_write_wins(base, s.drop_last(), k);
        if s.last().0 == k {
            assert(s[s.len() - 1].0 == k);
        } else {
            if exists|i: int| 0 <= i < s.len() && (#[trigger] s[i]).0 == k {
                let i = choose|i: int| 0 <= i < s.len() && (#[trigger] s[i]).0 == k;
                assert(i < s.len() - 1);
                assert(s.drop_last()[i].0 == k);
            }
            if exists|i: int| 0 <= i < s.drop_last().len() && (#[trigger] s.drop_last()[i]).0
                == k {
                let i = choose|i: int|
                    0 <= i < s.drop_last().len() && (#[trigger] s.drop_last()[i]).0 == k;
                assert(s[i].0 == k);
            }
        }
    }
}

} // verus!
