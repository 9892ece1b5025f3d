//! The macro table and the single-pass, non-recursive macro substitution
//! engine. A value may reference a macro as `%{name}%` (name case
//! insensitive); the replacement text is inserted verbatim and is not
//! scanned again, so expansion cannot recurse.

use vstd::prelude::*;

use crate::errors::BootstrapError;
use crate::text::{
    find_pair, find_pair_at, lemma_find_pair_bounds, lemma_find_pair_is, lemma_find_pair_none,
    lower, to_lowercase,
};

verus! {

/// Declares ahash::AHashMap, the hash map the macro table is kept in; its
/// contents are named by [`macro_entries`].
#[verifier::external_type_specification]
#[verifier::external_body]
#[verifier::reject_recursive_types(K)]
#[verifier::reject_recursive_types(V)]
#[verifier::reject_recursive_types(S)]
pub struct ExAHashMap<K, V, S>(ahash::AHashMap<K, V, S>);

/// Declares ahash::RandomState, the map's default hasher state.
#[verifier::external_type_specification]
#[verifier::external_body]
pub struct ExRandomState(ahash::RandomState);

/// The entries held by a macro table: lowercased macro name to replacement.
pub uninterp spec fn macro_entries(m: ahash::AHashMap<String, String, ahash::RandomState>) -> Map<
    Seq<char>,
    Seq<char>,
>;

/// The empty macro table contents.
pub open spec fn no_entries() -> Map<Seq<char>, Seq<char>> {
    Map::empty()
}

/// Relies on ahash::AHashMap::new: creates an empty map.
#[verifier::external_body]
pub fn macro_table_new() -> (r: ahash::AHashMap<String, String, ahash::RandomState>)
    ensures
        macro_entries(r) == no_entries(),
{
    ahash::AHashMap::new()
}

/// Relies on ahash::AHashMap::insert: binds the key to the value, replacing
/// any previous binding of an equal key.
#[verifier::external_body]
pub fn macro_table_insert(
    m: &mut ahash::AHashMap<String, String, ahash::RandomState>,
    name: String,
    value: String,
)
    ensures
        macro_entries(*final(m)) == macro_entries(*old(m)).insert(name@, value@),
{
    m.insert(name, value);
}

/// Relies on ahash::AHashMap::get: returns the value bound to an equal key,
/// if any.
#[verifier::external_body]
pub fn macro_table_get<'a>(
    m: &'a ahash::AHashMap<String, String, ahash::RandomState>,
    name: &String,
) -> (r: Option<&'a String>)
    ensures
        match r {
            Some(v) => macro_entries(*m).contains_key(name@) && v@ == macro_entries(*m)[name@],
            None => !macro_entries(*m).contains_key(name@),
        },
{
    m.get(name)
}

/// The outcome of substituting one value against a macro table.
pub enum SubstOutcome {
    /// Every reference resolved; the expanded text.
    Done(Seq<char>),
    /// A reference to this name (original case) is not in the table.
    Unknown(Seq<char>),
    /// An opening sentinel without a closing one; the remainder of the value
    /// from the start of the scan round that failed.
    Unterminated(Seq<char>),
}

/// Single-pass macro substitution. The text before each `%{` is copied
/// verbatim, the name between the sentinels is lowercased and looked up, and
/// the replacement is inserted without being scanned again.
pub open spec fn subst(v: Seq<char>, m: Map<Seq<char>, Seq<char>>) -> SubstOutcome
    decreases v.len(),
{
    let i = find_pair(v, '%', '{');
    if i < 0 {
        SubstOutcome::Done(v)
    } else {
        let rest = v.subrange(i + 2, v.len() as int);
        let j = find_pair(rest, '}', '%');
        if j < 0 {
            SubstOutcome::Unterminated(v)
        } else {
            let name = rest.subrange(0, j);
            if !m.contains_key(lower(name)) {
                SubstOutcome::Unknown(name)
            } else {
                proof {
                    lemma_find_pair_bounds(v, '%', '{');
                    lemma_find_pair_bounds(rest, '}', '%');
                }
                match subst(rest.subrange(j + 2, rest.len() as int), m) {
                    SubstOutcome::Done(t) => SubstOutcome::Done(
                        v.subrange(0, i) + m[lower(name)] + t,
                    ),
                    SubstOutcome::Unknown(n) => SubstOutcome::Unknown(n),
                    SubstOutcome::Unterminated(f) => SubstOutcome::Unterminated(f),
                }
            }
        }
    }
}

/// Whether `e` is the library error reporting the failed outcome `o` for the
/// value owned by `key`.
pub open spec fn subst_error_for(o: SubstOutcome, key: Seq<char>, e: BootstrapError) -> bool {
    match o {
        SubstOutcome::Done(_) => false,
        SubstOutcome::Unknown(n) => e matches BootstrapError::UnknownMacro { name, key: k }
            && name@ == n && k@ == key,
        SubstOutcome::Unterminated(f) => e matches BootstrapError::UnterminatedMacro {
            fragment,
            key: k,
        } && fragment@ == f && k@ == key,
    }
}

/// Expand every macro reference in `value` against `macros`; `key` names the
/// owning configuration key for error reporting.
pub fn replace_macros(
    key: &str,
    value: &str,
    macros: &ahash::AHashMap<String, String, ahash::RandomState>,
) -> (r: Result<String, BootstrapError>)
    ensures
        (subst(value@, macro_entries(*macros)) matches SubstOutcome::Done(t) ==> r matches Ok(s)
            && s@ == t),
        !(subst(value@, macro_entries(*macros)) matches SubstOutcome::Done(_)) ==> (r matches Err(
            e,
        ) && subst_error_for(subst(value@, macro_entries(*macros)), key@, e)),
    decreases value@.len(),
{
    let n = value.unicode_len();
    match find_pair_at(value, '%', '{') {
        None => Ok(value.to_owned()),
        Some(i) => {
            let rest = value.substring_char(i + 2, n);
            let rn = rest.unicode_len();
            match find_pair_at(rest, '}', '%') {
                None => Err(
                    BootstrapError::UnterminatedMacro {
                        fragment: value.to_owned(),
                        key: key.to_owned(),
                    },
                ),
                Some(j) => {
                    let name = rest.substring_char(0, j);
                    let lname = to_lowercase(name);
                    match macro_table_get(macros, &lname) {
                        None => Err(
                            BootstrapError::UnknownMacro {
                                name: name.to_owned(),
                                key: key.to_owned(),
                            },
                        ),
                        Some(mv) => {
                            let after = rest.substring_char(j + 2, rn);
                            match replace_macros(key, after, macros) {
                                Ok(tail) => {
                                    let mut out = value.substring_char(0, i).to_owned();
                                    out.append(mv.as_str());
                                    out.append(tail.as_str());
                                    Ok(out)
                                },
                                Err(e) => Err(e),
                            }
                        },
                    }
                },
            }
        },
    }
}

/// A value with no opening sentinel is returned untouched.
pub proof fn lemma_subst_no_sentinel_identity(v: Seq<char>, m: Map<Seq<char>, Seq<char>>)
    requires
        forall|i: int| 0 <= i && i + 1 < v.len() ==> !(#[trigger] v[i] == '%' && v[i + 1] == '{'),
    ensures
        subst(v, m) == SubstOutcome::Done(v),
{
    lemma_find_pair_none(v, '%', '{');
}

/// With a fixed macro table, substitution of the same input always yields
/// the same output.
pub proof fn lemma_subst_deterministic(
    v: Seq<char>,
    m: Map<Seq<char>, Seq<char>>,
    r1: Seq<char>,
    r2: Seq<char>,
)
    requires
        subst(v, m) == SubstOutcome::Done(r1),
        subst(v, m) == SubstOutcome::Done(r2),
    ensures
        r1 == r2,
{
}

/// Expansion is single-pass and non-recursive: a value that is exactly one
/// macro reference resolves to the table entry verbatim, whatever that entry
/// holds, so an entry holding sentinel-looking text is not expanded further.
pub proof fn lemma_subst_non_recursive(name: Seq<char>, m: Map<Seq<char>, Seq<char>>)
    requires
        m.contains_key(lower(name)),
        forall|i: int| 0 <= i && i + 1 < name.len() ==> !(#[trigger] name[i] == '}' && name[i + 1]
            == '%'),
    ensures
        subst(seq!['%', '{'] + name + seq!['}', '%'], m) == SubstOutcome::Done(m[lower(name)]),
{
    let v = seq!['%', '{'] + name + seq!['}', '%'];
    assert(v.len() == name.len() + 4);
    assert(v[0] == '%' && v[1] == '{');
    lemma_find_pair_is(v, '%', '{', 0);
    let rest = v.subrange(2, v.len() as int);
    assert(rest =~= name + seq!['}', '%']);
    let nl = name.len() as int;
    assert(rest[nl] == '}' && rest[nl + 1] == '%');
    assert forall|j: int| 0 <= j < nl implies !(#[trigger] rest[j] == '}' && rest[j + 1] == '%') by {
        if j < nl - 1 {
            assert(rest[j] == name[j] && rest[j + 1] == name[j + 1]);
        } else {
            assert(rest[j + 1] == '}');
        }
    }
    lemma_find_pair_is(rest, '}', '%', nl);
    assert(rest.subrange(0, nl) =~= name);
    let after = rest.subrange(nl + 2, rest.len() as int);
    assert(after =~= Seq::<char>::empty());
    lemma_find_pair_none(after, '%', '{');
    assert(subst(after, m) == SubstOutcome::Done(after));
    assert(v.subrange(0, 0) + m[lower(name)] + after =~= m[lower(name)]);
}

} // verus!
