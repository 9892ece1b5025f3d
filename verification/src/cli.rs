//! Command-line resolution of the configuration path: `--config=<path>`
//! (value trimmed) or `--config <path>`, first occurrence winning; any other
//! token met before a config flag is a fatal usage error, and so is an
//! argument list that yields no path at all.

use vstd::prelude::*;

use crate::config::strings_view;
use crate::errors::BootstrapError;
use crate::text::{find_char, find_char_at, has_prefix, trim, trim_spec};

verus! {

/// The outcome of scanning an argument list.
pub enum CliOutcome {
    /// The resolved path.
    Found(Seq<char>),
    /// The offending token (for `key=value` tokens, the key part).
    Invalid(Seq<char>),
    /// No path was resolved.
    Missing,
}

/// Scan the argument list (program name already skipped). A token
/// `--config…=<value>` resolves to the trimmed value; a bare token right
/// after a `--config…` flag resolves verbatim; any other token is invalid.
pub open spec fn cli_resolve(args: Seq<Seq<char>>, found: bool) -> CliOutcome
    decreases args.len(),
{
    if args.len() == 0 {
        CliOutcome::Missing
    } else {
        let a = args[0];
        let eq = find_char(a, '=');
        if eq >= 0 {
            let key = a.subrange(0, eq);
            if key.len() >= 8 && key.subrange(0, 8) == "--config"@ {
                CliOutcome::Found(trim_spec(a.subrange(eq + 1, a.len() as int)))
            } else {
                CliOutcome::Invalid(key)
            }
        } else if found {
            CliOutcome::Found(a)
        } else if a.len() >= 8 && a.subrange(0, 8) == "--config"@ {
            cli_resolve(args.drop_first(), true)
        } else {
            CliOutcome::Invalid(a)
        }
    }
}

/// Resolve the configuration path: a pre-supplied path wins; otherwise the
/// argument list (without the program name) is scanned.
pub fn resolve_config_path(supplied: Option<String>, args: &Vec<String>) -> (r: Result<
    String,
    BootstrapError,
>)
    ensures
        (supplied matches Some(p) ==> (r matches Ok(q) && q == p)),
        (supplied is None ==> {
            &&& (cli_resolve(strings_view(args@), false) matches CliOutcome::Found(t) ==> (r
                matches Ok(q) && q@ == t))
            &&& (cli_resolve(strings_view(args@), false) matches CliOutcome::Invalid(t) ==> (r
                matches Err(e) && e matches BootstrapError::UsageError { argument } && argument
                matches Some(bad) && bad@ == t))
            &&& (cli_resolve(strings_view(args@), false) is Missing ==> (r matches Err(e) && e
                matches BootstrapError::UsageError { argument } && argument is None))
        }),
{
    match supplied {
        Some(p) => Ok(p),
        None => {
            proof {
                assert(supplied is None);
                reveal_strlit("--config");
            }
            let n = args.len();
            let mut i: usize = 0;
            let mut found = false;
            proof {
                assert(strings_view(args@).skip(0) =~= strings_view(args@));
            }
            while i < n
                invariant
                    supplied is None,
                    0 <= i <= n,
                    n == args@.len(),
                    cli_resolve(strings_view(args@), false) == cli_resolve(
                        strings_view(args@).skip(i as int),
                        found,
                    ),
                decreases n - i,
            {
                let ghost rem = strings_view(args@).skip(i as int);
                proof {
                    assert(rem.len() == n - i);
                    assert(rem[0] == args@[i as int]@);
                    assert(rem.drop_first() =~= strings_view(args@).skip(i + 1));
                    reveal_strlit("--config");
                }
                let a = &args[i];
                match find_char_at(a.as_str(), '=') {
                    Some(eq) => {
                        let key = a.as_str().substring_char(0, eq);
                        if has_prefix(key, "--config") {
                            let alen = a.as_str().unicode_len();
                            let value = a.as_str().substring_char(eq + 1, alen);
                            return Ok(trim(value));
                        } else {
                            return Err(
                                BootstrapError::UsageError { argument: Some(key.to_owned()) },
                            );
                        }
                    },
                    None => {
                        if found {
                            return Ok(a.clone());
                        } else if has_prefix(a.as_str(), "--config") {
                            found = true;
                        } else {
                            return Err(BootstrapError::UsageError { argument: Some(a.clone()) });
                        }
                    },
                }
                i += 1;
            }
            proof {
                assert(strings_view(args@).skip(n as int) =~= Seq::<Seq<char>>::empty());
            }
            Err(BootstrapError::UsageError { argument: None })
        },
    }
}

} // verus!
