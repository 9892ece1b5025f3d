//! Runtime templates: a `DynValue` mixes literal text with fragments
//! resolved per connection through a `KeyLookup` capability. Resolution is
//! total — an out-of-range position or an implementor's missing value
//! degrades to a default instead of failing, because a malformed template
//! must not abort a live connection.

use vstd::prelude::*;

use crate::config::strings_view;
use crate::text::str_eq;

verus! {

/// The first value paired with `k`, or the empty string.
pub open spec fn first_value_for(s: Seq<(Seq<char>, Seq<char>)>, k: Seq<char>) -> Seq<char>
    decreases s.len(),
{
    if s.len() == 0 {
        Seq::empty()
    } else if s[0].0 == k {
        s[0].1
    } else {
        first_value_for(s.drop_first(), k)
    }
}

/// An IP address held as plain values.
#[derive(Debug, Clone, Copy, PartialEq, Eq, Structural)]
pub enum IpValue {
    V4(u8, u8, u8, u8),
    V6(u16, u16, u16, u16, u16, u16, u16, u16),
}

impl IpValue {
    /// The unspecified address, 0.0.0.0.
    pub fn unspecified() -> (r: IpValue)
        ensures
            r == IpValue::V4(0, 0, 0, 0),
    {
        IpValue::V4(0, 0, 0, 0)
    }
}

/// A capability resolving a typed key, given a runtime context, to a
/// string, an integer or an IP address, chosen by the accessor the caller
/// expects. Implementors state what each accessor returns through the
/// paired spec functions.
pub trait KeyLookup {
    type Key;

    /// What the string accessor returns.
    spec fn key_spec(&self, key: &Self::Key) -> Seq<char>;

    /// What the integer accessor returns.
    spec fn key_as_int_spec(&self, key: &Self::Key) -> i32;

    /// What the IP accessor returns.
    spec fn key_as_ip_spec(&self, key: &Self::Key) -> IpValue;

    fn key(&self, key: &Self::Key) -> (r: String)
        ensures
            r@ == self.key_spec(key),
    ;

    fn key_as_int(&self, key: &Self::Key) -> (r: i32)
        ensures
            r == self.key_as_int_spec(key),
    ;

    fn key_as_ip(&self, key: &Self::Key) -> (r: IpValue)
        ensures
            r == self.key_as_ip_spec(key),
    ;
}

/// The no-op lookup for defaults and testing: every key resolves to the
/// empty string, zero, or the unspecified address.
impl KeyLookup for () {
    type Key = String;

    open spec fn key_spec(&self, key: &String) -> Seq<char> {
        Seq::empty()
    }

    open spec fn key_as_int_spec(&self, key: &String) -> i32 {
        0
    }

    open spec fn key_as_ip_spec(&self, key: &String) -> IpValue {
        IpValue::V4(0, 0, 0, 0)
    }

    fn key(&self, _key: &String) -> (r: String) {
        String::new()
    }

    fn key_as_int(&self, _key: &String) -> (r: i32) {
        0
    }

    fn key_as_ip(&self, _key: &String) -> (r: IpValue) {
        IpValue::V4(0, 0, 0, 0)
    }
}

/// A fixed, table-backed lookup context: a string key resolves to the first
/// value paired with it, or to the defaults when it is absent.
pub struct TableLookup {
    pub entries: Vec<(String, String)>,
}

impl KeyLookup for TableLookup {
    type Key = String;

    open spec fn key_spec(&self, key: &String) -> Seq<char> {
        first_value_for(crate::keymap::entries_view(self.entries@), key@)
    }

    open spec fn key_as_int_spec(&self, key: &String) -> i32 {
        0
    }

    open spec fn key_as_ip_spec(&self, key: &String) -> IpValue {
        IpValue::V4(0, 0, 0, 0)
    }

    fn key(&self, key: &String) -> (r: String) {
        let ghost s = crate::keymap::entries_view(self.entries@);
        let n = self.entries.len();
        let mut i: usize = 0;
        proof {
            assert(s.skip(0) =~= s);
        }
        while i < n
            invariant
                0 <= i <= n,
                n == self.entries@.len(),
                s == crate::keymap::entries_view(self.entries@),
                first_value_for(s, key@) == first_value_for(s.skip(i as int), key@),
            decreases n - i,
        {
            proof {
                assert(s.skip(i as int)[0] == s[i as int]);
                assert(s.skip(i as int).drop_first() =~= s.skip(i + 1));
            }
            if str_eq(self.entries[i].0.as_str(), key.as_str()) {
                return self.entries[i].1.clone();
            }
            i += 1;
        }
        proof {
            assert(s.skip(n as int) =~= Seq::<(Seq<char>, Seq<char>)>::empty());
        }
        String::new()
    }

    fn key_as_int(&self, _key: &String) -> (r: i32) {
        0
    }

    fn key_as_ip(&self, _key: &String) -> (r: IpValue) {
        IpValue::V4(0, 0, 0, 0)
    }
}

/// A typed runtime template: literal text, positional arguments, typed keys
/// and ordered concatenation.
#[derive(Debug)]
pub enum DynValue<T> {
    /// A literal fragment.
    Literal(String),
    /// An index into the caller-supplied positional argument list.
    Position(usize),
    /// A typed key resolved through the active lookup context.
    Key(T),
    /// The concatenation, in order, of each item's resolution.
    List(Vec<DynValue<T>>),
}

/// What resolving a template against positional arguments and a lookup
/// context yields. An out-of-range position yields the empty string.
pub open spec fn resolve_spec<T, C: KeyLookup<Key = T>>(
    d: DynValue<T>,
    args: Seq<Seq<char>>,
    ctx: &C,
) -> Seq<char>
    decreases d,
{
    match d {
        DynValue::Literal(s) => s@,
        DynValue::Position(i) => if (i as int) < args.len() {
            args[i as int]
        } else {
            Seq::empty()
        },
        DynValue::Key(k) => ctx.key_spec(&k),
        DynValue::List(items) => resolve_list_spec(items@, args, ctx),
    }
}

/// The concatenation of each item's resolution, in order.
pub open spec fn resolve_list_spec<T, C: KeyLookup<Key = T>>(
    items: Seq<DynValue<T>>,
    args: Seq<Seq<char>>,
    ctx: &C,
) -> Seq<char>
    decreases items,
{
    if items.len() == 0 {
        Seq::empty()
    } else {
        resolve_spec(items[0], args, ctx) + resolve_list_spec(items.drop_first(), args, ctx)
    }
}

impl<T> DynValue<T> {
    /// Resolve the template. Total: it never fails, whatever the template,
    /// the arguments or the context.
    pub fn resolve<C: KeyLookup<Key = T>>(&self, args: &Vec<String>, ctx: &C) -> (r: String)
        ensures
            r@ == resolve_spec(*self, strings_view(args@), ctx),
        decreases *self,
    {
        match self {
            DynValue::Literal(s) => s.clone(),
            DynValue::Position(i) => {
                if *i < args.len() {
                    proof {
                        assert(strings_view(args@)[*i as int] == args@[*i as int]@);
                    }
                    args[*i].clone()
                } else {
                    String::new()
                }
            },
            DynValue::Key(k) => ctx.key(k),
            DynValue::List(items) => {
                let ghost sv = strings_view(args@);
                let mut out = String::new();
                let n = items.len();
                let mut idx: usize = 0;
                proof {
                    assert(items@.skip(0) =~= items@);
                    assert(Seq::<char>::empty() + resolve_list_spec(items@, sv, ctx)
                        =~= resolve_list_spec(items@, sv, ctx));
                }
                while idx < n
                    invariant
                        *self == DynValue::<T>::List(*items),
                        0 <= idx <= n,
                        n == items@.len(),
                        sv == strings_view(args@),
                        resolve_list_spec(items@, sv, ctx) == out@ + resolve_list_spec(
                            items@.skip(idx as int),
                            sv,
                            ctx,
                        ),
                    decreases n - idx,
                {
                    proof {
                        assert(*self == DynValue::<T>::List(*items));
                        assert(decreases_to!(*self => (*self)->List_0));
                        assert((*self)->List_0 == *items);
                        assert(decreases_to!(*items => items@));
                        assert(decreases_to!(items@ => items@[idx as int]));
                        assert(decreases_to!(*self => items@[idx as int]));
                    }
                    let piece = items[idx].resolve(args, ctx);
                    proof {
                        assert(items@.skip(idx as int)[0] == items@[idx as int]);
                        assert(items@.skip(idx as int).drop_first() =~= items@.skip(idx + 1));
                        assert(out@ + (piece@ + resolve_list_spec(items@.skip(idx + 1), sv, ctx))
                            =~= (out@ + piece@) + resolve_list_spec(items@.skip(idx + 1), sv, ctx));
                    }
                    out.append(piece.as_str());
                    idx += 1;
                }
                proof {
                    assert(items@.skip(n as int) =~= Seq::<DynValue<T>>::empty());
                    assert(out@ + Seq::<char>::empty() =~= out@);
                }
                out
            },
        }
    }
}

} // verus!
