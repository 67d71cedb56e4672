//! The sizes of the argument types that a schema names.
//!
//! A schema gives each event argument a type name and nothing more. How many
//! bytes a value of that type takes on the wire is told by a `SizeRule`.
//! Some names have a rule built in; for the others the caller registers one.

use crate::codec::compact_u32;
use crate::error::RegistrationError;
use crate::text::same_text;
use vstd::prelude::*;

verus! {

/// How the bytes of one value are delimited on the wire.
#[derive(Debug, Clone, Copy, PartialEq, Eq, Structural)]
pub enum SizeRule {
    /// The value takes exactly this many bytes.
    Fixed(usize),
    /// The value is a compact-encoded count followed by that many items of
    /// this many bytes each.
    Sequence(usize),
}

impl SizeRule {
    /// A rule describes a size when its width is not zero.
    pub open spec fn is_valid(self) -> bool {
        match self {
            SizeRule::Fixed(width) => width > 0,
            SizeRule::Sequence(width) => width > 0,
        }
    }

    /// The number of bytes that the value at the head of `s` takes under this
    /// rule, or `None` where `s` does not hold the whole value.
    pub open spec fn span(self, s: Seq<u8>) -> Option<nat> {
        match self {
            SizeRule::Fixed(width) => if width <= s.len() {
                Some(width as nat)
            } else {
                None
            },
            SizeRule::Sequence(width) => match compact_u32(s) {
                Some((count, prefix)) => if prefix + count * width <= s.len() {
                    Some((prefix + count * width) as nat)
                } else {
                    None
                },
                None => None,
            },
        }
    }

    /// Whether the rule describes a size.
    pub fn valid(&self) -> (ok: bool)
        ensures
            ok == self.is_valid(),
    {
        match self {
            SizeRule::Fixed(width) => *width > 0,
            SizeRule::Sequence(width) => *width > 0,
        }
    }
}

/// The rule that is built in for `name`, if there is one: the integer types
/// and `bool` by their width, account identifiers and hashes as 32 bytes, and
/// byte strings as a sequence of single bytes.
pub open spec fn builtin_rule(name: Seq<char>) -> Option<SizeRule> {
    if name == "bool"@ || name == "u8"@ || name == "i8"@ {
        Some(SizeRule::Fixed(1))
    } else if name == "u16"@ || name == "i16"@ {
        Some(SizeRule::Fixed(2))
    } else if name == "u32"@ || name == "i32"@ {
        Some(SizeRule::Fixed(4))
    } else if name == "u64"@ || name == "i64"@ {
        Some(SizeRule::Fixed(8))
    } else if name == "u128"@ || name == "i128"@ {
        Some(SizeRule::Fixed(16))
    } else if name == "AccountId"@ || name == "Hash"@ {
        Some(SizeRule::Fixed(32))
    } else if name == "Vec<u8>"@ {
        Some(SizeRule::Sequence(1))
    } else {
        None
    }
}

/// The rule that is built in for `name`, if there is one.
pub fn builtin(name: &str) -> (rule: Option<SizeRule>)
    ensures
        rule == builtin_rule(name@),
{
    if same_text(name, "bool") || same_text(name, "u8") || same_text(name, "i8") {
        Some(SizeRule::Fixed(1))
    } else if same_text(name, "u16") || same_text(name, "i16") {
        Some(SizeRule::Fixed(2))
    } else if same_text(name, "u32") || same_text(name, "i32") {
        Some(SizeRule::Fixed(4))
    } else if same_text(name, "u64") || same_text(name, "i64") {
        Some(SizeRule::Fixed(8))
    } else if same_text(name, "u128") || same_text(name, "i128") {
        Some(SizeRule::Fixed(16))
    } else if same_text(name, "AccountId") || same_text(name, "Hash") {
        Some(SizeRule::Fixed(32))
    } else if same_text(name, "Vec<u8>") {
        Some(SizeRule::Sequence(1))
    } else {
        None
    }
}

#[derive(Debug)]
struct Entry {
    name: String,
    rule: SizeRule,
}

/// The rule of the last entry that carries `name`.
spec fn lookup(entries: Seq<Entry>, name: Seq<char>) -> Option<SizeRule>
    decreases entries.len(),
{
    if entries.len() == 0 {
        None
    } else if entries.last().name@ == name {
        Some(entries.last().rule)
    } else {
        lookup(entries.drop_last(), name)
    }
}

proof fn lemma_lookup_push(entries: Seq<Entry>, entry: Entry, name: Seq<char>)
    ensures
        lookup(entries.push(entry), name) == if entry.name@ == name {
            Some(entry.rule)
        } else {
            lookup(entries, name)
        },
{
    assert(entries.push(entry).drop_last() =~= entries);
}

/// The rules that a caller has registered, by type name.
///
/// A registry is made for one decoding task and handed to the decoder with
/// each call; nothing is shared between registries.
#[derive(Debug)]
pub struct TypeSizeRegistry {
    entries: Vec<Entry>,
}

impl View for TypeSizeRegistry {
    type V = Map<Seq<char>, SizeRule>;

    /// The registered names, each with its rule.
    closed spec fn view(&self) -> Map<Seq<char>, SizeRule> {
        Map::new(
            |name: Seq<char>| lookup(self.entries@, name) is Some,
            |name: Seq<char>| lookup(self.entries@, name).unwrap(),
        )
    }
}

/// The rule that `name` resolves to where `registered` holds the caller's
/// registrations: the built-in one where there is one, else the registered
/// one.
pub open spec fn resolved(registered: Map<Seq<char>, SizeRule>, name: Seq<char>) -> Option<
    SizeRule,
> {
    match builtin_rule(name) {
        Some(rule) => Some(rule),
        None => if registered.contains_key(name) {
            Some(registered[name])
        } else {
            None
        },
    }
}

/// What registering `rule` under `name` does to `registered`: the
/// registrations afterwards, or the reason for which they stay as they are.
///
/// A rule of width zero is turned down. A name that already resolves to the
/// same rule, built in or registered, is accepted and changes nothing; one
/// that resolves to another rule is turned down.
pub open spec fn registration(
    registered: Map<Seq<char>, SizeRule>,
    name: Seq<char>,
    rule: SizeRule,
) -> Result<Map<Seq<char>, SizeRule>, RegistrationError> {
    if !rule.is_valid() {
        Err(RegistrationError::InvalidSize)
    } else {
        match resolved(registered, name) {
            Some(bound) => if bound == rule {
                Ok(registered)
            } else {
                Err(RegistrationError::Conflict)
            },
            None => Ok(registered.insert(name, rule)),
        }
    }
}

/// Registering a name a second time with the rule that it was registered
/// with changes nothing, and with any other rule it is turned down as a
/// conflict.
pub proof fn lemma_registering_twice(
    registered: Map<Seq<char>, SizeRule>,
    name: Seq<char>,
    rule: SizeRule,
    other: SizeRule,
)
    requires
        registration(registered, name, rule) is Ok,
    ensures
        ({
            let once = registration(registered, name, rule)->Ok_0;
            &&& resolved(once, name) == Some(rule)
            &&& registration(once, name, rule) == Ok::<_, RegistrationError>(once)
            &&& other.is_valid() && other != rule ==> registration(once, name, other) == Err::<
                Map<Seq<char>, SizeRule>,
                _,
            >(RegistrationError::Conflict)
        }),
{
}

impl TypeSizeRegistry {
    /// A registry with no registration.
    pub fn new() -> (registry: Self)
        ensures
            registry@ == Map::<Seq<char>, SizeRule>::empty(),
    {
        let registry = TypeSizeRegistry { entries: Vec::new() };
        assert(registry@ =~= Map::<Seq<char>, SizeRule>::empty());
        registry
    }

    /// The rule that `name` resolves to, built-in rules first.
    pub fn resolve(&self, name: &str) -> (rule: Option<SizeRule>)
        ensures
            rule == resolved(self@, name@),
    {
        match builtin(name) {
            Some(rule) => {
                return Some(rule);
            },
            None => {},
        }
        let mut i: usize = self.entries.len();
        assert(self.entries@.take(i as int) =~= self.entries@);
        while i > 0
            invariant
                i <= self.entries@.len(),
                builtin_rule(name@) is None,
                lookup(self.entries@, name@) == lookup(self.entries@.take(i as int), name@),
            decreases i,
        {
            i = i - 1;
            assert(self.entries@.take(i + 1).drop_last() =~= self.entries@.take(i as int));
            assert(self.entries@.take(i + 1).last() == self.entries@[i as int]);
            if same_text(self.entries[i].name.as_str(), name) {
                return Some(self.entries[i].rule);
            }
        }
        None
    }

    /// Binds `name` to `rule`, as `registration` says. Where the
    /// registration is turned down the registry stays as it was.
    pub fn register(&mut self, name: &str, rule: SizeRule) -> (r: Result<(), RegistrationError>)
        ensures
            match registration(old(self)@, name@, rule) {
                Ok(registered) => r is Ok && final(self)@ == registered,
                Err(reason) => r == Err::<(), _>(reason) && final(self)@ == old(self)@,
            },
    {
        if !rule.valid() {
            return Err(RegistrationError::InvalidSize);
        }
        match self.resolve(name) {
            Some(bound) => {
                if bound == rule {
                    Ok(())
                } else {
                    Err(RegistrationError::Conflict)
                }
            },
            None => {
                let entry = Entry { name: name.to_owned(), rule };
                proof {
                    assert forall|n: Seq<char>|
                        lookup(self.entries@.push(entry), n) == if n == name@ {
                            Some(rule)
                        } else {
                            lookup(self.entries@, n)
                        } by {
                        lemma_lookup_push(self.entries@, entry, n);
                    }
                }
                self.entries.push(entry);
                assert(self@ =~= old(self)@.insert(name@, rule));
                Ok(())
            },
        }
    }
}

} // verus!
