//! Product editions that a key can be issued for.

use vstd::prelude::*;
use vstd::std_specs::convert::TryFromSpecImpl;

verus! {

/// An AIDA64 product edition.
#[derive(Debug, Copy, Clone, PartialEq, Eq, Structural)]
pub enum KeyEdition {
    Business,
    Extreme,
    Engineer,
    NetworkAudit,
}

/// The message of the error that an unknown edition gives.
pub open spec fn unknown_edition() -> &'static str {
    "Unknown edition"
}

impl KeyEdition {
    /// The number of the edition: 0 to 3 in declaration order.
    pub open spec fn spec_code(self) -> i32 {
        match self {
            KeyEdition::Business => 0,
            KeyEdition::Extreme => 1,
            KeyEdition::Engineer => 2,
            KeyEdition::NetworkAudit => 3,
        }
    }

    /// The edition with number `value`, if there is one.
    pub open spec fn from_code(value: i32) -> Option<KeyEdition> {
        if value == 0 {
            Some(KeyEdition::Business)
        } else if value == 1 {
            Some(KeyEdition::Extreme)
        } else if value == 2 {
            Some(KeyEdition::Engineer)
        } else if value == 3 {
            Some(KeyEdition::NetworkAudit)
        } else {
            None
        }
    }

    /// The edition that `name` selects, if any.
    pub open spec fn from_name(name: Seq<char>) -> Option<KeyEdition> {
        if name == "business"@ {
            Some(KeyEdition::Business)
        } else if name == "extreme"@ {
            Some(KeyEdition::Extreme)
        } else if name == "engineer"@ {
            Some(KeyEdition::Engineer)
        } else if name == "network"@ {
            Some(KeyEdition::NetworkAudit)
        } else {
            None
        }
    }

    /// The number of the edition.
    pub fn code(&self) -> (r: i32)
        ensures
            r == self.spec_code(),
    {
        match self {
            KeyEdition::Business => 0,
            KeyEdition::Extreme => 1,
            KeyEdition::Engineer => 2,
            KeyEdition::NetworkAudit => 3,
        }
    }
}

/// Every edition is found again from its number: `KeyEdition::try_from`
/// undoes `KeyEdition::code`, and the numbers 0 to 3 are exactly those in use.
pub proof fn lemma_edition_code_round_trip(edition: KeyEdition, value: i32)
    ensures
        KeyEdition::from_code(edition.spec_code()) == Some(edition),
        KeyEdition::from_code(value) is Some <==> 0 <= value <= 3,
        KeyEdition::from_code(value) matches Some(e) ==> e.spec_code() == value,
{
}

/// The edition with a given number.
impl TryFrom<i32> for KeyEdition {
    type Error = &'static str;

    fn try_from(value: i32) -> (r: Result<Self, Self::Error>) {
        match value {
            0 => Ok(KeyEdition::Business),
            1 => Ok(KeyEdition::Extreme),
            2 => Ok(KeyEdition::Engineer),
            3 => Ok(KeyEdition::NetworkAudit),
            _ => Err("Unknown edition"),
        }
    }
}

impl TryFromSpecImpl<i32> for KeyEdition {
    open spec fn obeys_try_from_spec() -> bool {
        true
    }

    open spec fn try_from_spec(value: i32) -> Result<Self, Self::Error> {
        match KeyEdition::from_code(value) {
            Some(e) => Ok(e),
            None => Err(unknown_edition()),
        }
    }
}

/// `a` and `b` hold the same characters.
fn same_chars(a: &str, b: &str) -> (r: bool)
    ensures
        r == (a@ == b@),
{
    let n = a.unicode_len();
    if n != b.unicode_len() {
        return false;
    }
    let mut i: usize = 0;
    while i < n
        invariant
            n == a@.len() == b@.len(),
            0 <= i <= n,
            forall|j: int| 0 <= j < i ==> a@[j] == b@[j],
        decreases n - i,
    {
        if a.get_char(i) != b.get_char(i) {
            return false;
        }
        i = i + 1;
    }
    assert(a@ =~= b@);
    true
}

/// The edition with a given lower-case name.
impl<'a> TryFrom<&'a str> for KeyEdition {
    type Error = &'static str;

    fn try_from(value: &'a str) -> (r: Result<Self, Self::Error>) {
        if same_chars(value, "business") {
            Ok(KeyEdition::Business)
        } else if same_chars(value, "extreme") {
            Ok(KeyEdition::Extreme)
        } else if same_chars(value, "engineer") {
            Ok(KeyEdition::Engineer)
        } else if same_chars(value, "network") {
            Ok(KeyEdition::NetworkAudit)
        } else {
            Err("Unknown edition")
        }
    }
}

impl<'a> TryFromSpecImpl<&'a str> for KeyEdition {
    open spec fn obeys_try_from_spec() -> bool {
        true
    }

    open spec fn try_from_spec(value: &'a str) -> Result<Self, Self::Error> {
        match KeyEdition::from_name(value@) {
            Some(e) => Ok(e),
            None => Err(unknown_edition()),
        }
    }
}

} // verus!
