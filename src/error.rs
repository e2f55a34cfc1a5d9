//! The errors of the registry and of address derivation.

use vstd::prelude::*;

verus! {

/// What can go wrong when registering or deriving an address.
#[derive(Debug)]
pub enum AddressBookError {
    /// The label is already bound to another address or role.
    DuplicateLabel(String),
    /// A seed is longer than the derivation accepts.
    SeedTooLong,
    /// The bump search found no address: no bump seed gave an address off the
    /// curve, or more seeds were given than the derivation takes (it takes at most
    /// 16 with the bump seed, so 15 of the caller's).
    DiscriminatorExhausted,
}

impl AddressBookError {
    /// Whether this is the duplicate-label error for the given label.
    pub open spec fn is_duplicate_of(&self, label: Seq<char>) -> bool {
        self matches AddressBookError::DuplicateLabel(l) && l@ == label
    }

    /// A sentence that says what went wrong.
    pub fn message(&self) -> (r: String)
        ensures
            self matches AddressBookError::DuplicateLabel(l) ==> r@ == "Label '"@ + l@
                + "' already exists in address book"@,
            self is SeedTooLong ==> r@ == "A seed is longer than 32 bytes"@,
            self is DiscriminatorExhausted ==> r@
                == "Unable to find a viable program address bump seed"@,
    {
        match self {
            AddressBookError::DuplicateLabel(l) => {
                let s = String::from_str("Label '");
                let s = s.concat(l.as_str());
                s.concat("' already exists in address book")
            },
            AddressBookError::SeedTooLong => String::from_str("A seed is longer than 32 bytes"),
            AddressBookError::DiscriminatorExhausted => String::from_str(
                "Unable to find a viable program address bump seed",
            ),
        }
    }
}

} // verus!
