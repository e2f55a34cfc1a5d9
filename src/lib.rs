//! A registry of labelled account addresses, the derivation of program addresses
//! from seeds, and the rewriting of raw addresses in text into their labels.

pub mod address_book;
pub mod error;
pub mod key;
pub mod pda_seeds;
pub mod registered_address;
pub mod rewrite;
pub mod style;

pub use address_book::AddressBook;
pub use error::AddressBookError;
pub use key::Key;
pub use pda_seeds::{
    find_pda_with_bump, find_pda_with_bump_and_strings, seed_to_string, DerivedPda, SeedPart,
};
pub use registered_address::{AddressRole, RegisteredAddress};
