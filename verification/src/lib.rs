//! An in-memory phonebook: contact records kept in ascending order of their
//! identifiers, with unique name keys on insertion and deterministic
//! identifier allocation.

pub mod directory;
pub mod error;
pub mod ident;
pub mod laws;
pub mod order;
pub mod person;
pub mod store;
pub mod text;

pub use directory::{JsonFile2, Phonebook};
pub use error::StoreError;
pub use person::{views, Person, PersonID, PersonView};
pub use store::JsonFile;
