//! The ways in which an operation on the phonebook can fail.

use vstd::prelude::*;

verus! {

/// Why an operation was refused.
#[derive(Debug)]
pub enum StoreError {
    /// The file could not be opened, read, locked, written or unlocked; the
    /// text says what the system reported.
    Io(String),
    /// The file does not hold a phonebook; the text says what the parser
    /// reported.
    Json(String),
    /// A record came with an identifier, and only the store gives these out.
    InvalidId,
    /// A record came with a name that holds no word.
    MissingName,
    /// A record came with a name that collides with a stored one.
    DuplicateName,
    /// No record has the identifier that was asked for.
    NotFound,
}

impl StoreError {
    /// Whether the fault lies with the store or its file, and not with what
    /// the caller asked for.
    pub open spec fn is_internal(&self) -> bool {
        self is Io || self is Json
    }

    /// The HTTP status under which the error is reported: 500 for a fault of
    /// the store or its file, 400 for a request that cannot be met.
    pub fn status_code(&self) -> (code: u16)
        ensures
            code == if self.is_internal() {
                500u16
            } else {
                400u16
            },
    {
        match self {
            StoreError::Io(_) => 500,
            StoreError::Json(_) => 500,
            _ => 400,
        }
    }

    /// The text of the error, as a spec value.
    pub open spec fn text(&self) -> Seq<char> {
        match self {
            StoreError::Io(_) => "IO ERROR HAPPENED!"@,
            StoreError::Json(_) => "JSON ERROR"@,
            StoreError::InvalidId => "Person ID must not be provided"@,
            StoreError::MissingName => "First name missing"@,
            StoreError::DuplicateName => "Duplicate name"@,
            StoreError::NotFound => "id does not exist"@,
        }
    }

    /// The text of the error.
    pub fn message(&self) -> (m: String)
        ensures
            m@ == self.text(),
    {
        match self {
            StoreError::Io(_) => "IO ERROR HAPPENED!".to_owned(),
            StoreError::Json(_) => "JSON ERROR".to_owned(),
            StoreError::InvalidId => "Person ID must not be provided".to_owned(),
            StoreError::MissingName => "First name missing".to_owned(),
            StoreError::DuplicateName => "Duplicate name".to_owned(),
            StoreError::NotFound => "id does not exist".to_owned(),
        }
    }
}

} // verus!
