//! The error taxonomy of the store.
use vstd::prelude::*;

verus! {

/// What can go wrong in an operation of the store.
///
/// An absent note is never an error: `get` answers `None`, and `update` and
/// `delete` answer `false`.
#[derive(Debug, Clone)]
pub enum Error {
    /// Bad input: an empty title, an invalid search pattern.
    Validation(String),
    /// A storage failure: the environment or a corrupt record.
    Database(String),
    /// A requested item does not exist.
    NotFound(String),
    /// An invariant of the store was found broken.
    Internal(String),
}

impl Error {
    /// The label of the error's class and its detail.
    pub open spec fn parts(&self) -> (Seq<char>, Seq<char>) {
        match self {
            Error::Validation(m) => ("validation error: "@, m@),
            Error::Database(m) => ("database error: "@, m@),
            Error::NotFound(m) => ("not found: "@, m@),
            Error::Internal(m) => ("internal error: "@, m@),
        }
    }

    /// The error's class and message, as a user sees it.
    pub fn message(&self) -> (r: String)
        ensures
            r@ == self.parts().0 + self.parts().1,
    {
        let (prefix, detail) = match self {
            Error::Validation(m) => ("validation error: ", m),
            Error::Database(m) => ("database error: ", m),
            Error::NotFound(m) => ("not found: ", m),
            Error::Internal(m) => ("internal error: ", m),
        };
        let mut r = String::from_str(prefix);
        r.append(detail.as_str());
        r
    }
}

} // verus!
