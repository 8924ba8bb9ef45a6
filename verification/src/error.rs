use vstd::prelude::*;

verus! {

/// The errors that the note lookup answers with.
#[derive(Debug)]
pub enum AppError {
    /// Nothing was found; the text says what.
    NotFound(String),
    /// The request cannot be answered for this caller; the text says why.
    Unauthorized(String),
}

} // verus!
