//! The error type of the library: a flat message, as the shell-facing
//! commands report errors.

use vstd::prelude::*;

verus! {

/// An error carrying a flat message.
#[derive(Debug)]
pub enum AppError {
    Message(String),
}

/// The message characters of an error.
pub open spec fn err_chars(e: AppError) -> Seq<char> {
    match e {
        AppError::Message(m) => m@,
    }
}

impl AppError {
    /// The error's message as a fresh string.
    pub fn message(&self) -> (r: String)
        ensures
            r@ == err_chars(*self),
    {
        match self {
            AppError::Message(m) => m.clone(),
        }
    }
}

} // verus!
