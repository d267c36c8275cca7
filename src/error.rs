use vstd::prelude::*;

verus! {

/// What can go wrong while taking a snapshot or moving an object.
#[derive(Debug, Clone, PartialEq, Eq)]
pub enum Error {
    /// A value that was expected is missing (a listing line without enough fields).
    NoneError,
    /// Markup or an address that could not be understood.
    ParseError,
    /// An operation ran past its deadline.
    TimeoutError,
    /// A request or connection failed.
    HttpError(String),
    /// The external listing process could not be run.
    ProcessError(String),
    /// The external listing process ended without success, with its exit code if it had one.
    ProcessExit(Option<i32>),
}

} // verus!
