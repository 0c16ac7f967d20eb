//! The requests and responses a server and its clients exchange.

use vstd::prelude::*;

verus! {

/// A request of the wire protocol: one per JSON document. `Put` travels under
/// the name `Set`.
#[derive(Debug, Clone, PartialEq, Eq)]
pub enum Request {
    Put { key: String, value: String },
    Get { key: String },
    Remove { key: String },
}

/// The answer to a request, of the same kind; an error travels as its text.
#[derive(Debug, PartialEq, Eq)]
pub enum Response {
    Put(Result<(), String>),
    Get(Result<Option<String>, String>),
    Remove(Result<(), String>),
}

} // verus!
