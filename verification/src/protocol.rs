//! The answers that a server gives: how the outcome of each operation is
//! put into a response.

use crate::common::{Response, ResponseView};
use crate::error::KvsError;
use vstd::prelude::*;

verus! {

/// Which storage backend a server runs on.
#[derive(Debug, Clone, Copy, PartialEq, Eq, Structural)]
pub enum Engine {
    Kvs,
    Sled,
}

impl Engine {
    /// The lower-case name of the backend.
    pub open spec fn spec_name(self) -> Seq<char> {
        match self {
            Engine::Kvs => "kvs"@,
            Engine::Sled => "sled"@,
        }
    }

    /// The lower-case name of the backend, as it is written on a command line.
    pub fn name(&self) -> (text: String)
        ensures
            text@ == self.spec_name(),
    {
        match self {
            Engine::Kvs => "kvs".to_owned(),
            Engine::Sled => "sled".to_owned(),
        }
    }
}

/// The text that tells a client that a key is not in the store.
pub open spec fn key_not_found_text() -> Seq<char> {
    "Key not found"@
}

/// The response to a `Put` request with this outcome.
pub open spec fn spec_respond_set(done: Result<(), KvsError>) -> ResponseView {
    match done {
        Ok(_) => ResponseView::Success(None),
        Err(error) => ResponseView::Failure(error.spec_message()),
    }
}

/// The response to a `Get` request with this outcome. A key that is not in
/// the store is answered with a text in place of a value.
pub open spec fn spec_respond_get(found: Result<Option<Seq<char>>, KvsError>) -> ResponseView {
    match found {
        Ok(Some(value)) => ResponseView::Success(Some(value)),
        Ok(None) => ResponseView::Success(Some(key_not_found_text())),
        Err(error) => ResponseView::Failure(error.spec_message()),
    }
}

/// The response to an `Rm` request with this outcome.
pub open spec fn spec_respond_rm(done: Result<(), KvsError>) -> ResponseView {
    match done {
        Ok(_) => ResponseView::Success(None),
        Err(KvsError::KeyNotFound) => ResponseView::Failure(key_not_found_text()),
        Err(error) => ResponseView::Failure(error.spec_message()),
    }
}

/// The response to a `Put` request with this outcome.
pub fn respond_set(done: Result<(), KvsError>) -> (response: Response)
    ensures
        response@ == spec_respond_set(done),
{
    match done {
        Ok(_) => Response::Success(None),
        Err(error) => Response::Failure(error.message()),
    }
}

/// The mathematical content of the outcome of a `Get`.
pub open spec fn found_view(found: Result<Option<String>, KvsError>) -> Result<
    Option<Seq<char>>,
    KvsError,
> {
    match found {
        Ok(Some(value)) => Ok(Some(value@)),
        Ok(None) => Ok(None),
        Err(error) => Err(error),
    }
}

/// The response to a `Get` request with this outcome.
pub fn respond_get(found: Result<Option<String>, KvsError>) -> (response: Response)
    ensures
        response@ == spec_respond_get(found_view(found)),
{
    match found {
        Ok(Some(value)) => Response::Success(Some(value)),
        Ok(None) => Response::Success(Some("Key not found".to_owned())),
        Err(error) => Response::Failure(error.message()),
    }
}

/// The response to an `Rm` request with this outcome.
pub fn respond_rm(done: Result<(), KvsError>) -> (response: Response)
    ensures
        response@ == spec_respond_rm(done),
{
    match done {
        Ok(_) => Response::Success(None),
        Err(KvsError::KeyNotFound) => Response::Failure("Key not found".to_owned()),
        Err(error) => Response::Failure(error.message()),
    }
}

/// The response to a request that could not be decoded, with the decoder's
/// words.
pub fn respond_malformed(reason: String) -> (response: Response)
    ensures
        response@ == ResponseView::Failure(reason@),
{
    Response::Failure(reason)
}

} // verus!
