//! What a call gives back besides an answer: a failure, and whether it is
//! worth repeating; or a Stream, and where it came from.

use vstd::prelude::*;
use vstd::string::*;

verus! {

/// Why a call failed, and whether the same call may succeed later.
#[derive(Clone, Debug, PartialEq, Eq)]
pub struct TransportError {
    pub message: String,
    pub retryable: bool,
}

/// The model of a [`TransportError`].
pub struct Failure {
    pub message: Seq<char>,
    pub retryable: bool,
}

impl View for TransportError {
    type V = Failure;

    open spec fn view(&self) -> Failure {
        Failure { message: self.message@, retryable: self.retryable }
    }
}

/// A failure that no repetition mends.
pub open spec fn lasting(message: Seq<char>) -> Failure {
    Failure { message, retryable: false }
}

impl TransportError {
    /// A failure that no repetition mends.
    pub fn permanent(message: String) -> (failure: Self)
        ensures
            failure@ == lasting(message@),
    {
        TransportError { message, retryable: false }
    }
}

/// The failure of a far end that does not keep to the protocol: repeating the
/// call does not mend it.
pub fn protocol_error(message: String) -> (failure: TransportError)
    ensures
        failure@ == lasting(message@),
{
    TransportError::permanent(message)
}

/// What a call gives back, by the models of what it holds.
pub open spec fn outcome<T: View>(result: Result<T, TransportError>) -> Result<T::V, Failure> {
    match result {
        Ok(value) => Ok(value@),
        Err(failure) => Err(failure@),
    }
}

/// A Stream as it arrived: its bytes, and the URI it came from.
#[derive(Clone, Debug, PartialEq, Eq)]
pub struct Arrived {
    pub origin_uri: String,
    pub bytes: Vec<u8>,
}

/// The model of an [`Arrived`].
#[verifier::ext_equal]
pub struct Stream {
    pub origin_uri: Seq<char>,
    pub bytes: Seq<u8>,
}

impl View for Arrived {
    type V = Stream;

    open spec fn view(&self) -> Stream {
        Stream { origin_uri: self.origin_uri@, bytes: self.bytes@ }
    }
}

impl Arrived {
    /// The Stream of `bytes` that came from `origin_uri`.
    pub fn new(origin_uri: String, bytes: Vec<u8>) -> (arrived: Self)
        ensures
            arrived@ == (Stream { origin_uri: origin_uri@, bytes: bytes@ }),
    {
        Arrived { origin_uri, bytes }
    }
}

} // verus!
