//! Error kinds for the marshalling layer. Every conversion and request
//! function returns a typed outcome; malformed wire data is reported, never
//! answered by aborting the process.

use vstd::prelude::*;
use vstd::string::StringExecFns;

verus! {

/// The outcomes a caller can observe from this layer.
#[derive(Clone, Debug)]
pub enum DynamoDbError {
    /// No signing credentials are configured.
    NoCredentials,
    /// An application value could not be taken into the plain structured form.
    EncodingError(String),
    /// A wire response could not be parsed into the plain structured form.
    DecodingError(String),
    /// Wire data violates the tagged-attribute contract: wrong shape for a
    /// tag, missing or duplicate tag, or a non-map top level.
    ProtocolError(String),
    /// The server rejected a conditional write.
    ConditionFailed,
    /// An opaque failure reported by the transport collaborator.
    TransportError(String),
    /// A Bad-Request error-type string this layer does not recognize.
    UnrecognizedServerError(String),
}

impl DynamoDbError {
    /// A short description of the error, for hosts that log outcomes.
    pub fn describe(&self) -> (r: String)
        ensures
            self matches DynamoDbError::EncodingError(m) ==> r@ == m@,
            self matches DynamoDbError::DecodingError(m) ==> r@ == m@,
            self matches DynamoDbError::ProtocolError(m) ==> r@ == m@,
            self matches DynamoDbError::TransportError(m) ==> r@ == m@,
            self matches DynamoDbError::UnrecognizedServerError(m) ==> r@ == m@,
    {
        match self {
            DynamoDbError::NoCredentials => String::from_str("no credentials configured"),
            DynamoDbError::EncodingError(m) => m.clone(),
            DynamoDbError::DecodingError(m) => m.clone(),
            DynamoDbError::ProtocolError(m) => m.clone(),
            DynamoDbError::ConditionFailed => String::from_str("conditional check failed"),
            DynamoDbError::TransportError(m) => m.clone(),
            DynamoDbError::UnrecognizedServerError(m) => m.clone(),
        }
    }
}

/// The error envelope a Bad-Request response carries: a single error-type
/// string under the key `__type`.
#[derive(Clone, Debug)]
pub struct AWSApiError {
    pub __type: String,
}

/// The outcome type of this layer's fallible operations.
pub type DynamoDbResult<T> = Result<T, DynamoDbError>;

} // verus!
