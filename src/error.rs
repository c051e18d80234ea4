//! Errors of the management operations.

use vstd::prelude::*;

verus! {

/// Errors of the management operations.
#[derive(Debug)]
pub enum ServerAdapterError {
    MockNotFound(usize),
    InvalidMockDefinitionError(String),
    JsonSerializationError(String),
    JsonDeserializationError(String),
    UpstreamError(String),
    PingError(String),
    Unknown,
}

} // verus!
