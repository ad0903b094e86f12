//! The closed set of failures the library reports. Every fallible operation
//! names exactly one of these kinds, with enough context to diagnose it.

use vstd::prelude::*;

verus! {

/// What went wrong, as a closed enumeration.
#[derive(Debug, Clone, PartialEq, Eq)]
pub enum Error {
    /// The transport failed before a response body was obtained.
    Network,
    /// The response body was not valid JSON, did not match the expected
    /// envelope or payload shape, or a successful envelope carried no payload.
    Decode,
    /// The provider reported failure; the messages are the provider's own.
    Api(Vec<String>),
    /// No record exists for the domain and record type, even after the cache
    /// was fully populated.
    NotFound { domain: String, record_type: String },
    /// The provider accepted an update but echoed a content value different
    /// from the one requested.
    UpdateMismatch { domain: String, record_type: String, requested: String, actual: String },
    /// An address or suffix was too malformed to rewrite.
    Validation,
}

} // verus!
