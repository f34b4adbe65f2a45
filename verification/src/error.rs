//! The error taxonomy of the listing pipeline.

use vstd::prelude::*;

verus! {

/// A failure of the listing operation. Every operation surfaces its error to
/// its immediate caller without local recovery: the first failure anywhere
/// aborts the whole listing.
#[derive(Debug)]
pub enum ListError {
    /// The transport failed: connection, timeout, or an unreadable body.
    TransportError,
    /// The platform answered `ok: false` with an error code.
    ApiError { code: String },
    /// The credential source was missing or unreadable.
    ConfigError,
    /// The response body matched neither the success nor the error shape.
    DecodeError,
}

impl ListError {
    /// The platform-reported error code, where there is one.
    pub fn api_code(&self) -> (code: Option<&String>)
        ensures
            match self {
                ListError::ApiError { code: c } => code == Some(c),
                _ => code is None,
            },
    {
        match self {
            ListError::ApiError { code } => Some(code),
            _ => None,
        }
    }
}

} // verus!
