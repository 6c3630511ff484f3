use vstd::prelude::*;

verus! {

/// Application-level error taxonomy. Outside failures (network transport,
/// storage engine) are carried as human-readable messages; callers only need
/// to distinguish the three kinds, not engine-specific subtypes.
#[derive(Debug)]
pub enum AppError {
    /// Network or HTTP failure while talking to the upstream provider.
    NetworkError(String),
    /// The provider's payload could not be understood, or the provider
    /// rejected the request.
    ParseError(String),
    /// Any persistence-engine failure, surfaced opaquely.
    DatabaseError(String),
}

impl AppError {
    /// The human-readable message carried by the error.
    pub fn message(&self) -> (r: &String)
        ensures
            r@ == self.spec_message(),
    {
        match self {
            AppError::NetworkError(m) => m,
            AppError::ParseError(m) => m,
            AppError::DatabaseError(m) => m,
        }
    }

    pub open spec fn spec_message(&self) -> Seq<char> {
        match self {
            AppError::NetworkError(m) => m@,
            AppError::ParseError(m) => m@,
            AppError::DatabaseError(m) => m@,
        }
    }
}

/// Error payload shape handed to the HTTP layer.
#[derive(Debug)]
pub struct ErrorResponse {
    pub error: String,
}

impl ErrorResponse {
    pub fn new(error: String) -> (r: ErrorResponse)
        ensures
            r.error@ == error@,
    {
        ErrorResponse { error }
    }

    pub fn error_text(&self) -> (r: &String)
        ensures
            r@ == self.error@,
    {
        &self.error
    }
}

} // verus!
