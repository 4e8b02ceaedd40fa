//! The error taxonomy of the external embedding collaborator.  The
//! network client itself lives outside the library; the library only
//! shares its error vocabulary so callers can route failures uniformly.

use vstd::prelude::*;

verus! {

/// Failure modes of an embedding provider.
#[derive(Debug, Clone)]
pub enum EmbeddingError {
    /// The transport failed.
    Network(String),
    /// The provider answered with an error.
    Api(String),
    /// The provider's answer could not be understood.
    InvalidResponse(String),
    /// A returned vector was unusable (empty, or a zero vector that
    /// cannot be normalized).
    InvalidVector(String),
}

impl EmbeddingError {
    /// The detail message carried by the error.
    pub fn detail(&self) -> (r: &String)
        ensures
            match self {
                EmbeddingError::Network(m) => r == m,
                EmbeddingError::Api(m) => r == m,
                EmbeddingError::InvalidResponse(m) => r == m,
                EmbeddingError::InvalidVector(m) => r == m,
            },
    {
        match self {
            EmbeddingError::Network(m) => m,
            EmbeddingError::Api(m) => m,
            EmbeddingError::InvalidResponse(m) => m,
            EmbeddingError::InvalidVector(m) => m,
        }
    }
}

} // verus!
