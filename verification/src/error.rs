//! The ways in which flattening fails.

use vstd::prelude::*;

verus! {

/// Why a tree could not be flattened.
#[derive(Clone, Copy, Debug, PartialEq, Eq, Structural)]
pub enum FlattenError {
    /// A mapping holds a key that is neither a string nor a character.
    InvalidKeyType,
}

impl FlattenError {
    /// A sentence that describes the error.
    pub fn message(&self) -> (r: &'static str)
        ensures
            r@ == "map keys must be strings or characters"@,
    {
        match self {
            FlattenError::InvalidKeyType => "map keys must be strings or characters",
        }
    }
}

} // verus!
