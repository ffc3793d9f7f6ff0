//! What is reported when memory cannot be had.
use vstd::prelude::*;

verus! {

/// An allocation error returned by the fallible methods working with an arena.
#[derive(Debug, Clone, Copy, PartialEq, Eq, Structural)]
pub struct AllocError;

impl Default for AllocError {
    fn default() -> (error: AllocError)
        ensures
            error == AllocError,
    {
        AllocError
    }
}

impl AllocError {
    /// The error in words.
    pub fn to_text(&self) -> (text: String)
        ensures
            text@ == "allocation failed"@,
    {
        "allocation failed".to_string()
    }
}

/// What an allocation that must succeed gives: the allocation, or the error to fail with.
pub fn unwrap_alloc<T>(alloc: Option<T>) -> (result: Result<T, AllocError>)
    ensures
        result == match alloc {
            Some(value) => Ok::<T, AllocError>(value),
            None => Err(AllocError),
        },
{
    match alloc {
        Some(value) => Ok(value),
        None => Err(AllocError),
    }
}

} // verus!
