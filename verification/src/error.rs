use vstd::prelude::*;

verus! {

/// The hard failures of the store's operations.
#[derive(Debug, Clone, Copy, PartialEq, Eq, Structural)]
pub enum StoreError {
    /// A tag of that name has already been created.
    AlreadyExists,
    /// A query named a tag that the store does not hold.
    NotFound,
    /// The path of a file to associate could not be resolved.
    PathUnresolvable,
}

impl StoreError {
    /// A short description of the failure, for display.
    pub fn message(&self) -> (text: String)
        ensures
            text@ == match *self {
                StoreError::AlreadyExists => "tag already exists"@,
                StoreError::NotFound => "tag not found"@,
                StoreError::PathUnresolvable => "path cannot be resolved"@,
            },
    {
        match self {
            StoreError::AlreadyExists => "tag already exists".to_owned(),
            StoreError::NotFound => "tag not found".to_owned(),
            StoreError::PathUnresolvable => "path cannot be resolved".to_owned(),
        }
    }
}

} // verus!
