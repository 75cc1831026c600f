//! The ways in which a sort, a lookup or a build can fail.

use vstd::prelude::*;

verus! {

/// Why a sort, a lookup or a build gave up. None of them is retried: the
/// caller corrects the registrations or the seeds and starts again.
#[derive(Clone, Copy, Debug, PartialEq, Eq, Structural)]
pub enum DepsError {
    /// The descriptors depend on each other in a circle.
    CyclicDependency,
    /// A value was asked for under a key that the store does not hold.
    MissingDependency,
    /// The store holds a value under the key, but not one of the type asked for.
    TypeMismatch,
    /// A synchronous descriptor depends on something only an asynchronous one produces.
    AsyncnessMismatch,
}

impl DepsError {
    /// A short description for diagnostics.
    pub fn message(&self) -> (text: String)
        ensures
            text@ == match *self {
                DepsError::CyclicDependency => "cyclic dependency"@,
                DepsError::MissingDependency => "missing dependency"@,
                DepsError::TypeMismatch => "type mismatch"@,
                DepsError::AsyncnessMismatch => "asyncness mismatch"@,
            },
    {
        match self {
            DepsError::CyclicDependency => "cyclic dependency".to_owned(),
            DepsError::MissingDependency => "missing dependency".to_owned(),
            DepsError::TypeMismatch => "type mismatch".to_owned(),
            DepsError::AsyncnessMismatch => "asyncness mismatch".to_owned(),
        }
    }
}

} // verus!
