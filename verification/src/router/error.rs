//! Why a table of routes cannot be compiled.

use vstd::prelude::*;

verus! {

/// The fault in a route that stops the build of a router. A router is built
/// once, before any request is served: a fault is found then, never while a
/// request is matched.
#[derive(Clone, Copy, Debug, PartialEq, Eq, Structural)]
pub enum RouterBuilderError {
    /// The template is malformed: a `<` without its `>`, a `>` without its
    /// `<`, or a `<` inside a parameter's name.
    InvalidPath,
    /// One template declares two parameters of one name.
    DuplicateParameter,
    /// The template captures a parameter at a place where a route registered
    /// before captures one of another name.
    ConflictingParameter,
}

impl RouterBuilderError {
    /// The text that describes the fault.
    pub open spec fn text(self) -> Seq<char> {
        match self {
            RouterBuilderError::InvalidPath => "invalid path"@,
            RouterBuilderError::DuplicateParameter => "duplicate parameter"@,
            RouterBuilderError::ConflictingParameter => "conflicting parameter"@,
        }
    }

    /// The text that describes the fault.
    pub fn message(&self) -> (message: &'static str)
        ensures
            message@ == self.text(),
    {
        match self {
            RouterBuilderError::InvalidPath => "invalid path",
            RouterBuilderError::DuplicateParameter => "duplicate parameter",
            RouterBuilderError::ConflictingParameter => "conflicting parameter",
        }
    }
}

} // verus!
