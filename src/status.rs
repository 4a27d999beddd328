//! The result of ticking a node.
use vstd::prelude::*;

verus! {

/// The status of a node in a behavior tree.
#[derive(Copy, Clone, PartialEq, Eq, Debug, Structural)]
pub enum Status {
    /// The node has not been ticked since it was created or reset.
    Initialized,
    /// The node is still working.
    Running,
    /// The node finished and succeeded.
    Succeeded,
    /// The node finished and failed.
    Failed,
}

impl Status {
    /// Whether the status is terminal.
    pub open spec fn done(self) -> bool {
        self == Status::Succeeded || self == Status::Failed
    }

    /// Returns `true` if the status is one where execution has finished.
    pub fn is_done(&self) -> (r: bool)
        ensures
            r == self.done(),
    {
        *self == Status::Succeeded || *self == Status::Failed
    }
}

} // verus!
