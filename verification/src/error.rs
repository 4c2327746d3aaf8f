//! The ways in which an operation of the engine fails.

use vstd::prelude::*;

verus! {

/// Why an operation was refused. Every failure is detected before the
/// operation changes anything.
#[derive(Clone, Copy, Debug, PartialEq, Eq, Structural)]
pub enum Error {
    /// A stack, a commit or a reference does not resolve.
    NotFound,
    /// A stack that forbids rewriting would need commits rewritten that it has
    /// already pushed.
    ForcePushRequiredButDisallowed,
    /// A commit message was to be replaced by the empty message.
    EmptyCommitMessage,
    /// The working directory still holds unresolved conflicts.
    UnresolvedConflicts,
    /// A commit that was to be taken out of its stack does not have exactly
    /// one parent.
    NoSingleParent,
}

impl Error {
    /// The text of the message that describes the failure.
    pub open spec fn message(self) -> Seq<char> {
        match self {
            Error::NotFound => "not found"@,
            Error::ForcePushRequiredButDisallowed => "force push not allowed"@,
            Error::EmptyCommitMessage => "commit message can not be empty"@,
            Error::UnresolvedConflicts => "conflicts must be resolved first"@,
            Error::NoSingleParent => "commit does not have exactly one parent"@,
        }
    }

    /// A stable, human-readable description of the failure.
    pub fn to_string(&self) -> (r: String)
        ensures
            r@ == self.message(),
    {
        match self {
            Error::NotFound => "not found".to_owned(),
            Error::ForcePushRequiredButDisallowed => "force push not allowed".to_owned(),
            Error::EmptyCommitMessage => "commit message can not be empty".to_owned(),
            Error::UnresolvedConflicts => "conflicts must be resolved first".to_owned(),
            Error::NoSingleParent => "commit does not have exactly one parent".to_owned(),
        }
    }
}

} // verus!
