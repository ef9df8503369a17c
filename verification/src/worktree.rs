//! Git revisions and the worktrees that hold them.

use crate::text::{trim, trimmed_end, trimmed_start};
use vstd::prelude::*;

verus! {

/// A revision by the name that it was given and by the commit that it stands
/// for.
#[derive(Clone, Debug)]
pub struct Revision {
    name: String,
    hash: String,
}

/// Why a revision is not known.
#[derive(Clone, Copy, Debug, PartialEq, Eq, Structural)]
pub enum RevisionError {
    EmptyName,
    Unresolved,
    NotUtf8,
}

/// What Git is asked for: the commit that a name stands for.
pub open spec fn commit_text(name: Seq<char>) -> Seq<char> {
    name + "^{commit}"@
}

impl Revision {
    pub closed spec fn called(self) -> Seq<char> {
        self.name@
    }

    pub closed spec fn commit(self) -> Seq<char> {
        self.hash@
    }

    /// What to ask Git for.
    pub fn request(name: &str) -> (result: Result<String, RevisionError>)
        ensures
            match result {
                Ok(text) => name@.len() > 0 && text@ == commit_text(name@),
                Err(error) => name@.len() == 0 && error == RevisionError::EmptyName,
            },
            result matches Ok(text) ==> text@ == name@ + "^{commit}"@,
    {
        if name.is_empty() {
            Err(RevisionError::EmptyName)
        } else {
            Ok(name.to_owned().concat("^{commit}"))
        }
    }

    /// The revision, from whether Git succeeded and from what it printed, where
    /// that is Unicode.
    pub fn resolved(name: &str, success: bool, output: Option<&str>) -> (result: Result<
        Revision,
        RevisionError,
    >)
        ensures
            match result {
                Ok(revision) => {
                    &&& success
                    &&& output matches Some(text) && revision.commit() == trimmed_start(
                        trimmed_end(text@),
                    )
                    &&& revision.called() == name@
                },
                Err(RevisionError::Unresolved) => !success,
                Err(RevisionError::NotUtf8) => success && output is None,
                Err(RevisionError::EmptyName) => false,
            },
    {
        if !success {
            return Err(RevisionError::Unresolved);
        }
        match output {
            None => Err(RevisionError::NotUtf8),
            Some(text) => Ok(Revision { name: name.to_owned(), hash: trim(text) }),
        }
    }

    /// The name that the revision was given.
    pub fn name(&self) -> (name: &str)
        ensures
            name@ == self.called(),
    {
        self.name.as_str()
    }

    /// The commit that the revision stands for.
    pub fn hash(&self) -> (hash: &str)
        ensures
            hash@ == self.commit(),
    {
        self.hash.as_str()
    }

    /// What is said where no worktree can be added, given the status as it is
    /// shown.
    pub fn add_failure(&self, status: &str) -> (text: String)
        ensures
            text@ == "Git worktree add failed for "@ + self.called() + " ("@ + self.commit()
                + ") with "@ + status@ + "."@,
    {
        "Git worktree add failed for ".to_owned().concat(self.name.as_str()).concat(" (").concat(
            self.hash.as_str(),
        ).concat(") with ").concat(status).concat(".")
    }
}

impl RevisionError {
    /// What is said of the error for a name.
    pub fn message(self, name: &str) -> (text: String)
        ensures
            text@ == (match self {
                RevisionError::EmptyName => "Git revision must not be empty."@,
                RevisionError::Unresolved => "Git could not resolve "@ + name@ + " to a commit."@,
                RevisionError::NotUtf8 => "Git returned a non-UTF-8 commit hash."@,
            }),
    {
        match self {
            RevisionError::EmptyName => "Git revision must not be empty.".to_owned(),
            RevisionError::Unresolved => "Git could not resolve ".to_owned().concat(name).concat(
                " to a commit.",
            ),
            RevisionError::NotUtf8 => "Git returned a non-UTF-8 commit hash.".to_owned(),
        }
    }
}

} // verus!
