//! Errors that say whether the current repository is set up for
//! git-toprepo.
use vstd::prelude::*;

verus! {

/// The current directory is not a configured git-toprepo repository.
#[derive(Debug)]
pub struct NotAMonorepo {
    /// What went wrong when looking for the configuration, if anything did.
    pub source: Option<String>,
}

impl NotAMonorepo {
    pub fn new(source: String) -> (r: Self)
        ensures
            r.source == Some(source),
    {
        NotAMonorepo { source: Some(source) }
    }

    /// The text of the error.
    pub fn message(&self) -> (r: &'static str)
        ensures
            r@ == seq!['N', 'o', 't', ' ', 'a', ' ', 'm', 'o', 'n', 'o', 'r', 'e', 'p', 'o'],
    {
        proof {
            reveal_strlit("Not a monorepo");
        }
        "Not a monorepo"
    }
}

impl Default for NotAMonorepo {
    fn default() -> (r: Self)
        ensures
            r.source is None,
    {
        NotAMonorepo { source: None }
    }
}

/// The current directory is already a configured git-toprepo repository.
#[derive(Debug, PartialEq, Eq)]
pub struct AlreadyAMonorepo;

impl AlreadyAMonorepo {
    /// The text of the error.
    pub fn message(&self) -> (r: &'static str)
        ensures
            r@ == seq!['A', 'l', 'r', 'e', 'a', 'd', 'y', ' ', 'a', ' ', 'm', 'o', 'n', 'o', 'r', 'e', 'p', 'o'],
    {
        proof {
            reveal_strlit("Already a monorepo");
        }
        "Already a monorepo"
    }
}

} // verus!
