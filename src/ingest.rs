//! How an ingest request asks for its documents to be committed.
use vstd::prelude::*;

verus! {

#[derive(Clone, Copy, Debug, PartialEq, Eq, Structural)]
pub enum CommitType {
    /// Documents are committed when the indexer's own triggers fire.
    Auto,
    /// The request returns once its documents are committed.
    WaitFor,
    /// The request forces a commit and waits for it.
    Force,
}

impl CommitType {
    /// The query parameters that carry this commit type; none for `Auto`.
    pub fn to_query_parameter(&self) -> (r: Option<&'static [(&'static str, &'static str)]>)
        ensures
            r.is_none() == (*self == CommitType::Auto),
            r matches Some(p) ==> p@.len() == 1 && p@[0].0@ == "commit"@ && (*self == CommitType::WaitFor ==> p@[0].1@
                == "wait_for"@) && (*self == CommitType::Force ==> p@[0].1@ == "force"@),
    {
        match self {
            CommitType::Auto => None,
            CommitType::WaitFor => Some(&[("commit", "wait_for")]),
            CommitType::Force => Some(&[("commit", "force")]),
        }
    }
}

} // verus!
