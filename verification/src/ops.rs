//! The operations that a commit applies to a repo.
use vstd::prelude::*;

verus! {

/// One change of a commit.
#[derive(Debug, Default)]
pub struct RepoOp {
    /// `"create"`, `"update"` or `"delete"`.
    pub action: String,
    /// Collection and record key, e.g. `"app.bsky.feed.post/3jqyd..."`.
    pub path: String,
    /// The CID of the new record; only for `"create"` and `"update"`.
    pub cid: Option<String>,
}

} // verus!
