//! The two CBOR objects of a firehose frame: its header and a commit body.
use crate::blocks::Blocks;
use crate::ops::RepoOp;
use vstd::prelude::*;

verus! {

/// The frame header. Event type (`t`):
///    - "#commit": Applying changes to a user's repository.
///    - "#handle": Handling a user's repository.
///    - "#identity": Updating a user's DID document.
///    - "#tombstone": Soft-deleting a post.
///    - "#account": Creating or updating a user's account.
///    - "#sync": Emitted after a period of inactivity, or when a consumer falls behind and misses too many events. Contains a full snapshot of the current repo state, so consumers can sync back up without needing to fetch historical commits.
///    - "#info": Emitted periodically with information about the firehose stream,
#[derive(Debug)]
pub struct CborHeader {
    pub event_type: Option<String>,
    /// 0 = Request, 1 = Response, 2 = Error, 3 = Stream Frame
    pub op: i64,
}

impl CborHeader {
    /// Whether the frame's event type is `"#commit"`.
    pub fn is_commit(&self) -> (b: bool)
        ensures
            b == (self.event_type matches Some(t) && t@ == "#commit"@),
    {
        match &self.event_type {
            Some(t) => {
                let commit = String::from_str("#commit");
                *t == commit
            },
            None => false,
        }
    }
}

/// The body of a `#commit` frame.
#[derive(Debug)]
pub struct CommitFrame {
    /// CAR file containing relevant blocks, as a diff since the previous repo
    /// state. The commit must be included as a block, and the commit block CID
    /// must be the first entry in the CAR header 'roots' list.
    pub blocks: Blocks,
    pub ops: Vec<RepoOp>,
    /// The root CID of the MST tree for the previous commit from this repo
    /// (indicated by the 'since' revision field in this message).
    pub prev_data: Option<Vec<u8>>,
    /// DEPRECATED -- unused
    pub rebase: bool,
    /// The repo this event comes from.
    pub repo: String,
    /// The rev of the emitted commit.
    pub rev: String,
    /// The stream sequence number of this message.
    pub seq: u64,
    /// The rev of the last emitted commit from this repo (if any).
    pub since: String,
    /// Timestamp of when this message was first broadcast (ISO 8601).
    pub time: String,
    /// DEPRECATED -- this commit contained too many ops, or data size was too large.
    pub too_big: bool,
}

} // verus!
