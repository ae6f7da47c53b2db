//! The repo records that a commit's blocks carry, by their Lexicon `$type`.
use vstd::prelude::*;

verus! {

/// A repo record, told apart by its `$type` field.
#[derive(Debug, Default)]
pub enum Record {
    /// `app.bsky.feed.post`
    Post(Post),
    /// `app.bsky.feed.like`
    Like(Like),
    /// `app.bsky.graph.follow`
    Follow(Follow),
    /// Any other record type; it carries no data.
    #[default]
    Unknown,
}

/// A post: its text, creation time, languages and the thread it replies to.
#[derive(Debug, Default)]
pub struct Post {
    pub text: String,
    pub created_at: String,
    pub langs: Option<Vec<String>>,
    pub reply: Option<ReplyRef>,
}

/// A like of the record that `subject` points at.
#[derive(Debug, Default)]
pub struct Like {
    pub subject: StrongRef,
    pub created_at: String,
}

/// A follow of the account whose DID is `subject`.
#[derive(Debug, Default)]
pub struct Follow {
    pub subject: String,
    pub created_at: String,
}

/// The root and the parent of the thread that a post replies to.
#[derive(Debug, Default)]
pub struct ReplyRef {
    pub root: StrongRef,
    pub parent: StrongRef,
}

/// A reference to a record by its AT URI and, where present, its CID link.
#[derive(Debug, Default)]
pub struct StrongRef {
    pub uri: String,
    pub cid: Option<String>,
}

} // verus!
