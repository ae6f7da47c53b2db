//! A CID link as it appears in JSON-shaped data: `{ "$link": "bafy..." }`.
use vstd::prelude::*;

verus! {

/// The CID string of a `$link` object.
#[derive(Debug)]
pub struct CidLink(pub String);

} // verus!
