//! Decoding of the Bluesky firehose: CAR block framing, varints, CID prefixes,
//! and the records and frames that a commit event carries.
pub mod blocks;
pub mod car;
pub mod cid;
pub mod deserialize_cid;
pub mod frame;
pub mod ops;
pub mod record;
pub mod stream;
