//! The store's error taxonomy.

use vstd::prelude::*;

verus! {

/// Everything that a store operation can fail with.
#[derive(Clone, Copy, Debug, PartialEq, Eq, Structural)]
pub enum KvsError {
    /// A removal named a key that the index does not hold.
    KeyNotFound,
    /// A record failed to decode during recovery or a read.
    Codec,
    /// A candidate segment file name does not denote a segment id.
    ParseSegmentId,
    /// The segment ids handed to recovery were not strictly increasing
    /// positive numbers, which a well-formed store directory guarantees.
    SegmentOrder,
    /// A segment file handed to recovery holds more records than the
    /// configured cap, which no file this store writes can hold.
    SegmentFull,
}

impl KvsError {
    /// A short description, for callers that print errors.
    pub fn message(&self) -> (r: &'static str)
        ensures
            r@.len() > 0,
    {
        proof {
            reveal_strlit("Key not found");
            reveal_strlit("a record failed to decode");
            reveal_strlit("a segment file name is not a valid id");
            reveal_strlit("segment ids are not strictly increasing");
            reveal_strlit("a segment file holds too many records");
        }
        match self {
            KvsError::KeyNotFound => "Key not found",
            KvsError::Codec => "a record failed to decode",
            KvsError::ParseSegmentId => "a segment file name is not a valid id",
            KvsError::SegmentOrder => "segment ids are not strictly increasing",
            KvsError::SegmentFull => "a segment file holds too many records",
        }
    }
}

} // verus!
