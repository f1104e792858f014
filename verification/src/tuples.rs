//! The record types that flow through the join engine: a keyed input tuple
//! and the joined output record.

use vstd::prelude::*;

verus! {

/// One row of an input relation: a join key and an opaque payload.
#[derive(Clone, Copy, Debug, Hash, PartialEq, Eq, Structural)]
pub struct Tuple {
    pub key: u64,
    pub payload: u64,
}

impl Tuple {
    pub fn new(key: u64, payload: u64) -> (t: Tuple)
        ensures
            t.key == key,
            t.payload == payload,
    {
        Tuple { key, payload }
    }
}

/// One row of a join result: the common key and both sides' payloads.
#[derive(Clone, Copy, Debug, Hash, PartialEq, Eq, Structural)]
pub struct Joined {
    pub key: u64,
    pub left_payload: u64,
    pub right_payload: u64,
}

impl Joined {
    pub fn new(key: u64, left_payload: u64, right_payload: u64) -> (j: Joined)
        ensures
            j.key == key,
            j.left_payload == left_payload,
            j.right_payload == right_payload,
    {
        Joined { key, left_payload, right_payload }
    }
}

} // verus!
