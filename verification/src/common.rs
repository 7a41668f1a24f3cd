//! The record message shared with clients of the engine's protocol layer.

use vstd::prelude::*;

verus! {

/// One key/data pair as the protocol layer carries it.
#[derive(Debug)]
pub struct RecordMessage {
    pub key: String,
    pub data: String,
}

} // verus!
