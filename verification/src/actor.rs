//! The storage actor's decision core. A single consumer task owns the
//! [`SegmentManager`] and applies one request at a time; the channel, the
//! response handles and the task itself are outside work. [`handle_message`]
//! is everything that task decides per message.

use vstd::prelude::*;
use crate::manager::SegmentManager;
use crate::manager::MAX_SEGMENT_SIZE;

verus! {

/// Failure of a read request: the key is absent from the live segment.
#[derive(Debug, PartialEq, Eq)]
pub enum ReadError {
    KeyNotFound,
}

/// What a read request answers with.
pub type ReadResult = Result<Vec<u8>, ReadError>;

/// A request sent to the storage actor.
pub enum FileActorMessage {
    WriteData { key: String, data: Vec<u8> },
    ReadData { key: String },
}

/// The actor's answer to one request.
#[derive(Debug, PartialEq, Eq)]
pub enum FileActorResponse {
    /// Acknowledges a write; the value is the write status code, always zero.
    Written(u32),
    /// Answers a read.
    Read(ReadResult),
}

/// Applies one request to the engine and produces its response, together with
/// whether the merger must be signalled to flush. Requests are handled
/// strictly one at a time, so this function is the whole of the actor's
/// behaviour per message.
pub fn handle_message(mgr: &mut SegmentManager, msg: FileActorMessage) -> (r: (
    FileActorResponse,
    bool,
))
    requires
        old(mgr).wf(),
        msg matches FileActorMessage::WriteData { key, data } ==> old(
            mgr,
        ).current_segment.spec_size_after(key@, data@) <= usize::MAX,
    ensures
        final(mgr).wf(),
        msg matches FileActorMessage::WriteData { key, data } ==> {
            &&& final(mgr)@ == old(mgr)@.insert(key@, data@)
            &&& r.0 == FileActorResponse::Written(0u32)
            &&& r.1 == (final(mgr).current_segment.segment_size >= MAX_SEGMENT_SIZE)
        },
        msg matches FileActorMessage::ReadData { key } ==> {
            &&& *final(mgr) == *old(mgr)
            &&& r.1 == false
            &&& (old(mgr)@.contains_key(key@) ==> (r.0 matches FileActorResponse::Read(res)
                && res matches Ok(v) && v@ == old(mgr)@[key@]))
            &&& (!old(mgr)@.contains_key(key@) ==> r.0 == FileActorResponse::Read(
                Err(ReadError::KeyNotFound),
            ))
        },
{
    match msg {
        FileActorMessage::WriteData { key, data } => {
            let needs_flush = mgr.put(key, data);
            (FileActorResponse::Written(0), needs_flush)
        },
        FileActorMessage::ReadData { key } => {
            match mgr.get(key) {
                Some(data) => (FileActorResponse::Read(Ok(data)), false),
                None => (FileActorResponse::Read(Err(ReadError::KeyNotFound)), false),
            }
        },
    }
}

} // verus!
