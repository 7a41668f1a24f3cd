//! The engine's error taxonomy. A key that is simply absent is a normal
//! result, not an error, and is represented by an absent value instead.

use vstd::prelude::*;

verus! {

/// Why a request against the engine failed.
#[derive(Clone, Copy, Debug, PartialEq, Eq, Structural)]
pub enum EngineError {
    /// A manifest, segment or record file could not be read or written, or
    /// held fewer bytes than its own framing promises.
    Io,
    /// The consumer task owning the engine has terminated while a request was
    /// in flight; the request has no retry target.
    ActorUnavailable,
}

} // verus!
