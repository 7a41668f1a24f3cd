//! A small log-structured key-value storage engine.
//!
//! The engine buffers writes in an in-memory [`segment::Segment`], rotates the
//! buffer to an on-disk segment file once it crosses a size threshold, tracks
//! the on-disk files in a manifest ([`manifest::SegmentMapData`]), and
//! periodically compacts all on-disk segments into one, most recent value
//! winning. Everything that decides or computes lives here, verified; reading
//! and writing the actual files, the timer, and the request channel are left
//! to the surrounding program, which hands byte vectors in and out.

pub mod actor;
pub mod codec;
pub mod common;
pub mod errors;
pub mod manager;
pub mod manifest;
pub mod merge;
pub mod merger;
pub mod order;
pub mod record;
pub mod segment;
pub mod snapshot;
