//! Fetch planning for a video host's info endpoint: decoding its nested
//! query-string metadata, listing and choosing the encoded streams, and the
//! decisions of a chunked, progress-tracked download.
use vstd::prelude::*;

pub mod catalog;
pub mod query;
pub mod selection;
pub mod source;
pub mod transfer;

verus! {

/// What can go wrong between the metadata and the finished file.
#[derive(Debug, Clone, Copy, PartialEq, Eq, Structural)]
pub enum Error {
    /// The metadata holds an invalid escape; or its catalog was built but it
    /// has no `title` to name the file by.
    MalformedInput,
    /// The metadata lists no stream.
    NoStreams,
    /// A stream descriptor cannot be decoded or lacks `url`, `type` or
    /// `quality`.
    MalformedStream,
    /// A stream's MIME type has no `/`.
    UnrecognizedMimeType,
    /// The chosen ordinal is not a number or not in `1..=count`.
    InvalidSelection,
    /// The metadata's `status` is not `ok`.
    VideoUnavailable,
}

} // verus!
