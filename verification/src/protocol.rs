//! The messages of the upload protocol: the parameters sent at
//! initialization and the structured results of the three operations
//! (initialize, upload a chunk, complete), each either a success or an
//! error that a client can branch on.

use vstd::prelude::*;

verus! {

/// The parameters of an upload, fixed at initialization and persisted as
/// the session's metadata.  `md5` is carried through but never verified.
#[derive(Debug, Clone, PartialEq)]
pub struct UploadParam {
    /// total file size in bytes
    pub size: u64,
    /// size of every chunk but possibly the last, in bytes
    pub chunk_size: u64,
    /// extension of the final artifact's name
    pub extension: String,
    /// content checksum placeholder
    pub md5: String,
}

/// A half-open range `[start, end)` of chunk indices.
#[derive(Clone, Copy, Debug, PartialEq, Eq, Structural)]
pub struct IndexRange {
    pub start: usize,
    pub end: usize,
}

/// What initialization answers: a fresh session identifier, or a
/// structured error.
#[derive(Debug, PartialEq)]
pub enum InitializeResult {
    Accepted {
        /// the new session's identifier, as its 128-bit value
        id: u128,
        /// whether a finished upload of the same content already exists
        duplicated: bool,
    },
    Rejected {
        error: InitializeError,
    },
}

/// Why initialization was refused.
#[derive(Debug, PartialEq)]
pub enum InitializeError {
    /// the file size is zero or above the configured bound
    Size { max: u64 },
    /// the chunk size is zero or above the configured bound
    ChunkSize { max: u64 },
    /// any other fault
    Other { detail: String },
}

/// What storing one chunk answers.
#[derive(Debug, PartialEq)]
pub enum UploadChunkResult {
    Accepted,
    Rejected { error: UploadChunkError },
}

/// Why a stored chunk was refused.
#[derive(Debug, PartialEq)]
pub enum UploadChunkError {
    /// the stored length differs from the expected length of that index
    Size { expected: u64, actual: u64 },
    /// any other fault
    Other { detail: String },
}

/// What the completion request answers.
#[derive(Debug, PartialEq)]
pub enum CompleteResult {
    Accepted,
    Rejected { error: CompleteError },
}

/// Why completion was refused.
#[derive(Debug, PartialEq)]
pub enum CompleteError {
    /// chunks are still missing: the ascending, coalesced index ranges,
    /// with the session's parameters so the client can recompute offsets
    Incomplete { param: UploadParam, ranges: Vec<IndexRange> },
    /// the checksum did not match (never produced by this design)
    MD5 { expected: String, actual: String },
    /// any other fault
    Other { detail: String },
}

/// A client-side fault, outside the wire protocol proper.
#[derive(Debug, PartialEq)]
pub enum ChuaError {
    /// reading the source file failed
    Io { detail: String },
    /// the network transfer failed
    Transport { detail: String },
    /// any other fault
    Other { detail: String },
}

pub type ChuaResult<T> = Result<T, ChuaError>;

} // verus!
