//! The errors of the snapshot subsystem.
use vstd::prelude::*;

verus! {

/// Why an operation on a snapshot failed, where the failure is neither an abort
/// nor an exhausted quota.
#[derive(Debug, Clone, PartialEq, Eq)]
#[allow(inconsistent_fields)]
pub enum Cause {
    /// A column family that snapshots do not carry.
    InvalidCf,
    /// The metadata does not split into one run of entries per column family.
    CfCount { expected: usize, got: usize },
    /// The run at `index` is for another column family than the one expected there.
    CfName { index: usize },
    /// An entry names a chunk while the chunk before it is not recorded.
    ChunkGap { cf_index: usize, file_index: usize },
    /// A file on disk has another size than the metadata declares.
    FileSize { got: u64, expected: u64 },
    /// A file on disk has another checksum than the metadata declares.
    FileChecksum { got: u32, expected: u32 },
    /// A received chunk holds another number of bytes than the metadata declares.
    WrittenSize { cf_index: usize, file_index: usize, got: u64, expected: u64 },
    /// A received chunk has another checksum than the metadata declares.
    WrittenChecksum { cf_index: usize, file_index: usize, got: u32, expected: u32 },
    /// The metadata is there, and a data file it lists is not.
    MissingCfFile,
    /// The metadata was to be saved with no temporary metadata file held.
    NoMetaFile,
    /// No column family of the snapshot has the name asked for.
    UnknownCf,
    /// A file name holds fewer numeric fields than a key needs.
    InvalidFileName,
    /// The snapshot asked for is not on disk.
    NotExists,
    /// Bytes that do not decode.
    Malformed,
    /// A count or a size went beyond what its type holds.
    Overflow,
    /// The file system, the engine or the key manager failed.
    Io,
}

#[derive(Debug, Clone, PartialEq, Eq)]
pub enum Error {
    /// The operation was cancelled from outside: a controlled stop.
    Abort,
    /// The quota is exhausted and nothing can be evicted.
    TooManySnapshots,
    /// Any other failure.
    Other(Cause),
}

pub type Result<T> = core::result::Result<T, Error>;

impl Error {
    /// The code under which the error is reported.
    pub open spec fn spec_error_code(&self) -> Seq<char> {
        match self {
            Error::Abort => "KV:Raftstore:SnapAbort"@,
            Error::TooManySnapshots => "KV:Raftstore:SnapTooMany"@,
            Error::Other(_) => "KV:Raftstore:SnapUnknown"@,
        }
    }

    pub fn error_code(&self) -> (code: &'static str)
        ensures
            code@ == self.spec_error_code(),
    {
        match self {
            Error::Abort => "KV:Raftstore:SnapAbort",
            Error::TooManySnapshots => "KV:Raftstore:SnapTooMany",
            Error::Other(_) => "KV:Raftstore:SnapUnknown",
        }
    }
}

} // verus!
