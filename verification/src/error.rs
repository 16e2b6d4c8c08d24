//! Errors.
use vstd::prelude::*;

verus! {

/// The kind of an [`IoError`].
#[derive(Debug, Clone, Copy, PartialEq, Eq, Structural)]
pub enum IoErrorKind {
    InvalidInput,
    InvalidData,
    UnexpectedEof,
}

/// A configuration or a region that cannot be used.
#[derive(Debug)]
pub struct IoError {
    pub kind: IoErrorKind,
    pub message: &'static str,
}

/// What can go wrong with a region of account snapshots.
#[allow(inconsistent_fields)]
#[derive(Debug)]
pub enum ShmError {
    /// The writer's heartbeat is not being updated.
    WriterStale,
    /// The writer's process does not exist.
    WriterDead(u32),
    /// A snapshot mixes two writes.
    TornRead,
    /// The data of an account exceeds the capacity of its slot. A length that
    /// does not fit is given as the largest one that does.
    SlotOverflow { actual: u32, capacity: u32 },
    /// The region does not start with the magic number.
    InvalidMagic { expected: u64, actual: u64 },
    /// The region has another format version.
    VersionMismatch { expected: u64, actual: u64 },
    /// The region has no slot for the account.
    PubkeyNotFound,
    /// The writer did not declare the region ready in time.
    NotReady,
    /// The configuration or the region cannot be used.
    Io(IoError),
}

impl ShmError {
    /// The error is an I/O error of this kind with this message.
    pub open spec fn is_io(self, kind: IoErrorKind, message: Seq<char>) -> bool {
        self matches ShmError::Io(e) && e.kind == kind && e.message@ == message
    }

    /// Makes an I/O error.
    pub fn io(kind: IoErrorKind, message: &'static str) -> (error: Self)
        ensures
            error.is_io(kind, message@),
    {
        ShmError::Io(IoError { kind, message })
    }
}

} // verus!
