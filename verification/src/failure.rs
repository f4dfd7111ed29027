//! How failures of the files and of the LMDB environment are reported.
use crate::error::{IoError, WalError};
use vstd::prelude::*;
use vstd::string::StringExecFns;

verus! {

/// The size that an LMDB environment can grow to: 1 GiB.
pub const LMDB_MAP_SIZE: usize = 1_073_741_824;

/// The number of named databases that an LMDB environment can hold.
pub const LMDB_MAX_DBS: u32 = 1;

/// A step that can fail outside of the library.
#[derive(Debug, Clone, Copy, PartialEq, Eq, Structural)]
pub enum OutsideStep {
    JoinFlusher,
    WriteCheckpoint,
    ReadCheckpoint,
    RenameWal,
    OpenLmdb,
    BeginRead,
    BeginWrite,
    CreateDatabase,
    CommitInitial,
    Get,
    Put,
    Delete,
    Commit,
    CommitBatch,
}

impl OutsideStep {
    /// What is said of a failure of the step, in front of its description.
    pub open spec fn text(self) -> Seq<char> {
        match self {
            OutsideStep::JoinFlusher => "Flusher join error: "@,
            OutsideStep::WriteCheckpoint => "Failed to write checkpoint: "@,
            OutsideStep::ReadCheckpoint => "Failed to read checkpoint: "@,
            OutsideStep::RenameWal => "Failed to rename WAL: "@,
            OutsideStep::OpenLmdb => "Failed to open LMDB: "@,
            OutsideStep::BeginRead => "Failed to create read transaction: "@,
            OutsideStep::BeginWrite => "Failed to create write transaction: "@,
            OutsideStep::CreateDatabase => "Failed to create database: "@,
            OutsideStep::CommitInitial => "Failed to commit initial transaction: "@,
            OutsideStep::Get => "Failed to get value: "@,
            OutsideStep::Put => "Failed to put value: "@,
            OutsideStep::Delete => "Failed to delete key: "@,
            OutsideStep::Commit => "Failed to commit transaction: "@,
            OutsideStep::CommitBatch => "Failed to commit batch transaction: "@,
        }
    }

    /// Whether the step is part of a checkpoint.
    pub open spec fn is_checkpoint_step(self) -> bool {
        self is WriteCheckpoint || self is ReadCheckpoint || self is RenameWal
    }

    /// Whether `error` is the error for a failure of the step with the given description.
    pub open spec fn is_failure(self, error: WalError, detail: Seq<char>) -> bool {
        if self.is_checkpoint_step() {
            error matches WalError::Checkpoint(text) && text@ == self.text() + detail
        } else {
            error matches WalError::Io(IoError::Other(text)) && text@ == self.text() + detail
        }
    }

    /// The error for a failure of the step with the given description.
    pub fn failure(self, detail: &str) -> (error: WalError)
        ensures
            self.is_failure(error, detail@),
    {
        let prefix = match self {
            OutsideStep::JoinFlusher => "Flusher join error: ",
            OutsideStep::WriteCheckpoint => "Failed to write checkpoint: ",
            OutsideStep::ReadCheckpoint => "Failed to read checkpoint: ",
            OutsideStep::RenameWal => "Failed to rename WAL: ",
            OutsideStep::OpenLmdb => "Failed to open LMDB: ",
            OutsideStep::BeginRead => "Failed to create read transaction: ",
            OutsideStep::BeginWrite => "Failed to create write transaction: ",
            OutsideStep::CreateDatabase => "Failed to create database: ",
            OutsideStep::CommitInitial => "Failed to commit initial transaction: ",
            OutsideStep::Get => "Failed to get value: ",
            OutsideStep::Put => "Failed to put value: ",
            OutsideStep::Delete => "Failed to delete key: ",
            OutsideStep::Commit => "Failed to commit transaction: ",
            OutsideStep::CommitBatch => "Failed to commit batch transaction: ",
        };
        let mut text = prefix.to_string();
        text.append(detail);
        match self {
            OutsideStep::WriteCheckpoint | OutsideStep::ReadCheckpoint | OutsideStep::RenameWal => {
                WalError::Checkpoint(text)
            },
            _ => WalError::Io(IoError::Other(text)),
        }
    }
}

} // verus!
