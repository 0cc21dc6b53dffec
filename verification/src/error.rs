//! Everything that can go wrong.
//!
//! These reports are read by whoever runs the tool, not by whoever wrote it, so
//! each one names the file and the tool that left the mark.

use vstd::prelude::*;

use crate::ops::{Collision, Token};

verus! {

/// Why the ledger refused.
#[derive(Debug)]
pub enum LedgerError {
    /// The journal file could not be read or written.
    SidecarIo { path: String, reason: String },
    /// The journal file is not a journal.
    SidecarFormat { path: String, reason: String },
    /// The journal file is of a format this build does not read.
    SidecarVersion { found: u32, expected: u32 },
    /// The journal file exists but does not read back, so it is left alone.
    SidecarClobber { path: String, reason: String },
    /// The map carries no mark from this tool.
    NotMarked(String),
    /// The map is marked, but its journal is gone.
    JournalMissing { path: String, marker: String },
    /// The journal holds no section for this tool.
    SectionMissing { path: String, name: String },
    /// The journal does not belong to this map.
    Mismatched { name: String, in_map: String, in_journal: String },
    /// One marker sits on more than one entity.
    DuplicateMarker(Token),
    /// The map was edited where the tool had written.
    Collisions(Vec<Collision>),
    /// Changes that cannot be rolled back.
    Untracked(Vec<String>),
}

} // verus!
