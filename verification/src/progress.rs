//! Scan counters and scan outcomes.

use vstd::prelude::*;
use crate::groups::DuplicateGroups;

verus! {

/// Live, monotonic counters emitted while a media scan is running.
#[derive(Clone, Copy, Debug, PartialEq, Eq, Structural)]
pub struct ScanProgress {
    pub roots_started: usize,
    pub directories_visited: usize,
    pub files_visited: usize,
    pub media_files_found: usize,
    pub files_hashed: usize,
    /// File hashes reused after their size and timestamps matched the saved scan.
    pub hashes_reused: usize,
    pub duplicate_groups: usize,
}

impl ScanProgress {
    /// All counters at zero.
    pub open spec fn zero() -> ScanProgress {
        ScanProgress {
            roots_started: 0,
            directories_visited: 0,
            files_visited: 0,
            media_files_found: 0,
            files_hashed: 0,
            hashes_reused: 0,
            duplicate_groups: 0,
        }
    }
}

/// No counter of `a` exceeds the same counter of `b`: progress reported as `b`
/// after `a` never goes back.
pub open spec fn progress_at_most(a: ScanProgress, b: ScanProgress) -> bool {
    &&& a.roots_started <= b.roots_started
    &&& a.directories_visited <= b.directories_visited
    &&& a.files_visited <= b.files_visited
    &&& a.media_files_found <= b.media_files_found
    &&& a.files_hashed <= b.files_hashed
    &&& a.hashes_reused <= b.hashes_reused
    &&& a.duplicate_groups <= b.duplicate_groups
}

/// No more hashes were reused than media files were found.
pub open spec fn reuse_within_media(p: ScanProgress) -> bool {
    p.hashes_reused <= p.media_files_found
}

impl Default for ScanProgress {
    fn default() -> (p: ScanProgress)
        ensures
            p == ScanProgress::zero(),
    {
        ScanProgress {
            roots_started: 0,
            directories_visited: 0,
            files_visited: 0,
            media_files_found: 0,
            files_hashed: 0,
            hashes_reused: 0,
            duplicate_groups: 0,
        }
    }
}

/// Final state of a cancellable exact-duplicate scan.
#[derive(Debug)]
pub enum DuplicateScanOutcome {
    Completed(DuplicateGroups),
    Cancelled,
}

impl DuplicateScanOutcome {
    /// The scan was cancelled.
    pub fn is_cancelled(&self) -> (r: bool)
        ensures
            r == (self is Cancelled),
    {
        match self {
            DuplicateScanOutcome::Cancelled => true,
            DuplicateScanOutcome::Completed(_) => false,
        }
    }
}

} // verus!
