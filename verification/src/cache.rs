//! The saved-scan model: what a completed scan records, and the rules by which a
//! later scan reuses the hashes of files that have not changed since.

use vstd::prelude::*;
use crate::groups::DuplicateGroups;
use crate::progress::{progress_at_most, reuse_within_media, ScanProgress};
use crate::media::{media_kind, media_kind_of};

verus! {

/// Whether a scan may reuse hashes from the last completed scan.
#[derive(Debug, Clone, Copy, PartialEq, Eq, Structural)]
pub enum ScanMode {
    Incremental,
    Full,
}

impl Default for ScanMode {
    fn default() -> (m: Self)
        ensures
            m == ScanMode::Incremental,
    {
        ScanMode::Incremental
    }
}

/// The label under which a scan's mode is stored.
pub open spec fn mode_text(mode: ScanMode) -> Seq<char> {
    match mode {
        ScanMode::Incremental => "incremental"@,
        ScanMode::Full => "full"@,
    }
}

/// The label under which a scan's mode is stored.
pub fn mode_label(mode: ScanMode) -> (s: &'static str)
    ensures
        s@ == mode_text(mode),
{
    match mode {
        ScanMode::Incremental => "incremental",
        ScanMode::Full => "full",
    }
}

/// A completed scan restored from, or newly committed to, the saved-scan store.
#[derive(Debug)]
pub struct CachedScan {
    pub roots: Vec<String>,
    pub groups: DuplicateGroups,
    pub progress: ScanProgress,
    pub completed_at_unix_seconds: i64,
}

/// Final state of a cancellable scan that uses the saved-scan store.
#[derive(Debug)]
pub enum CachedScanOutcome {
    Completed(CachedScan),
    Cancelled,
}

/// What identifies an unchanged file: its size and its timestamps in nanoseconds.
#[derive(Debug, Clone, Copy, PartialEq, Eq, Structural)]
pub struct FileFingerprint {
    pub size: i64,
    pub modified_ns: i64,
    pub created_ns: i64,
}

/// The hash that a file may keep from the previous scan: the one recorded there,
/// when the scan reuses hashes and the file's fingerprint is unchanged.
pub open spec fn reusable_hash(
    mode: ScanMode,
    previous: Option<(FileFingerprint, Option<Seq<char>>)>,
    current: FileFingerprint,
) -> Option<Seq<char>> {
    match (mode, previous) {
        (ScanMode::Incremental, Some((fingerprint, Some(hash)))) => if fingerprint == current {
            Some(hash)
        } else {
            None
        },
        _ => None,
    }
}

/// The hash that a file keeps from the previous scan's record of it, if any.
pub fn reused_hash(
    mode: ScanMode,
    previous: Option<(FileFingerprint, Option<String>)>,
    current: FileFingerprint,
) -> (r: Option<String>)
    ensures
        r matches Some(h) ==> reusable_hash(
            mode,
            match previous {
                Some((f, h)) => Some((f, match h {
                    Some(t) => Some(t@),
                    None => None,
                })),
                None => None,
            },
            current,
        ) == Some(h@),
        r is None ==> reusable_hash(
            mode,
            match previous {
                Some((f, h)) => Some((f, match h {
                    Some(t) => Some(t@),
                    None => None,
                })),
                None => None,
            },
            current,
        ) is None,
{
    match mode {
        ScanMode::Full => None,
        ScanMode::Incremental => match previous {
            None => None,
            Some((fingerprint, hash)) => {
                if fingerprint == current {
                    hash
                } else {
                    None
                }
            },
        },
    }
}

/// A count stored as a signed 64-bit number, capped at the largest one.
pub fn count_to_i64(value: usize) -> (r: i64)
    ensures
        r == if value <= i64::MAX { value as int } else { i64::MAX as int },
{
    if (value as u64) <= (i64::MAX as u64) {
        value as i64
    } else {
        i64::MAX
    }
}

/// A stored count read back; a negative number reads as zero.
pub fn count_from_i64(value: i64) -> (r: usize)
    ensures
        r == if 0 <= value <= usize::MAX { value as int } else { 0 },
{
    if value < 0 {
        0
    } else if (value as u64) <= (usize::MAX as u64) {
        value as usize
    } else {
        0
    }
}

/// Progress is reported after every 250th file visited.
pub fn traversal_report_due(progress: &ScanProgress) -> (r: bool)
    ensures
        r == (progress.files_visited % 250 == 0),
{
    progress.files_visited % 250 == 0
}

/// Progress is reported after every 25th file hashed.
pub fn hashing_report_due(progress: &ScanProgress) -> (r: bool)
    ensures
        r == (progress.files_hashed % 25 == 0),
{
    progress.files_hashed % 25 == 0
}

/// The schema version of the saved-scan store that this build reads and writes.
pub const SCHEMA_VERSION: i64 = 1;

/// The refusal of a store written with a newer schema.
pub open spec fn newer_schema_message(found: nat) -> Seq<char> {
    "The saved scan uses schema version "@ + crate::text::decimal(found)
        + ", but this MediaSift build supports version 1."@
}

/// Accepts a store whose schema version this build supports, and refuses a newer
/// one with an explanation.
pub fn check_schema_version(found: i64) -> (r: Result<(), String>)
    ensures
        r is Ok <==> found <= SCHEMA_VERSION,
        r matches Err(e) ==> e@ == newer_schema_message(found as nat),
{
    if found <= SCHEMA_VERSION {
        Ok(())
    } else {
        let mut e = String::new();
        crate::text::push_text(&mut e, "The saved scan uses schema version ");
        crate::text::push_decimal(&mut e, found as u64);
        crate::text::push_text(&mut e, ", but this MediaSift build supports version 1.");
        Err(e)
    }
}

/// How many rows of the index are written between two commits.
pub const INSERT_COMMIT_INTERVAL: usize = 5000;

/// The counters of a scan that builds a new index generation, with the number
/// of rows written since the last commit.
pub struct IndexBuild {
    pub progress: ScanProgress,
    pub pending_inserts: usize,
}

impl IndexBuild {
    /// A build that has seen nothing yet.
    pub fn new() -> (b: IndexBuild)
        ensures
            b.progress == ScanProgress::zero(),
            b.pending_inserts == 0,
            reuse_within_media(b.progress),
    {
        IndexBuild { progress: ScanProgress::default(), pending_inserts: 0 }
    }

    /// The walk starts on one more location.
    pub fn begin_root(&mut self)
        requires
            old(self).progress.roots_started < usize::MAX,
        ensures
            final(self).progress == (ScanProgress {
                roots_started: (old(self).progress.roots_started + 1) as usize,
                ..old(self).progress
            }),
            final(self).pending_inserts == old(self).pending_inserts,
            progress_at_most(old(self).progress, final(self).progress),
            reuse_within_media(old(self).progress) ==> reuse_within_media(final(self).progress),
    {
        self.progress.roots_started = self.progress.roots_started + 1;
    }

    /// The walk found a directory.
    pub fn visit_directory(&mut self)
        requires
            old(self).progress.directories_visited < usize::MAX,
        ensures
            final(self).progress == (ScanProgress {
                directories_visited: (old(self).progress.directories_visited + 1) as usize,
                ..old(self).progress
            }),
            final(self).pending_inserts == old(self).pending_inserts,
            progress_at_most(old(self).progress, final(self).progress),
            reuse_within_media(old(self).progress) ==> reuse_within_media(final(self).progress),
    {
        self.progress.directories_visited = self.progress.directories_visited + 1;
    }

    /// The walk found the file `path`. It is counted; the result says whether it
    /// is a known media file, which the index records.
    pub fn visit_file(&mut self, path: &str) -> (media: bool)
        requires
            old(self).progress.files_visited < usize::MAX,
        ensures
            media == (media_kind_of(path@) is Some),
            final(self).progress == (ScanProgress {
                files_visited: (old(self).progress.files_visited + 1) as usize,
                ..old(self).progress
            }),
            final(self).pending_inserts == old(self).pending_inserts,
            progress_at_most(old(self).progress, final(self).progress),
            reuse_within_media(old(self).progress) ==> reuse_within_media(final(self).progress),
    {
        self.progress.files_visited = self.progress.files_visited + 1;
        media_kind(path).is_some()
    }

    /// A media file was offered to the index: `inserted` when its row was new,
    /// `reused` when that row kept the previous scan's hash. The result says
    /// whether the rows written since the last commit have reached the commit
    /// interval; the count then starts again from zero.
    pub fn record_row(&mut self, inserted: bool, reused: bool) -> (commit_due: bool)
        requires
            old(self).progress.media_files_found < usize::MAX,
            old(self).progress.hashes_reused < usize::MAX,
            old(self).pending_inserts < INSERT_COMMIT_INTERVAL,
        ensures
            final(self).progress == (ScanProgress {
                media_files_found: (old(self).progress.media_files_found + if inserted {
                    1int
                } else {
                    0int
                }) as usize,
                hashes_reused: (old(self).progress.hashes_reused + if inserted && reused {
                    1int
                } else {
                    0int
                }) as usize,
                ..old(self).progress
            }),
            commit_due == (old(self).pending_inserts + if inserted {
                1int
            } else {
                0int
            } >= INSERT_COMMIT_INTERVAL),
            final(self).pending_inserts == if commit_due {
                0
            } else {
                old(self).pending_inserts + if inserted {
                    1int
                } else {
                    0int
                }
            },
            final(self).pending_inserts < INSERT_COMMIT_INTERVAL,
            progress_at_most(old(self).progress, final(self).progress),
            reuse_within_media(old(self).progress) ==> reuse_within_media(final(self).progress),
    {
        if inserted {
            self.progress.media_files_found = self.progress.media_files_found + 1;
            if reused {
                self.progress.hashes_reused = self.progress.hashes_reused + 1;
            }
            self.pending_inserts = self.pending_inserts + 1;
        }
        if self.pending_inserts >= INSERT_COMMIT_INTERVAL {
            self.pending_inserts = 0;
            true
        } else {
            false
        }
    }

    /// One more indexed file was dealt with in the hashing pass; the result says
    /// whether progress is due for a report.
    pub fn record_hashed(&mut self) -> (report_due: bool)
        requires
            old(self).progress.files_hashed < usize::MAX,
        ensures
            final(self).progress == (ScanProgress {
                files_hashed: (old(self).progress.files_hashed + 1) as usize,
                ..old(self).progress
            }),
            final(self).pending_inserts == old(self).pending_inserts,
            report_due == (final(self).progress.files_hashed % 25 == 0),
            progress_at_most(old(self).progress, final(self).progress),
            reuse_within_media(old(self).progress) ==> reuse_within_media(final(self).progress),
    {
        self.progress.files_hashed = self.progress.files_hashed + 1;
        hashing_report_due(&self.progress)
    }

    /// The scan ends with `groups` duplicate groups.
    pub fn finish(&mut self, groups: usize)
        ensures
            final(self).progress == (ScanProgress { duplicate_groups: groups, ..old(self).progress }),
            final(self).pending_inserts == old(self).pending_inserts,
            reuse_within_media(old(self).progress) ==> reuse_within_media(final(self).progress),
    {
        self.progress.duplicate_groups = groups;
    }
}

/// What the hashing pass does with an indexed file.
#[derive(Debug, Clone, Copy, PartialEq, Eq, Structural)]
pub enum IndexedFileStep {
    /// The file changed or vanished since it was indexed: its row goes.
    Forget,
    /// The file is unchanged and already has a hash.
    Keep,
    /// The file is unchanged and must be read and hashed.
    Hash,
}

/// The step for an indexed file whose fingerprint is now `current` (`None`
/// when it can no longer be read) and was `indexed` when its row was written.
pub fn indexed_file_step(current: Option<FileFingerprint>, indexed: FileFingerprint, has_hash: bool) -> (step: IndexedFileStep)
    ensures
        step == if current != Some(indexed) {
            IndexedFileStep::Forget
        } else if has_hash {
            IndexedFileStep::Keep
        } else {
            IndexedFileStep::Hash
        },
{
    match current {
        Some(now) => {
            if now == indexed {
                if has_hash {
                    IndexedFileStep::Keep
                } else {
                    IndexedFileStep::Hash
                }
            } else {
                IndexedFileStep::Forget
            }
        },
        None => IndexedFileStep::Forget,
    }
}

/// How reading an indexed file for its hash ended.
#[derive(Debug, Clone, Copy, PartialEq, Eq, Structural)]
pub enum HashOutcome {
    /// The whole file was read and hashed.
    Hashed,
    /// The scan was cancelled while the file was read.
    Cancelled,
    /// The file could not be read.
    Unreadable,
}

/// What the hashing pass does once it has tried to hash an indexed file.
#[derive(Debug, Clone, Copy, PartialEq, Eq, Structural)]
pub enum HashedFileStep {
    /// The file is unchanged since it was indexed: its row keeps the new hash.
    StoreHash,
    /// The file changed while it was read, or could not be read: its row goes.
    Forget,
    /// The scan was cancelled: it stops here.
    Stop,
}

/// The step after hashing an indexed file whose fingerprint was `indexed` and is
/// `after` once read (`None` when it can no longer be read).
pub fn hashed_file_step(outcome: HashOutcome, after: Option<FileFingerprint>, indexed: FileFingerprint) -> (step: HashedFileStep)
    ensures
        step == match outcome {
            HashOutcome::Cancelled => HashedFileStep::Stop,
            HashOutcome::Unreadable => HashedFileStep::Forget,
            HashOutcome::Hashed => if after == Some(indexed) {
                HashedFileStep::StoreHash
            } else {
                HashedFileStep::Forget
            },
        },
{
    match outcome {
        HashOutcome::Cancelled => HashedFileStep::Stop,
        HashOutcome::Unreadable => HashedFileStep::Forget,
        HashOutcome::Hashed => match after {
            Some(now) => {
                if now == indexed {
                    HashedFileStep::StoreHash
                } else {
                    HashedFileStep::Forget
                }
            },
            None => HashedFileStep::Forget,
        },
    }
}


/// A saved hash is reused only by an incremental scan, only for a file whose size
/// and timestamps are all unchanged, and it is then the saved hash itself; a full
/// scan, a changed file, or a file saved without a hash is hashed anew.
pub proof fn lemma_reuse_only_unchanged(
    mode: ScanMode,
    previous: Option<(FileFingerprint, Option<Seq<char>>)>,
    current: FileFingerprint,
    h: Seq<char>,
)
    ensures
        reusable_hash(mode, previous, current) == Some(h) <==> (mode == ScanMode::Incremental && previous
            == Some((current, Some(h)))),
        mode == ScanMode::Full ==> reusable_hash(mode, previous, current) is None,
        previous matches Some((f, _)) && (f.size != current.size || f.modified_ns != current.modified_ns
            || f.created_ns != current.created_ns) ==> reusable_hash(mode, previous, current) is None,
{
}


/// The two scan modes are stored under different labels, so the stored label
/// tells which mode a saved scan used.
pub proof fn lemma_mode_labels_distinct(a: ScanMode, b: ScanMode)
    ensures
        a != b ==> mode_text(a) != mode_text(b),
{
    reveal_strlit("incremental");
    reveal_strlit("full");
    if a != b {
        assert(mode_text(a).len() != mode_text(b).len());
    }
}

} // verus!
