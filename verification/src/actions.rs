//! File actions on reviewed duplicates and renamed media: their summaries, the
//! archive settings, and the re-verification that guards destructive actions.

use vstd::prelude::*;
use crate::groups::path_texts;
use crate::paths::matches_text;
use crate::text::{chars_of, push_text};

verus! {

/// How strongly a backup archive compresses its files.
#[derive(Debug, Clone, Copy, PartialEq, Eq, Structural)]
pub enum ArchiveCompression {
    Stored,
    Fast,
    Default,
    Maximum,
}

/// How a ZIP entry is written.
#[derive(Debug, Clone, Copy, PartialEq, Eq, Structural)]
pub enum ZipMethod {
    Stored,
    Deflated,
}

/// The method and the compression level that a setting stands for.
pub open spec fn zip_settings_of(c: ArchiveCompression) -> (ZipMethod, Option<i64>) {
    match c {
        ArchiveCompression::Stored => (ZipMethod::Stored, None),
        ArchiveCompression::Fast => (ZipMethod::Deflated, Some(1)),
        ArchiveCompression::Default => (ZipMethod::Deflated, None),
        ArchiveCompression::Maximum => (ZipMethod::Deflated, Some(9)),
    }
}

/// The ZIP method and level (`None`: the method's default) for a compression setting.
pub fn zip_settings(c: ArchiveCompression) -> (r: (ZipMethod, Option<i64>))
    ensures
        r == zip_settings_of(c),
{
    match c {
        ArchiveCompression::Stored => (ZipMethod::Stored, None),
        ArchiveCompression::Fast => (ZipMethod::Deflated, Some(1)),
        ArchiveCompression::Default => (ZipMethod::Deflated, None),
        ArchiveCompression::Maximum => (ZipMethod::Deflated, Some(9)),
    }
}

/// The compression setting chosen by its position in the settings list; any
/// position other than the first, second and fourth is the default.
pub fn compression_choice(index: usize) -> (c: ArchiveCompression)
    ensures
        index == 0 ==> c == ArchiveCompression::Stored,
        index == 1 ==> c == ArchiveCompression::Fast,
        index == 3 ==> c == ArchiveCompression::Maximum,
        index != 0 && index != 1 && index != 3 ==> c == ArchiveCompression::Default,
{
    if index == 0 {
        ArchiveCompression::Stored
    } else if index == 1 {
        ArchiveCompression::Fast
    } else if index == 3 {
        ArchiveCompression::Maximum
    } else {
        ArchiveCompression::Default
    }
}

/// The line that records a failure on `path`: `path: error`.
pub open spec fn failure_line(path: Seq<char>, error: Seq<char>) -> Seq<char> {
    path + ": "@ + error
}

fn failure_text(path: &str, error: &str) -> (s: String)
    ensures
        s@ == failure_line(path@, error@),
{
    let mut s = String::new();
    push_text(&mut s, path);
    push_text(&mut s, ": ");
    push_text(&mut s, error);
    s
}

/// The outcome of applying a file action to a list of paths.
#[derive(Debug, Clone)]
pub struct FileActionSummary {
    pub processed: usize,
    pub failures: Vec<String>,
}

impl FileActionSummary {
    /// No file processed yet.
    pub fn new() -> (s: Self)
        ensures
            s.processed == 0,
            s.failures@.len() == 0,
    {
        FileActionSummary { processed: 0, failures: Vec::new() }
    }

    /// One more file was processed.
    pub fn record_success(&mut self)
        requires
            old(self).processed < usize::MAX,
        ensures
            final(self).processed == old(self).processed + 1,
            final(self).failures == old(self).failures,
    {
        self.processed = self.processed + 1;
    }

    /// The action failed on `path` with `error`.
    pub fn record_failure(&mut self, path: &str, error: &str)
        ensures
            final(self).processed == old(self).processed,
            path_texts(final(self).failures@) == path_texts(old(self).failures@).push(
                failure_line(path@, error@),
            ),
    {
        let line = failure_text(path, error);
        let ghost before = self.failures@;
        self.failures.push(line);
        assert(path_texts(self.failures@) =~= path_texts(before).push(failure_line(path@, error@)));
    }
}

/// Where the date in a renamed file's prefix came from.
#[derive(Debug, Clone, Copy, PartialEq, Eq, Structural)]
pub enum DateSource {
    EmbeddedCapture,
    Filesystem,
}

/// The outcome of adding date prefixes to media file names.
#[derive(Debug, Clone)]
pub struct RenameSummary {
    pub renamed: usize,
    pub corrected_prefixes: usize,
    pub capture_dates_used: usize,
    pub filesystem_dates_used: usize,
    pub skipped: usize,
    pub failures: Vec<String>,
}

/// The counters of a rename summary, in field order.
pub open spec fn rename_counts(s: RenameSummary) -> (usize, usize, usize, usize, usize) {
    (s.renamed, s.corrected_prefixes, s.capture_dates_used, s.filesystem_dates_used, s.skipped)
}

/// The counts of a summary agree: every renamed file took its date from one
/// source, and only renamed files corrected a prefix.
pub open spec fn counts_agree(s: RenameSummary) -> bool {
    &&& s.renamed == s.capture_dates_used + s.filesystem_dates_used
    &&& s.corrected_prefixes <= s.renamed
}

impl RenameSummary {
    /// Nothing renamed, skipped or failed yet.
    pub fn new() -> (s: Self)
        ensures
            rename_counts(s) == (0usize, 0usize, 0usize, 0usize, 0usize),
            s.failures@.len() == 0,
            counts_agree(s),
    {
        RenameSummary {
            renamed: 0,
            corrected_prefixes: 0,
            capture_dates_used: 0,
            filesystem_dates_used: 0,
            skipped: 0,
            failures: Vec::new(),
        }
    }

    /// A file was left as it was.
    pub fn record_skip(&mut self)
        requires
            old(self).skipped < usize::MAX,
        ensures
            rename_counts(*final(self)) == (
                old(self).renamed,
                old(self).corrected_prefixes,
                old(self).capture_dates_used,
                old(self).filesystem_dates_used,
                (old(self).skipped + 1) as usize,
            ),
            final(self).failures == old(self).failures,
            counts_agree(*old(self)) ==> counts_agree(*final(self)),
    {
        self.skipped = self.skipped + 1;
    }

    /// Renaming `path` failed with `error`.
    pub fn record_failure(&mut self, path: &str, error: &str)
        ensures
            rename_counts(*final(self)) == rename_counts(*old(self)),
            counts_agree(*old(self)) ==> counts_agree(*final(self)),
            path_texts(final(self).failures@) == path_texts(old(self).failures@).push(
                failure_line(path@, error@),
            ),
    {
        let line = failure_text(path, error);
        let ghost before = self.failures@;
        self.failures.push(line);
        assert(path_texts(self.failures@) =~= path_texts(before).push(failure_line(path@, error@)));
    }

    /// A file was renamed; `corrected` when it replaced an existing prefix, with
    /// its date taken from `source`.
    pub fn record_rename(&mut self, corrected: bool, source: DateSource)
        requires
            old(self).renamed < usize::MAX,
            old(self).corrected_prefixes < usize::MAX,
            old(self).capture_dates_used < usize::MAX,
            old(self).filesystem_dates_used < usize::MAX,
        ensures
            rename_counts(*final(self)) == (
                (old(self).renamed + 1) as usize,
                (old(self).corrected_prefixes + if corrected { 1int } else { 0int }) as usize,
                (old(self).capture_dates_used + if source == DateSource::EmbeddedCapture { 1int } else { 0int }) as usize,
                (old(self).filesystem_dates_used + if source == DateSource::Filesystem { 1int } else { 0int }) as usize,
                old(self).skipped,
            ),
            final(self).failures == old(self).failures,
            counts_agree(*old(self)) ==> counts_agree(*final(self)),
    {
        self.renamed = self.renamed + 1;
        if corrected {
            self.corrected_prefixes = self.corrected_prefixes + 1;
        }
        match source {
            DateSource::EmbeddedCapture => self.capture_dates_used = self.capture_dates_used + 1,
            DateSource::Filesystem => self.filesystem_dates_used = self.filesystem_dates_used + 1,
        }
    }
}

/// User-selected behavior for adding dates to media file names.
#[derive(Debug, Clone, Copy, PartialEq, Eq, Structural)]
pub struct DatePrefixOptions {
    /// For media without an embedded capture date, use the earlier filesystem
    /// timestamp instead of preferring creation time.
    pub use_oldest_filesystem_date: bool,
    /// Replace an existing `YYYY-MM-DD - ` prefix when it disagrees with the
    /// preferred date.
    pub correct_existing_prefixes: bool,
}

impl Default for DatePrefixOptions {
    fn default() -> (o: Self)
        ensures
            !o.use_oldest_filesystem_date,
            !o.correct_existing_prefixes,
    {
        DatePrefixOptions { use_oldest_filesystem_date: false, correct_existing_prefixes: false }
    }
}

/// Files from one duplicate group that must still match their scanned hash
/// immediately before a destructive action runs.
#[derive(Debug, Clone)]
pub struct DuplicateActionVerification {
    pub expected_hash: String,
    pub keeper: String,
    pub selected: Vec<String>,
}

/// The paths of a group that are hashed again: the kept copy, then the selected ones.
pub open spec fn checked_paths(g: DuplicateActionVerification) -> Seq<Seq<char>> {
    seq![g.keeper@] + path_texts(g.selected@)
}

/// Why re-verification stopped: the message shown to the user and, when a file
/// could not be read, the kind of the read error that `hash` reported.
pub struct VerificationFailure<K> {
    pub message: String,
    pub read_error: Option<K>,
}

/// The result as plain texts, an error keeping its kind.
pub open spec fn result_text<K>(o: Result<String, (String, K)>) -> Result<Seq<char>, (Seq<char>, K)> {
    match o {
        Ok(h) => Ok(h@),
        Err((e, k)) => Err((e@, k)),
    }
}

/// A call of `hash` on the path `path` gave `out`.
pub open spec fn gave<K, F: Fn(&String) -> Result<String, (String, K)>>(
    hash: F,
    path: Seq<char>,
    out: Result<Seq<char>, (Seq<char>, K)>,
) -> bool {
    exists|p: String, o: Result<String, (String, K)>|
        #![trigger call_ensures(hash, (&p,), o)]
        p@ == path && call_ensures(hash, (&p,), o) && result_text(o) == out
}

/// The message when `path` could not be hashed again.
pub open spec fn unverifiable_message(path: Seq<char>, error: Seq<char>) -> Seq<char> {
    "Could not verify "@ + path + " before changing files: "@ + error
        + ". Refresh the scan and review the group again."@
}

/// The message when `path` no longer has its scanned content.
pub open spec fn changed_message(path: Seq<char>) -> Seq<char> {
    path + " changed after the scan and is no longer an exact duplicate. Refresh the scan and review the group again."@
}

/// Checking `path` against `expected` failed with `f`: either `path` could not
/// be read (and `f` keeps the read error's kind) or its hash differs.
pub open spec fn check_failed<K, F: Fn(&String) -> Result<String, (String, K)>>(
    hash: F,
    path: Seq<char>,
    expected: Seq<char>,
    f: VerificationFailure<K>,
) -> bool {
    ||| exists|x: Seq<char>, k: K|
        gave(hash, path, Err((x, k))) && f.message@ == unverifiable_message(path, x) && f.read_error
            == Some(k)
    ||| exists|h: Seq<char>|
        h != expected && gave(hash, path, Ok(h)) && f.message@ == changed_message(path)
            && f.read_error is None
}

/// Every path of the groups before position `g`, and the first `i` paths of group
/// `g`, hashed to their group's expected hash.
pub open spec fn checked_before<K, F: Fn(&String) -> Result<String, (String, K)>>(
    hash: F,
    groups: Seq<DuplicateActionVerification>,
    g: int,
    i: int,
) -> bool {
    forall|a: int, j: int|
        0 <= a < groups.len() && 0 <= j < checked_paths(groups[a]).len() && (a < g || (a == g && j
            < i)) ==> gave(hash, #[trigger] checked_paths(groups[a])[j], Ok(groups[a].expected_hash@))
}

fn check_path<K, F: Fn(&String) -> Result<String, (String, K)>>(
    hash: &F,
    path: &String,
    expected: &String,
) -> (r: Result<(), VerificationFailure<K>>)
    requires
        forall|p: &String| #[trigger] hash.requires((p,)),
    ensures
        r is Ok ==> gave(*hash, path@, Ok(expected@)),
        r matches Err(f) ==> check_failed(*hash, path@, expected@, f),
{
    let out = hash(path);
    assert(call_ensures(*hash, (&*path,), out));
    match out {
        Err((x, kind)) => {
            let mut e = String::new();
            push_text(&mut e, "Could not verify ");
            push_text(&mut e, path.as_str());
            push_text(&mut e, " before changing files: ");
            push_text(&mut e, x.as_str());
            push_text(&mut e, ". Refresh the scan and review the group again.");
            assert(gave(*hash, path@, Err((x@, kind))));
            assert(e@ =~= unverifiable_message(path@, x@));
            Err(VerificationFailure { message: e, read_error: Some(kind) })
        },
        Ok(h) => {
            let a = chars_of(h.as_str());
            let b = chars_of(expected.as_str());
            if matches_text(&a, b.as_slice()) {
                assert(gave(*hash, path@, Ok(h@)));
                Ok(())
            } else {
                let mut e = String::new();
                push_text(&mut e, path.as_str());
                push_text(
                    &mut e,
                    " changed after the scan and is no longer an exact duplicate. Refresh the scan and review the group again.",
                );
                assert(gave(*hash, path@, Ok(h@)));
                Err(VerificationFailure { message: e, read_error: None })
            }
        },
    }
}

/// Hashes again every selected copy and one kept copy of each affected group, in
/// order, and stops at the first that no longer has its group's expected hash.
/// `hash` gives a file's current content hash, or, when it cannot be read, an
/// error text with the error's kind, which the failure keeps.
pub fn verify_duplicate_action_groups<K, F: Fn(&String) -> Result<String, (String, K)>>(
    groups: &Vec<DuplicateActionVerification>,
    hash: F,
) -> (r: Result<(), VerificationFailure<K>>)
    requires
        forall|p: &String| #[trigger] hash.requires((p,)),
    ensures
        r is Ok ==> checked_before(hash, groups@, groups@.len() as int, 0),
        r is Ok ==> forall|g: int| 0 <= g < groups@.len() ==> gave(hash, (#[trigger] groups@[g]).keeper@, Ok(groups@[g].expected_hash@)),
        r is Ok ==> forall|g: int, j: int|
            0 <= g < groups@.len() && 0 <= j < groups@[g].selected@.len() ==> gave(
                hash,
                (#[trigger] groups@[g].selected@[j])@,
                Ok(groups@[g].expected_hash@),
            ),
        r matches Err(e) ==> exists|g: int, i: int|
            0 <= g < groups@.len() && 0 <= i < checked_paths(groups@[g]).len() && checked_before(
                hash,
                groups@,
                g,
                i,
            ) && check_failed(hash, #[trigger] checked_paths(groups@[g])[i], groups@[g].expected_hash@, e),
{
    let mut g: usize = 0;
    while g < groups.len()
        invariant
            forall|p: &String| #[trigger] hash.requires((p,)),
            g <= groups.len(),
            checked_before(hash, groups@, g as int, 0),
        decreases groups.len() - g,
    {
        let group = &groups[g];
        let ghost cp = checked_paths(groups@[g as int]);
        assert(cp[0] == group.keeper@);
        match check_path(&hash, &group.keeper, &group.expected_hash) {
            Err(e) => {
                assert(check_failed(hash, cp[0], groups@[g as int].expected_hash@, e));
                return Err(e);
            },
            Ok(()) => {},
        }
        assert(checked_before(hash, groups@, g as int, 1)) by {
            assert forall|a: int, j: int|
                0 <= a < groups@.len() && 0 <= j < checked_paths(groups@[a]).len() && (a < g || (a == g
                    && j < 1)) implies gave(hash, #[trigger] checked_paths(groups@[a])[j], Ok(groups@[a].expected_hash@)) by {
                if a == g {
                    assert(j == 0);
                }
            }
        }
        let mut i: usize = 0;
        while i < group.selected.len()
            invariant
                forall|p: &String| #[trigger] hash.requires((p,)),
                g < groups.len(),
                group == &groups@[g as int],
                cp == checked_paths(groups@[g as int]),
                i <= group.selected.len(),
                checked_before(hash, groups@, g as int, i + 1),
            decreases group.selected.len() - i,
        {
            assert(cp[i + 1] == group.selected@[i as int]@);
            match check_path(&hash, &group.selected[i], &group.expected_hash) {
                Err(e) => {
                    assert(check_failed(hash, cp[i + 1], groups@[g as int].expected_hash@, e));
                    return Err(e);
                },
                Ok(()) => {},
            }
            assert(checked_before(hash, groups@, g as int, i + 2)) by {
                assert forall|a: int, j: int|
                    0 <= a < groups@.len() && 0 <= j < checked_paths(groups@[a]).len() && (a < g || (a
                        == g && j < i + 2)) implies gave(hash, #[trigger] checked_paths(groups@[a])[j], Ok(groups@[a].expected_hash@)) by {
                    if a == g && j == i + 1 {
                        assert(checked_paths(groups@[a])[j] == cp[i + 1]);
                    }
                }
            }
            i += 1;
        }
        assert(checked_before(hash, groups@, g + 1, 0)) by {
            assert forall|a: int, j: int|
                0 <= a < groups@.len() && 0 <= j < checked_paths(groups@[a]).len() && (a < g + 1 || (a
                    == g + 1 && j < 0)) implies gave(hash, #[trigger] checked_paths(groups@[a])[j], Ok(groups@[a].expected_hash@)) by {
                if a == g {
                    assert(j < i + 1);
                }
            }
        }
        g += 1;
    }
    proof {
        lemma_every_copy_rehashed(hash, groups@);
    }
    Ok(())
}

/// Once every group has been checked, the kept copy and every selected copy of
/// every group were hashed again to the group's expected hash.
pub proof fn lemma_every_copy_rehashed<K, F: Fn(&String) -> Result<String, (String, K)>>(
    hash: F,
    groups: Seq<DuplicateActionVerification>,
)
    requires
        checked_before(hash, groups, groups.len() as int, 0),
    ensures
        forall|g: int| 0 <= g < groups.len() ==> gave(hash, (#[trigger] groups[g]).keeper@, Ok(groups[g].expected_hash@)),
        forall|g: int, j: int|
            0 <= g < groups.len() && 0 <= j < groups[g].selected@.len() ==> gave(
                hash,
                (#[trigger] groups[g].selected@[j])@,
                Ok(groups[g].expected_hash@),
            ),
{
    assert forall|g: int| 0 <= g < groups.len() implies gave(hash, (#[trigger] groups[g]).keeper@, Ok(groups[g].expected_hash@)) by {
        assert(checked_paths(groups[g])[0] == groups[g].keeper@);
    }
    assert forall|g: int, j: int| 0 <= g < groups.len() && 0 <= j < groups[g].selected@.len() implies gave(
        hash,
        (#[trigger] groups[g].selected@[j])@,
        Ok(groups[g].expected_hash@),
    ) by {
        assert(checked_paths(groups[g])[j + 1] == groups[g].selected@[j]@);
    }
}

} // verus!
