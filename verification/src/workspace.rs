//! The desktop workspace: pages, notices, the scan lifecycle and the rules that
//! turn the results of background work into what the user sees next.

use vstd::prelude::*;
use crate::groups::path_texts;
use crate::paths::{path_before, path_key, path_starts_with, same_path, starts_with_path};
use crate::text::{chars_before, lemma_chars_before_asymmetric, lemma_chars_before_common_prefix, lemma_chars_before_irreflexive};
use crate::sorting::{sorted_unique_of, sorted_unique_paths};
use crate::text::{decimal, push_count, push_text};

verus! {

/// A file action that waits for the user's confirmation.
#[derive(Clone, Copy, Debug, PartialEq, Eq, Structural)]
pub enum PendingAction {
    Recycle,
    Delete,
    Archive,
}

/// The question that confirms a pending action.
pub open spec fn action_title(a: PendingAction) -> Seq<char> {
    match a {
        PendingAction::Recycle => "Move files to the Recycle Bin?"@,
        PendingAction::Delete => "Permanently delete files?"@,
        PendingAction::Archive => "Create a ZIP backup?"@,
    }
}

impl PendingAction {
    /// The question that confirms the action.
    pub fn title(self) -> (s: &'static str)
        ensures
            s@ == action_title(self),
    {
        match self {
            PendingAction::Recycle => "Move files to the Recycle Bin?",
            PendingAction::Delete => "Permanently delete files?",
            PendingAction::Archive => "Create a ZIP backup?",
        }
    }
}

/// What the confirmation of `a` says will happen to `count` files.
pub open spec fn confirmation_text(a: PendingAction, count: nat) -> Seq<char> {
    match a {
        PendingAction::Recycle => decimal(count)
            + " unchecked duplicate file(s) will move to the Recycle Bin. You can usually restore them later."@,
        PendingAction::Delete => decimal(count)
            + " unchecked duplicate file(s) will be permanently deleted. This cannot be undone."@,
        PendingAction::Archive => decimal(count)
            + " unchecked duplicate file(s) will be copied into a ZIP backup. The original files will remain in place."@,
    }
}

/// The label of the button that confirms `a` on `count` files.
pub open spec fn confirm_label_text(a: PendingAction, count: nat) -> Seq<char> {
    match a {
        PendingAction::Recycle => "Recycle "@ + decimal(count) + " file(s)"@,
        PendingAction::Delete => "Delete "@ + decimal(count) + " file(s) permanently"@,
        PendingAction::Archive => "Choose ZIP location..."@,
    }
}

impl PendingAction {
    /// What the confirmation says will happen to the `count` selected files.
    pub fn confirmation(self, count: usize) -> (s: String)
        ensures
            s@ == confirmation_text(self, count as nat),
    {
        let mut s = String::new();
        push_count(&mut s, count);
        match self {
            PendingAction::Recycle => push_text(
                &mut s,
                " unchecked duplicate file(s) will move to the Recycle Bin. You can usually restore them later.",
            ),
            PendingAction::Delete => push_text(
                &mut s,
                " unchecked duplicate file(s) will be permanently deleted. This cannot be undone.",
            ),
            PendingAction::Archive => push_text(
                &mut s,
                " unchecked duplicate file(s) will be copied into a ZIP backup. The original files will remain in place.",
            ),
        }
        s
    }

    /// The label of the button that confirms the action on `count` files.
    pub fn confirm_label(self, count: usize) -> (s: String)
        ensures
            s@ == confirm_label_text(self, count as nat),
    {
        let mut s = String::new();
        match self {
            PendingAction::Recycle => {
                push_text(&mut s, "Recycle ");
                push_count(&mut s, count);
                push_text(&mut s, " file(s)");
            },
            PendingAction::Delete => {
                push_text(&mut s, "Delete ");
                push_count(&mut s, count);
                push_text(&mut s, " file(s) permanently");
            },
            PendingAction::Archive => push_text(&mut s, "Choose ZIP location..."),
        }
        s
    }
}

/// The action that may run once the affected files have been hashed again with
/// the result `verified`: recycling and deleting only when that passed; an
/// archive copies files and changes none, so it runs either way.
pub fn action_after_verification<E>(action: PendingAction, verified: &Result<(), E>) -> (r: Option<PendingAction>)
    ensures
        r == if action == PendingAction::Archive || verified is Ok {
            Some(action)
        } else {
            None::<PendingAction>
        },
{
    match action {
        PendingAction::Archive => Some(action),
        _ => match verified {
            Ok(()) => Some(action),
            Err(_) => None,
        },
    }
}

/// A page of the workspace.
#[derive(Clone, Copy, Debug, PartialEq, Eq, Structural)]
pub enum Page {
    Overview,
    Duplicates,
    Organize,
    PhotoTools,
}

/// The heading shown on a page.
pub open spec fn page_heading(p: Page) -> Seq<char> {
    match p {
        Page::Overview => "Your media workspace"@,
        Page::Duplicates => "Find exact duplicates"@,
        Page::Organize => "Organize files"@,
        Page::PhotoTools => "Photo tools"@,
    }
}

impl Page {
    /// The heading shown on the page.
    pub fn heading(self) -> (s: &'static str)
        ensures
            s@ == page_heading(self),
    {
        match self {
            Page::Overview => "Your media workspace",
            Page::Duplicates => "Find exact duplicates",
            Page::Organize => "Organize files",
            Page::PhotoTools => "Photo tools",
        }
    }
}

/// Background work that is under way.
#[derive(Clone, Copy, Debug, PartialEq, Eq, Structural)]
pub enum Operation {
    Scan,
    Sort,
    Prefix,
    Enhance,
    FileAction,
    CacheLoad,
    CacheForget,
}

/// What the status line says of an operation.
pub open spec fn operation_label(o: Operation) -> Seq<char> {
    match o {
        Operation::Scan => "Scanning for exact duplicates"@,
        Operation::Sort => "Organizing images"@,
        Operation::Prefix => "Renaming media files"@,
        Operation::Enhance => "Creating an enhanced copy"@,
        Operation::FileAction => "Processing duplicate files"@,
        Operation::CacheLoad => "Loading saved scan"@,
        Operation::CacheForget => "Forgetting saved scan"@,
    }
}

impl Operation {
    /// What the status line says of the operation.
    pub fn label(self) -> (s: &'static str)
        ensures
            s@ == operation_label(self),
    {
        match self {
            Operation::Scan => "Scanning for exact duplicates",
            Operation::Sort => "Organizing images",
            Operation::Prefix => "Renaming media files",
            Operation::Enhance => "Creating an enhanced copy",
            Operation::FileAction => "Processing duplicate files",
            Operation::CacheLoad => "Loading saved scan",
            Operation::CacheForget => "Forgetting saved scan",
        }
    }
}

/// Where the duplicate scan stands.
#[derive(Clone, Copy, Debug, PartialEq, Eq, Structural)]
pub enum ScanState {
    Idle,
    Running,
    Cancelling,
    Cancelled,
    Complete,
    Failed,
}

impl Default for ScanState {
    fn default() -> (s: Self)
        ensures
            s == ScanState::Idle,
    {
        ScanState::Idle
    }
}

impl ScanState {
    /// A scan is under way (running or being cancelled).
    pub fn is_active(self) -> (r: bool)
        ensures
            r == (self == ScanState::Running || self == ScanState::Cancelling),
    {
        match self {
            ScanState::Running | ScanState::Cancelling => true,
            _ => false,
        }
    }
}

/// The tone of a notice.
#[derive(Clone, Copy, Debug, PartialEq, Eq, Structural)]
pub enum NoticeKind {
    Info,
    Success,
    Warning,
    Error,
}

/// The status message shown to the user.
#[derive(Debug)]
pub struct Notice {
    pub kind: NoticeKind,
    pub text: String,
}

/// The label that heads a notice of this kind.
pub open spec fn notice_label(k: NoticeKind) -> Seq<char> {
    match k {
        NoticeKind::Info => "Ready"@,
        NoticeKind::Success => "Completed"@,
        NoticeKind::Warning => "Needs attention"@,
        NoticeKind::Error => "Could not complete"@,
    }
}

impl Notice {
    /// A notice of `kind` saying `text`.
    pub fn new(kind: NoticeKind, text: String) -> (n: Self)
        ensures
            n.kind == kind,
            n.text@ == text@,
    {
        Notice { kind, text }
    }

    /// The label that heads the notice.
    pub fn label(&self) -> (s: &'static str)
        ensures
            s@ == notice_label(self.kind),
    {
        match self.kind {
            NoticeKind::Info => "Ready",
            NoticeKind::Success => "Completed",
            NoticeKind::Warning => "Needs attention",
            NoticeKind::Error => "Could not complete",
        }
    }
}

/// Whether a finished folder was opened for the user.
#[derive(Debug)]
pub enum FolderOpenOutcome {
    NotRequested,
    Opened,
    Failed(String),
}

/// The notice text after organizing files below `directory`.
pub open spec fn completion_text(message: Seq<char>, directory: Seq<char>, outcome: FolderOpenOutcome) -> Seq<char> {
    match outcome {
        FolderOpenOutcome::NotRequested => message,
        FolderOpenOutcome::Opened => message + " Opened "@ + directory + " in File Explorer."@,
        FolderOpenOutcome::Failed(error) => message
            + " The file operation completed, but MediaSift could not open "@ + directory
            + " in File Explorer: "@ + error@ + ". Open the folder manually to review the results."@,
    }
}

/// The notice kind after organizing files: a failure to open the folder turns it
/// into a warning.
pub open spec fn completion_kind(kind: NoticeKind, outcome: FolderOpenOutcome) -> NoticeKind {
    match outcome {
        FolderOpenOutcome::Failed(_) => NoticeKind::Warning,
        _ => kind,
    }
}

/// The notice after organizing files below `directory`: the operation's own
/// message, followed by what became of opening the folder.
pub fn organize_completion_notice(
    kind: NoticeKind,
    message: String,
    directory: &str,
    outcome: FolderOpenOutcome,
) -> (n: Notice)
    ensures
        n.kind == completion_kind(kind, outcome),
        n.text@ == completion_text(message@, directory@, outcome),
{
    match outcome {
        FolderOpenOutcome::NotRequested => Notice::new(kind, message),
        FolderOpenOutcome::Opened => {
            let mut text = message;
            push_text(&mut text, " Opened ");
            push_text(&mut text, directory);
            push_text(&mut text, " in File Explorer.");
            Notice::new(kind, text)
        },
        FolderOpenOutcome::Failed(error) => {
            let mut text = message;
            push_text(&mut text, " The file operation completed, but MediaSift could not open ");
            push_text(&mut text, directory);
            push_text(&mut text, " in File Explorer: ");
            push_text(&mut text, error.as_str());
            push_text(&mut text, ". Open the folder manually to review the results.");
            Notice::new(NoticeKind::Warning, text)
        },
    }
}

/// The folder to open once an organizer has finished: `directory`, when the user
/// asked for it and the operation succeeded; otherwise none. (Opening it is the
/// caller's work; what became of it is handed back as a `FolderOpenOutcome`.)
pub fn folder_to_open(directory: &str, requested: bool, succeeded: bool) -> (r: Option<String>)
    ensures
        r is None <==> !(requested && succeeded),
        r matches Some(d) ==> d@ == directory@,
{
    if requested && succeeded {
        let mut d = String::new();
        push_text(&mut d, directory);
        Some(d)
    } else {
        None
    }
}

/// The roots that remain of a sorted list when each root lying at or below a
/// root kept before it is dropped.
pub open spec fn without_nested(u: Seq<Seq<char>>) -> Seq<Seq<char>>
    decreases u.len(),
{
    if u.len() == 0 {
        Seq::<Seq<char>>::empty()
    } else {
        let kept = without_nested(u.drop_last());
        if exists|k: int| 0 <= k < kept.len() && path_starts_with(u.last(), #[trigger] kept[k]) {
            kept
        } else {
            kept.push(u.last())
        }
    }
}

/// No root kept by `without_nested` lies at or below a root kept before it, and
/// every root of the list lies at or below some kept root.
proof fn lemma_without_nested(u: Seq<Seq<char>>)
    ensures
        forall|i: int, j: int|
            0 <= i < j < without_nested(u).len() ==> !path_starts_with(#[trigger] without_nested(u)[j], #[trigger] without_nested(u)[i]),
        forall|k: int| 0 <= k < u.len() ==> exists|i: int|
            0 <= i < without_nested(u).len() && path_starts_with(#[trigger] u[k], without_nested(u)[i]),
    decreases u.len(),
{
    if u.len() > 0 {
        let prev = u.drop_last();
        let kept = without_nested(prev);
        lemma_without_nested(prev);
        let w = without_nested(u);
        let x = u.last();
        assert(x.take(x.len() as int) =~= x);
        assert(path_key(x).take(path_key(x).len() as int) =~= path_key(x));
        if exists|k: int| 0 <= k < kept.len() && path_starts_with(x, #[trigger] kept[k]) {
            assert(w == kept);
            assert forall|k: int| 0 <= k < u.len() implies exists|i: int|
                0 <= i < w.len() && path_starts_with(#[trigger] u[k], w[i]) by {
                if k < u.len() - 1 {
                    assert(u[k] == prev[k]);
                }
            }
        } else {
            assert(w == kept.push(x));
            assert forall|i: int, j: int| 0 <= i < j < w.len() implies !path_starts_with(#[trigger] w[j], #[trigger] w[i]) by {
                if j < kept.len() {
                    assert(w[i] == kept[i] && w[j] == kept[j]);
                } else {
                    assert(w[j] == x);
                    assert(w[i] == kept[i]);
                }
            }
            assert forall|k: int| 0 <= k < u.len() implies exists|i: int|
                0 <= i < w.len() && path_starts_with(#[trigger] u[k], w[i]) by {
                if k < u.len() - 1 {
                    assert(u[k] == prev[k]);
                    let i = choose|i: int| 0 <= i < kept.len() && path_starts_with(#[trigger] prev[k], kept[i]);
                    assert(w[i] == kept[i]);
                } else {
                    assert(w[kept.len() as int] == x);
                    assert(path_starts_with(x, x));
                }
            }
        }
    }
}

/// A path at or below another, and not the same path, sorts after it.
proof fn lemma_nested_sorts_after(x: Seq<char>, y: Seq<char>)
    requires
        path_starts_with(x, y),
        !same_path(x, y),
    ensures
        path_before(y, x),
{
    let kx = path_key(x);
    let ky = path_key(y);
    if ky.len() == kx.len() {
        assert(kx.take(kx.len() as int) =~= kx);
    }
    assert(ky.len() < kx.len());
    assert(ky.take(ky.len() as int) =~= ky);
    lemma_chars_before_common_prefix(ky, kx, ky.len() as int);
    assert(ky.skip(ky.len() as int).len() == 0);
}

/// Lying at or below is transitive.
proof fn lemma_starts_with_transitive(x: Seq<char>, y: Seq<char>, z: Seq<char>)
    requires
        path_starts_with(x, y),
        path_starts_with(y, z),
    ensures
        path_starts_with(x, z),
{
    let kx = path_key(x);
    let ky = path_key(y);
    let kz = path_key(z);
    assert(kx.take(kz.len() as int) =~= kx.take(ky.len() as int).take(kz.len() as int));
}

/// Of a list in strict path order, `without_nested` keeps a list in strict path
/// order, each of its roots taken from the list.
proof fn lemma_without_nested_sorted(t: Seq<Seq<char>>)
    requires
        forall|a: int, b: int| 0 <= a < b < t.len() ==> path_before(#[trigger] t[a], #[trigger] t[b]),
    ensures
        forall|i: int, j: int|
            0 <= i < j < without_nested(t).len() ==> path_before(#[trigger] without_nested(t)[i], #[trigger] without_nested(t)[j]),
        forall|i: int| 0 <= i < without_nested(t).len() ==> exists|k: int|
            0 <= k < t.len() && #[trigger] without_nested(t)[i] == t[k],
    decreases t.len(),
{
    if t.len() > 0 {
        let prev = t.drop_last();
        let kept = without_nested(prev);
        assert forall|a: int, b: int| 0 <= a < b < prev.len() implies path_before(#[trigger] prev[a], #[trigger] prev[b]) by {
            assert(prev[a] == t[a] && prev[b] == t[b]);
        }
        lemma_without_nested_sorted(prev);
        let w = without_nested(t);
        let x = t.last();
        if exists|k: int| 0 <= k < kept.len() && path_starts_with(x, #[trigger] kept[k]) {
            assert(w == kept);
            assert forall|i: int| 0 <= i < w.len() implies exists|k: int| 0 <= k < t.len() && #[trigger] w[i] == t[k] by {
                let k = choose|k: int| 0 <= k < prev.len() && #[trigger] kept[i] == prev[k];
                assert(t[k] == prev[k]);
            }
        } else {
            assert(w == kept.push(x));
            assert forall|i: int, j: int| 0 <= i < j < w.len() implies path_before(#[trigger] w[i], #[trigger] w[j]) by {
                if j < kept.len() {
                    assert(w[i] == kept[i] && w[j] == kept[j]);
                } else {
                    assert(w[i] == kept[i]);
                    let k = choose|k: int| 0 <= k < prev.len() && #[trigger] kept[i] == prev[k];
                    assert(t[k] == prev[k]);
                    assert(path_before(t[k], t[t.len() - 1]));
                }
            }
            assert forall|i: int| 0 <= i < w.len() implies exists|k: int| 0 <= k < t.len() && #[trigger] w[i] == t[k] by {
                if i < kept.len() {
                    let k = choose|k: int| 0 <= k < prev.len() && #[trigger] kept[i] == prev[k];
                    assert(t[k] == prev[k]);
                    assert(w[i] == kept[i]);
                } else {
                    assert(w[i] == t[t.len() - 1]);
                }
            }
        }
    }
}

/// The chosen root `c[p]` lies below another chosen root that is not the same
/// path.
pub open spec fn nested_in_another(c: Seq<String>, p: int) -> bool {
    exists|q: int|
        0 <= q < c.len() && !same_path(#[trigger] c[q]@, c[p]@) && path_starts_with(c[p]@, c[q]@)
}

/// `r` lists, in strict path order, exactly the chosen roots `c` that lie below
/// no other chosen root, each as one of its chosen spellings.
#[verifier::opaque]
pub open spec fn outermost_roots(c: Seq<String>, r: Seq<String>) -> bool {
    &&& forall|i: int, j: int| 0 <= i < j < r.len() ==> path_before(#[trigger] r[i]@, #[trigger] r[j]@)
    &&& forall|i: int| 0 <= i < r.len() ==> exists|p: int| 0 <= p < c.len() && #[trigger] r[i]@ == c[p]@
    &&& forall|p: int|
        0 <= p < c.len() ==> (crate::sorting::path_listed(r, #[trigger] c[p]@) <==> !nested_in_another(c, p))
}

/// The `k`-th sorted root is one of the chosen roots.
spec fn sorted_from_chosen(c: Seq<String>, u: Seq<String>, k: int) -> bool {
    exists|q: int| 0 <= q < c.len() && u[k]@ == c[q]@
}

/// The `p`-th chosen root is the same path as a sorted root.
spec fn chosen_listed(c: Seq<String>, u: Seq<String>, p: int) -> bool {
    exists|k: int| 0 <= k < u.len() && same_path(u[k]@, c[p]@)
}

/// The `i`-th kept root is one of the sorted roots.
spec fn kept_from_sorted(u: Seq<String>, r: Seq<String>, i: int) -> bool {
    exists|k: int| 0 <= k < u.len() && r[i]@ == u[k]@
}

/// The `k`-th sorted root lies at or below a kept root.
spec fn sorted_covered(u: Seq<String>, r: Seq<String>, k: int) -> bool {
    exists|a: int| 0 <= a < r.len() && path_starts_with(u[k]@, r[a]@)
}

/// What sorting and removing repeats gives: a list in strict path order, of
/// chosen roots, listing every chosen root.
proof fn lemma_unique_facts(c: Seq<String>, u: Seq<String>)
    requires
        sorted_unique_of(c, u),
    ensures
        forall|a: int, b: int| 0 <= a < b < u.len() ==> path_before(#[trigger] u[a]@, #[trigger] u[b]@),
        forall|k: int| 0 <= k < u.len() ==> #[trigger] sorted_from_chosen(c, u, k),
        forall|p: int| 0 <= p < c.len() ==> #[trigger] chosen_listed(c, u, p),
{
    assert forall|k: int| 0 <= k < u.len() implies #[trigger] sorted_from_chosen(c, u, k) by {
        let q = choose|q: int| crate::sorting::first_occurrence(c, q) && #[trigger] u[k]@ == c[q]@;
        assert(0 <= q < c.len() && u[k]@ == c[q]@);
    }
    assert forall|p: int| 0 <= p < c.len() implies #[trigger] chosen_listed(c, u, p) by {
        assert(crate::sorting::path_listed(u, c[p]@));
        let k = choose|k: int| 0 <= k < u.len() && same_path(#[trigger] u[k]@, c[p]@);
        assert(0 <= k < u.len() && same_path(u[k]@, c[p]@));
    }
}

/// Of a sorted list, `without_nested` keeps a sorted list of its roots.
proof fn lemma_kept_sorted(u: Seq<String>, r: Seq<String>)
    requires
        forall|a: int, b: int| 0 <= a < b < u.len() ==> path_before(#[trigger] u[a]@, #[trigger] u[b]@),
        path_texts(r) == without_nested(path_texts(u)),
    ensures
        forall|i: int, j: int| 0 <= i < j < r.len() ==> path_before(#[trigger] r[i]@, #[trigger] r[j]@),
        forall|i: int| 0 <= i < r.len() ==> #[trigger] kept_from_sorted(u, r, i),
{
    let t = path_texts(u);
    let w = without_nested(t);
    assert forall|a: int, b: int| 0 <= a < b < t.len() implies path_before(#[trigger] t[a], #[trigger] t[b]) by {
        assert(t[a] == u[a]@ && t[b] == u[b]@);
    }
    lemma_without_nested_sorted(t);
    assert(w.len() == r.len());
    assert forall|i: int, j: int| 0 <= i < j < r.len() implies path_before(#[trigger] r[i]@, #[trigger] r[j]@) by {
        assert(path_texts(r)[i] == r[i]@ && path_texts(r)[j] == r[j]@);
    }
    assert forall|i: int| 0 <= i < r.len() implies #[trigger] kept_from_sorted(u, r, i) by {
        assert(path_texts(r)[i] == r[i]@);
        let k = choose|k: int| 0 <= k < t.len() && #[trigger] w[i] == t[k];
        assert(t[k] == u[k]@);
        assert(0 <= k < u.len() && r[i]@ == u[k]@);
    }
}

/// No kept root lies below one kept before it, and every root of the list lies
/// below a kept one.
proof fn lemma_kept_covers(u: Seq<String>, r: Seq<String>)
    requires
        path_texts(r) == without_nested(path_texts(u)),
    ensures
        forall|i: int, j: int| 0 <= i < j < r.len() ==> !path_starts_with(#[trigger] r[j]@, #[trigger] r[i]@),
        forall|k: int| 0 <= k < u.len() ==> #[trigger] sorted_covered(u, r, k),
{
    let t = path_texts(u);
    let w = without_nested(t);
    lemma_without_nested(t);
    assert(w.len() == r.len());
    assert forall|i: int, j: int| 0 <= i < j < r.len() implies !path_starts_with(#[trigger] r[j]@, #[trigger] r[i]@) by {
        assert(path_texts(r)[i] == r[i]@ && path_texts(r)[j] == r[j]@);
    }
    assert forall|k: int| 0 <= k < u.len() implies #[trigger] sorted_covered(u, r, k) by {
        assert(t[k] == u[k]@);
        let i = choose|i: int| 0 <= i < w.len() && path_starts_with(#[trigger] t[k], w[i]);
        assert(path_texts(r)[i] == r[i]@);
        assert(0 <= i < r.len() && path_starts_with(u[k]@, r[i]@));
    }
}

/// A kept root lies below no other chosen root.
proof fn lemma_kept_not_nested(c: Seq<String>, u: Seq<String>, r: Seq<String>, p: int, i: int)
    requires
        forall|x: int| 0 <= x < c.len() ==> #[trigger] chosen_listed(c, u, x),
        forall|a: int, b: int| 0 <= a < b < r.len() ==> path_before(#[trigger] r[a]@, #[trigger] r[b]@),
        forall|a: int, b: int| 0 <= a < b < r.len() ==> !path_starts_with(#[trigger] r[b]@, #[trigger] r[a]@),
        forall|k: int| 0 <= k < u.len() ==> #[trigger] sorted_covered(u, r, k),
        0 <= p < c.len(),
        0 <= i < r.len(),
        same_path(r[i]@, c[p]@),
    ensures
        !nested_in_another(c, p),
{
    if nested_in_another(c, p) {
        let q = choose|q: int|
            0 <= q < c.len() && !same_path(#[trigger] c[q]@, c[p]@) && path_starts_with(c[p]@, c[q]@);
        assert(chosen_listed(c, u, q));
        let k = choose|k: int| 0 <= k < u.len() && same_path(u[k]@, c[q]@);
        assert(sorted_covered(u, r, k));
        let i2 = choose|i2: int| 0 <= i2 < r.len() && path_starts_with(u[k]@, r[i2]@);
        lemma_starts_with_transitive(c[p]@, c[q]@, r[i2]@);
        assert(path_starts_with(r[i]@, r[i2]@));
        if same_path(r[i2]@, r[i]@) {
            let kq = path_key(c[q]@);
            let kpp = path_key(c[p]@);
            assert(kpp.take(kq.len() as int) == kq);
            assert(kq.take(path_key(r[i2]@).len() as int) == path_key(r[i2]@));
            assert(kq.len() == kpp.len());
            assert(kpp.take(kpp.len() as int) =~= kpp);
            assert(false);
        }
        lemma_nested_sorts_after(r[i]@, r[i2]@);
        if i2 > i {
            assert(path_before(r[i]@, r[i2]@));
            lemma_chars_before_asymmetric(path_key(r[i2]@), path_key(r[i]@));
        } else if i2 == i {
            lemma_chars_before_irreflexive(path_key(r[i]@));
        } else {
            assert(!path_starts_with(r[i]@, r[i2]@));
        }
    }
}

/// A chosen root that lies below no other chosen root is kept.
proof fn lemma_not_nested_kept(c: Seq<String>, u: Seq<String>, r: Seq<String>, p: int)
    requires
        forall|k: int| 0 <= k < u.len() ==> #[trigger] sorted_from_chosen(c, u, k),
        forall|x: int| 0 <= x < c.len() ==> #[trigger] chosen_listed(c, u, x),
        forall|i: int| 0 <= i < r.len() ==> #[trigger] kept_from_sorted(u, r, i),
        forall|k: int| 0 <= k < u.len() ==> #[trigger] sorted_covered(u, r, k),
        0 <= p < c.len(),
        !nested_in_another(c, p),
    ensures
        crate::sorting::path_listed(r, c[p]@),
{
    assert(chosen_listed(c, u, p));
    let kp = choose|k: int| 0 <= k < u.len() && same_path(u[k]@, c[p]@);
    assert(sorted_covered(u, r, kp));
    let i = choose|i: int| 0 <= i < r.len() && path_starts_with(u[kp]@, r[i]@);
    assert(kept_from_sorted(u, r, i));
    let m = choose|m: int| 0 <= m < u.len() && r[i]@ == u[m]@;
    assert(sorted_from_chosen(c, u, m));
    let q = choose|q: int| 0 <= q < c.len() && u[m]@ == c[q]@;
    assert(path_starts_with(c[p]@, c[q]@));
    assert(same_path(c[q]@, c[p]@));
    assert(same_path(r[i]@, c[p]@));
}

/// The roots a scan covers, taken from the chosen roots `c` by sorting them
/// (`u`) and dropping nested ones (`r`), as `resolved_scan_roots` states of its
/// result, are in strict path order, are chosen roots, and are exactly the chosen
/// roots that lie below no other chosen root.
#[verifier::rlimit(40)]
pub proof fn lemma_resolved_roots_exact(c: Seq<String>, u: Seq<String>, r: Seq<String>)
    requires
        sorted_unique_of(c, u),
        path_texts(r) == without_nested(path_texts(u)),
    ensures
        forall|i: int, j: int| 0 <= i < j < r.len() ==> path_before(#[trigger] r[i]@, #[trigger] r[j]@),
        forall|i: int| 0 <= i < r.len() ==> exists|p: int| 0 <= p < c.len() && #[trigger] r[i]@ == c[p]@,
        forall|p: int|
            0 <= p < c.len() ==> (crate::sorting::path_listed(r, #[trigger] c[p]@) <==> !nested_in_another(c, p)),
{
    lemma_unique_facts(c, u);
    lemma_kept_sorted(u, r);
    lemma_kept_covers(u, r);
    assert forall|i: int| 0 <= i < r.len() implies exists|p: int| 0 <= p < c.len() && #[trigger] r[i]@ == c[p]@ by {
        assert(kept_from_sorted(u, r, i));
        let k = choose|k: int| 0 <= k < u.len() && r[i]@ == u[k]@;
        assert(sorted_from_chosen(c, u, k));
        let q = choose|q: int| 0 <= q < c.len() && u[k]@ == c[q]@;
        assert(r[i]@ == c[q]@);
    }
    assert forall|p: int| 0 <= p < c.len() implies (crate::sorting::path_listed(r, #[trigger] c[p]@) <==> !nested_in_another(c, p)) by {
        if crate::sorting::path_listed(r, c[p]@) {
            let i = choose|i: int| 0 <= i < r.len() && same_path(#[trigger] r[i]@, c[p]@);
            lemma_kept_not_nested(c, u, r, p, i);
        } else if !nested_in_another(c, p) {
            lemma_not_nested_kept(c, u, r, p);
        }
    }
}

fn copy_paths(paths: &Vec<String>) -> (r: Vec<String>)
    ensures
        path_texts(r@) == path_texts(paths@),
        r@.len() == paths@.len(),
        forall|k: int| 0 <= k < r@.len() ==> r@[k]@ == paths@[k]@,
{
    let mut r: Vec<String> = Vec::new();
    let mut i: usize = 0;
    while i < paths.len()
        invariant
            i <= paths.len(),
            r@.len() == i,
            forall|k: int| 0 <= k < i ==> r@[k]@ == paths@[k]@,
        decreases paths.len() - i,
    {
        r.push(paths[i].clone());
        i += 1;
    }
    assert(path_texts(r@) =~= path_texts(paths@));
    r
}

/// The selected folders, or the discovered drive roots when no folder is selected.
pub open spec fn chosen_roots(selected: Seq<String>, discovered: Seq<String>) -> Seq<String> {
    if selected.len() == 0 {
        discovered
    } else {
        selected
    }
}

/// The locations a scan covers: the selected folders, or the discovered drive
/// roots when no folder is selected, in path order, each once, and without any
/// location that lies below another one kept.
#[verifier::spinoff_prover]
pub fn resolved_scan_roots(selected_roots: &Vec<String>, discovered_drive_roots: Vec<String>) -> (r: Vec<String>)
    ensures
        exists|u: Seq<String>|
            sorted_unique_of(chosen_roots(selected_roots@, discovered_drive_roots@), u) && path_texts(r@)
                == without_nested(path_texts(u)),
        forall|i: int, j: int|
            0 <= i < j < r@.len() ==> !path_starts_with(#[trigger] r@[j]@, #[trigger] r@[i]@),
        forall|p: int| 0 <= p < chosen_roots(selected_roots@, discovered_drive_roots@).len() ==> exists|i: int|
            0 <= i < r@.len() && path_starts_with(
                #[trigger] chosen_roots(selected_roots@, discovered_drive_roots@)[p]@,
                r@[i]@,
            ),
        outermost_roots(chosen_roots(selected_roots@, discovered_drive_roots@), r@),
{
    let roots = if selected_roots.len() == 0 {
        discovered_drive_roots
    } else {
        copy_paths(selected_roots)
    };
    let unique = sorted_unique_paths(&roots);
    let ghost t = path_texts(unique@);
    let mut kept: Vec<String> = Vec::new();
    let mut i: usize = 0;
    assert(t.take(0) =~= Seq::<Seq<char>>::empty());
    while i < unique.len()
        invariant
            t == path_texts(unique@),
            i <= unique.len(),
            path_texts(kept@) == without_nested(t.take(i as int)),
        decreases unique.len() - i,
    {
        let ghost kt = path_texts(kept@);
        let mut nested = false;
        let mut j: usize = 0;
        while j < kept.len()
            invariant
                kt == path_texts(kept@),
                t == path_texts(unique@),
                i < unique.len(),
                j <= kept.len(),
                nested == exists|k: int| 0 <= k < j && path_starts_with(t[i as int], #[trigger] kt[k]),
            decreases kept.len() - j,
        {
            if starts_with_path(unique[i].as_str(), kept[j].as_str()) {
                assert(path_starts_with(t[i as int], kt[j as int]));
                nested = true;
            }
            proof {
                if nested {
                    let w = if path_starts_with(t[i as int], kt[j as int]) {
                        j as int
                    } else {
                        choose|k: int| 0 <= k < j && path_starts_with(t[i as int], #[trigger] kt[k])
                    };
                    assert(0 <= w < j + 1 && path_starts_with(t[i as int], kt[w]));
                }
            }
            j += 1;
        }
        proof {
            assert(t.take(i + 1).drop_last() =~= t.take(i as int));
            assert(t.take(i + 1).last() == t[i as int]);
        }
        if !nested {
            kept.push(unique[i].clone());
            proof {
                assert(path_texts(kept@) =~= kt.push(t[i as int]));
            }
        }
        i += 1;
    }
    assert(t.take(i as int) =~= t);
    proof {
        lemma_without_nested(t);
        let chosen = chosen_roots(selected_roots@, discovered_drive_roots@);
        assert(chosen.len() == roots@.len());
        assert(forall|q: int| 0 <= q < chosen.len() ==> #[trigger] chosen[q]@ == roots@[q]@);
        assert(sorted_unique_of(chosen, unique@)) by {
            assert forall|k: int| 0 <= k < unique@.len() implies exists|i: int|
                crate::sorting::first_occurrence(chosen, i) && #[trigger] unique@[k]@ == chosen[i]@ by {
                let i = choose|i: int| crate::sorting::first_occurrence(roots@, i) && #[trigger] unique@[k]@ == roots@[i]@;
                assert forall|j: int| 0 <= j < i implies !crate::paths::same_path(#[trigger] chosen[j]@, chosen[i]@) by {
                    assert(!crate::paths::same_path(roots@[j]@, roots@[i]@));
                }
                assert(crate::sorting::first_occurrence(chosen, i));
            }
            assert forall|i: int| 0 <= i < chosen.len() implies crate::sorting::path_listed(unique@, #[trigger] chosen[i]@) by {
                assert(crate::sorting::path_listed(unique@, roots@[i]@));
            }
        }
        assert forall|p: int| 0 <= p < chosen.len() implies exists|i: int|
            0 <= i < kept@.len() && path_starts_with(#[trigger] chosen[p]@, kept@[i]@) by {
            assert(chosen[p]@ == roots@[p]@);
            assert(crate::sorting::path_listed(unique@, roots@[p]@));
            let k = choose|k: int| 0 <= k < unique@.len() && crate::paths::same_path(#[trigger] unique@[k]@, roots@[p]@);
            assert(t[k] == unique@[k]@);
            let i = choose|i: int| 0 <= i < without_nested(t).len() && path_starts_with(#[trigger] t[k], without_nested(t)[i]);
            assert(path_texts(kept@)[i] == kept@[i]@);
        }
        assert forall|i: int, j: int| 0 <= i < j < kept@.len() implies !path_starts_with(#[trigger] kept@[j]@, #[trigger] kept@[i]@) by {
            assert(path_texts(kept@)[i] == kept@[i]@);
            assert(path_texts(kept@)[j] == kept@[j]@);
        }
        lemma_outermost_roots(chosen, unique@, kept@);
    }
    kept
}


/// `lemma_resolved_roots_exact`, stated as `outermost_roots`.
proof fn lemma_outermost_roots(c: Seq<String>, u: Seq<String>, r: Seq<String>)
    requires
        sorted_unique_of(c, u),
        path_texts(r) == without_nested(path_texts(u)),
    ensures
        outermost_roots(c, r),
{
    reveal(outermost_roots);
    lemma_resolved_roots_exact(c, u, r);
}

/// The locations a whole-computer scan covers on this kind of system: the root of
/// the file system.
pub fn computer_scan_roots(include_removable: bool, include_network: bool) -> (roots: Vec<String>)
    ensures
        path_texts(roots@) == seq!["/"@],
{
    let mut roots: Vec<String> = Vec::new();
    let mut root = String::new();
    push_text(&mut root, "/");
    roots.push(root);
    assert(path_texts(roots@) =~= seq!["/"@]);
    roots
}

/// The kinds of drive that Windows reports and a whole-computer scan tells apart.
pub const DRIVE_REMOVABLE: u32 = 2;
pub const DRIVE_FIXED: u32 = 3;
pub const DRIVE_REMOTE: u32 = 4;

/// Drive letter number `i` (0 for `A`) is present in the logical-drive mask.
pub open spec fn drive_present(mask: u32, i: u32) -> bool {
    (mask >> i) & 1u32 == 1u32
}

/// A drive of `kind` is scanned: fixed drives always, removable and network
/// drives when asked for.
pub open spec fn drive_wanted(kind: u32, include_removable: bool, include_network: bool) -> bool {
    kind == DRIVE_FIXED || (include_removable && kind == DRIVE_REMOVABLE) || (include_network
        && kind == DRIVE_REMOTE)
}

/// The root of drive letter number `i`, such as `C:\`.
pub open spec fn drive_root_text(i: int) -> Seq<char> {
    seq![(65 + i) as char, ':', '\\']
}

/// The roots of the wanted drives among the first `n` letters, in letter order.
pub open spec fn drive_roots_upto(
    mask: u32,
    kinds: Seq<u32>,
    include_removable: bool,
    include_network: bool,
    n: nat,
) -> Seq<Seq<char>>
    decreases n,
{
    if n == 0 {
        Seq::empty()
    } else {
        let i = (n - 1) as nat;
        let earlier = drive_roots_upto(mask, kinds, include_removable, include_network, i);
        if drive_present(mask, i as u32) && drive_wanted(kinds[i as int], include_removable, include_network) {
            earlier.push(drive_root_text(i as int))
        } else {
            earlier
        }
    }
}

/// The locations a whole-computer scan covers on Windows, from the logical-drive
/// mask (bit `i` for letter `A` + `i`) and the kind of each of the 26 drive
/// letters: the fixed drives, and the removable and network drives when asked
/// for, in letter order.
pub fn windows_drive_roots(
    mask: u32,
    kinds: &Vec<u32>,
    include_removable: bool,
    include_network: bool,
) -> (roots: Vec<String>)
    requires
        kinds.len() == 26,
    ensures
        path_texts(roots@) == drive_roots_upto(mask, kinds@, include_removable, include_network, 26),
{
    let mut roots: Vec<String> = Vec::new();
    let mut i: u32 = 0;
    while i < 26
        invariant
            kinds.len() == 26,
            i <= 26,
            path_texts(roots@) == drive_roots_upto(mask, kinds@, include_removable, include_network, i as nat),
        decreases 26 - i,
    {
        let kind = kinds[i as usize];
        let present = (mask >> i) & 1u32 == 1u32;
        let wanted = kind == DRIVE_FIXED || (include_removable && kind == DRIVE_REMOVABLE)
            || (include_network && kind == DRIVE_REMOTE);
        if present && wanted {
            let letter: u8 = 65u8 + (i as u8);
            let mut root = String::new();
            root.push(letter as char);
            root.push(':');
            root.push('\\');
            assert(root@ =~= drive_root_text(i as int));
            let ghost before = roots@;
            roots.push(root);
            assert(path_texts(roots@) =~= path_texts(before).push(drive_root_text(i as int)));
        }
        i = i + 1;
    }
    roots
}


/// Drive letter number `i` is present exactly when bit `i` of the mask is set:
/// when the mask divided by 2 to the power `i` is odd.
pub proof fn lemma_drive_bit(mask: u32, i: u32)
    requires
        i < 32,
    ensures
        drive_present(mask, i) <==> (mask as nat / vstd::arithmetic::power2::pow2(i as nat)) % 2 == 1,
{
    vstd::bits::lemma_u32_shr_is_div(mask, i);
    let s = mask >> i;
    assert(s & 1u32 == s % 2) by (bit_vector);
}

/// A whole-computer scan lists the root of letter `i` exactly when that drive is
/// present and is a fixed drive (kind 3), a removable one (kind 2) with removable
/// drives asked for, or a network one (kind 4) with network drives asked for.
pub proof fn lemma_drive_roots(mask: u32, kinds: Seq<u32>, include_removable: bool, include_network: bool, i: int)
    requires
        kinds.len() == 26,
        0 <= i < 26,
    ensures
        drive_roots_upto(mask, kinds, include_removable, include_network, 26).contains(drive_root_text(i)) <==> (
        drive_present(mask, i as u32) && (kinds[i] == 3 || (include_removable && kinds[i] == 2) || (
        include_network && kinds[i] == 4))),
{
    lemma_drive_roots_upto(mask, kinds, include_removable, include_network, 26, i);
}

proof fn lemma_drive_roots_upto(mask: u32, kinds: Seq<u32>, include_removable: bool, include_network: bool, n: nat, i: int)
    requires
        kinds.len() == 26,
        0 <= i < 26,
        n <= 26,
    ensures
        drive_roots_upto(mask, kinds, include_removable, include_network, n).contains(drive_root_text(i)) <==> (
        i < n && drive_present(mask, i as u32) && drive_wanted(kinds[i], include_removable, include_network)),
    decreases n,
{
    if n > 0 {
        let j = (n - 1) as nat;
        lemma_drive_roots_upto(mask, kinds, include_removable, include_network, j, i);
        let earlier = drive_roots_upto(mask, kinds, include_removable, include_network, j);
        let r = drive_roots_upto(mask, kinds, include_removable, include_network, n);
        if drive_present(mask, j as u32) && drive_wanted(kinds[j as int], include_removable, include_network) {
            assert(r == earlier.push(drive_root_text(j as int)));
            if i == j {
                assert(r[r.len() - 1] == drive_root_text(i));
            } else {
                assert(drive_root_text(j as int)[0] != drive_root_text(i)[0]);
                if r.contains(drive_root_text(i)) {
                    let t = r.index_of(drive_root_text(i));
                    if t < earlier.len() {
                        assert(earlier[t] == r[t]);
                    }
                }
                if earlier.contains(drive_root_text(i)) {
                    let t = earlier.index_of(drive_root_text(i));
                    assert(r[t] == earlier[t]);
                }
            }
        }
    }
}


/// Each pending action is confirmed under a question of its own, so a deletion
/// is never asked as a recycling.
pub proof fn lemma_action_titles_distinct(a: PendingAction, b: PendingAction)
    ensures
        a != b ==> action_title(a) != action_title(b),
        action_title(a).len() > 0,
{
    reveal_strlit("Move files to the Recycle Bin?");
    reveal_strlit("Permanently delete files?");
    reveal_strlit("Create a ZIP backup?");
    if a != b {
        assert(action_title(a).len() != action_title(b).len());
    }
}

/// Every page has a heading of its own.
pub proof fn lemma_page_headings_distinct(a: Page, b: Page)
    ensures
        a != b ==> page_heading(a) != page_heading(b),
        page_heading(a).len() > 0,
{
    reveal_strlit("Your media workspace");
    reveal_strlit("Find exact duplicates");
    reveal_strlit("Organize files");
    reveal_strlit("Photo tools");
    if a != b {
        assert(page_heading(a).len() != page_heading(b).len());
    }
}

/// The status line names each kind of background work differently.
pub proof fn lemma_operation_labels_distinct(a: Operation, b: Operation)
    ensures
        a != b ==> operation_label(a) != operation_label(b),
        operation_label(a).len() > 0,
{
    reveal_strlit("Scanning for exact duplicates");
    reveal_strlit("Organizing images");
    reveal_strlit("Renaming media files");
    reveal_strlit("Creating an enhanced copy");
    reveal_strlit("Processing duplicate files");
    reveal_strlit("Loading saved scan");
    reveal_strlit("Forgetting saved scan");
    if a != b {
        assert(operation_label(a).len() != operation_label(b).len());
    }
}

/// Notices of different kinds carry different labels.
pub proof fn lemma_notice_labels_distinct(a: NoticeKind, b: NoticeKind)
    ensures
        a != b ==> notice_label(a) != notice_label(b),
        notice_label(a).len() > 0,
{
    reveal_strlit("Ready");
    reveal_strlit("Completed");
    reveal_strlit("Needs attention");
    reveal_strlit("Could not complete");
    if a != b {
        assert(notice_label(a).len() != notice_label(b).len());
    }
}

} // verus!
