//! The state of a desktop session and the rules that apply the results of
//! background work to it.

use vstd::prelude::*;
use std::sync::Arc;
use std::sync::atomic::AtomicBool;
use std::sync::mpsc::Receiver;
use crate::actions::{FileActionSummary, RenameSummary};
use crate::cache::{CachedScan, ScanMode};
use crate::groups::{keeper_required_message, path_texts, group_paths_in};
use crate::progress::ScanProgress;
use crate::reports::{format_scan_report, scan_report, total_paths};
use crate::review::{
    affected_group_without_keeper, verification_view, verifications_of, Review,
};
use crate::actions::DuplicateActionVerification;
use crate::sorting::{sorted_unique_of, sorted_unique_paths};
use crate::text::{decimal, push_count, push_text};
use crate::workspace::{
    completion_kind, completion_text, organize_completion_notice,
    confirmation_text, FolderOpenOutcome, Notice, NoticeKind, Operation, Page, PendingAction, ScanState,
};

verus! {

#[verifier::external_type_specification]
#[verifier::external_body]
#[verifier::reject_recursive_types(T)]
pub struct ExReceiver<T>(std::sync::mpsc::Receiver<T>);

/// What a piece of background work reports back.
#[derive(Debug)]
pub enum WorkResult {
    Sorted {
        directory: String,
        /// What became of opening the finished folder.
        folder: FolderOpenOutcome,
        result: Result<usize, String>,
        cache_error: Option<String>,
    },
    Prefixed {
        directory: String,
        /// What became of opening the finished folder.
        folder: FolderOpenOutcome,
        result: Result<RenameSummary, String>,
        cache_error: Option<String>,
    },
    Enhanced { result: Result<String, String>, cache_error: Option<String> },
    Scanned(Result<CachedScan, String>),
    ScanCancelled,
    CachedScanLoaded(Result<Option<CachedScan>, String>),
    CachedScanForgotten(Result<(), String>),
    Action {
        action: PendingAction,
        result: Result<FileActionSummary, String>,
        cache_error: Option<String>,
    },
    Progress(ScanProgress),
}

/// The state of a desktop session.
pub struct MediaSiftApp {
    pub page: Page,
    pub notice: Notice,
    pub receiver: Option<Receiver<WorkResult>>,
    pub operation: Option<Operation>,
    pub review: Option<Review>,
    pub review_page: usize,
    pub include_removable: bool,
    pub include_network: bool,
    pub selected_scan_roots: Vec<String>,
    pub scan_state: ScanState,
    pub scan_cancel_token: Option<Arc<AtomicBool>>,
    pub compression: usize,
    pub pending_action: Option<PendingAction>,
    pub pending_sort: Option<String>,
    pub pending_date_prefix: Option<String>,
    pub use_oldest_date: bool,
    pub open_sort_folder_when_finished: bool,
    pub open_prefix_folder_when_finished: bool,
    pub scan_progress: Option<ScanProgress>,
    pub scan_report: String,
    pub scan_mode: ScanMode,
    pub saved_scan_at: Option<i64>,
    pub review_verified_this_session: bool,
    pub pending_forget_scan_cache: bool,
    pub saved_scan_error: bool,
}

/// The notice of a session with nothing done yet.
pub open spec fn ready_text() -> Seq<char> {
    "Choose a workflow. MediaSift will explain any file changes before they happen."@
}

/// The notice when a scan of `count` locations starts.
pub open spec fn scan_start_text(count: nat, mode: ScanMode) -> Seq<char> {
    (if mode == ScanMode::Incremental {
        "Refreshing "@
    } else {
        "Fully rescanning "@
    }) + decimal(count) + " location(s). The scan is read-only and safe to leave running."@
}

/// The notice while a scan is being cancelled.
pub open spec fn cancelling_text() -> Seq<char> {
    "Cancelling the duplicate scan. MediaSift will stop after the current filesystem step."@
}

/// A review under the session, when there is one, is well formed.
pub open spec fn review_ok(review: Option<Review>) -> bool {
    review matches Some(r) ==> r.wf()
}

/// The review holds the groups and locations of a completed scan, with every copy
/// kept.
pub open spec fn reviews_scan(review: Option<Review>, scan: CachedScan) -> bool {
    &&& review matches Some(r)
    &&& r.wf()
    &&& r.groups_view() == scan.groups@
    &&& r.roots_view() == path_texts(scan.roots@)
    &&& r.selection() == Seq::<Seq<char>>::empty()
}

/// The controls of the session that the results of background work leave alone.
pub open spec fn same_controls(a: MediaSiftApp, b: MediaSiftApp) -> bool {
    &&& a.page == b.page
    &&& a.receiver == b.receiver
    &&& a.operation == b.operation
    &&& a.include_removable == b.include_removable
    &&& a.include_network == b.include_network
    &&& a.selected_scan_roots == b.selected_scan_roots
    &&& a.scan_cancel_token == b.scan_cancel_token
    &&& a.compression == b.compression
    &&& a.pending_action == b.pending_action
    &&& a.pending_sort == b.pending_sort
    &&& a.pending_date_prefix == b.pending_date_prefix
    &&& a.use_oldest_date == b.use_oldest_date
    &&& a.open_sort_folder_when_finished == b.open_sort_folder_when_finished
    &&& a.open_prefix_folder_when_finished == b.open_prefix_folder_when_finished
    &&& a.scan_mode == b.scan_mode
    &&& a.pending_forget_scan_cache == b.pending_forget_scan_cache
}

/// The scan fields (state, progress and report) are unchanged.
pub open spec fn same_scan(a: MediaSiftApp, b: MediaSiftApp) -> bool {
    &&& a.scan_state == b.scan_state
    &&& a.scan_progress == b.scan_progress
    &&& a.scan_report@ == b.scan_report@
    &&& a.review_page == b.review_page
    &&& a.saved_scan_error == b.saved_scan_error
}

/// The review and the saved-scan fields are unchanged.
pub open spec fn same_review(a: MediaSiftApp, b: MediaSiftApp) -> bool {
    &&& a.review == b.review
    &&& a.review_verified_this_session == b.review_verified_this_session
    &&& a.saved_scan_at == b.saved_scan_at
}

/// `states` goes from its first session to its last by applying `results` in
/// turn, one result per step.
pub open spec fn applied_in_turn(states: Seq<MediaSiftApp>, results: Seq<WorkResult>) -> bool {
    &&& states.len() == results.len() + 1
    &&& forall|i: int| 0 <= i < results.len() ==> applied(states[i], #[trigger] results[i], states[i + 1])
}

/// Some result among `results` reports that a piece of work has finished.
pub open spec fn any_finished(results: Seq<WorkResult>) -> bool {
    exists|i: int| 0 <= i < results.len() && !(#[trigger] results[i] is Progress)
}

/// The session `a` no longer waiting for background work.
pub open spec fn work_closed(a: MediaSiftApp) -> MediaSiftApp {
    MediaSiftApp { receiver: None, operation: None, scan_cancel_token: None, ..a }
}

/// The settings of the session that starting background work leaves alone.
pub open spec fn same_settings(a: MediaSiftApp, b: MediaSiftApp) -> bool {
    &&& a.page == b.page
    &&& a.receiver == b.receiver
    &&& a.include_removable == b.include_removable
    &&& a.include_network == b.include_network
    &&& a.selected_scan_roots == b.selected_scan_roots
    &&& a.scan_cancel_token == b.scan_cancel_token
    &&& a.compression == b.compression
    &&& a.use_oldest_date == b.use_oldest_date
    &&& a.open_sort_folder_when_finished == b.open_sort_folder_when_finished
    &&& a.open_prefix_folder_when_finished == b.open_prefix_folder_when_finished
    &&& a.scan_mode == b.scan_mode
}

/// `b` is `a` with background `operation` under way and saying `text`; of the
/// confirmations still open, only those the start consumed may differ.
pub open spec fn work_started(a: MediaSiftApp, b: MediaSiftApp, operation: Operation, text: Seq<char>) -> bool {
    &&& same_settings(a, b)
    &&& same_scan(a, b)
    &&& same_review(a, b)
    &&& b.operation == Some(operation)
    &&& says(b.notice, NoticeKind::Info, text)
}

/// The saved scan is no longer trusted: the review is gone and nothing is saved.
pub open spec fn review_dropped(b: MediaSiftApp) -> bool {
    &&& b.review is None
    &&& !b.review_verified_this_session
    &&& b.saved_scan_at is None
}

/// The notice text once saved-scan metadata should have been deleted.
pub open spec fn invalidated_text(text: Seq<char>, cache_error: Option<String>) -> Seq<char> {
    match cache_error {
        Some(e) => text + " Saved scan metadata could not be deleted: "@ + e@
            + " Refresh before relying on it."@,
        None => text,
    }
}

/// The notice kind once saved-scan metadata should have been deleted.
pub open spec fn invalidated_kind(kind: NoticeKind, cache_error: Option<String>) -> NoticeKind {
    if cache_error is Some {
        NoticeKind::Warning
    } else {
        kind
    }
}

/// The message after images were sorted into folders.
pub open spec fn sorted_text(moved: nat) -> Seq<char> {
    "Organized "@ + decimal(moved)
        + " image(s) into Year/Month folders. Images without a usable capture date were left in place."@
}

/// The message after media files were renamed.
pub open spec fn renamed_text(s: RenameSummary) -> Seq<char> {
    "Renamed "@ + decimal(s.renamed as nat) + " media file(s), skipped "@ + decimal(s.skipped as nat)
        + ", and encountered "@ + decimal(s.failures@.len()) + " failure(s)."@
}

/// The message after an enhanced copy was saved.
pub open spec fn enhanced_text(output: Seq<char>) -> Seq<char> {
    "Saved an enhanced copy to "@ + output + ". The source photo was not changed."@
}

/// The message after a scan completed.
pub open spec fn scan_complete_text(groups: nat, extra: nat) -> Seq<char> {
    if groups == 0 {
        "Scan complete. No exact duplicate media files were found."@
    } else {
        "Scan complete: "@ + decimal(groups) + " duplicate group(s) with "@ + decimal(extra)
            + " extra copy/copies. Nothing is selected for removal yet."@
    }
}

/// The message after a scan was cancelled.
pub open spec fn scan_cancelled_text(has_review: bool) -> Seq<char> {
    if has_review {
        "Scan cancelled. The previous completed results and saved metadata are still available."@
    } else {
        "Scan cancelled. Scanning never changes files; adjust the locations and start again when ready."@
    }
}

/// The message after the saved scan was opened.
pub open spec fn loaded_text(groups: nat) -> Seq<char> {
    "Opened the last saved scan with "@ + decimal(groups)
        + " duplicate group(s). Refresh changes before acting on files."@
}

/// The message when the saved scan could not be opened.
pub open spec fn load_failed_text(error: Seq<char>) -> Seq<char> {
    "The saved scan could not be opened: "@ + error
        + " Delete the unreadable cache from Duplicate finder, then start a new scan."@
}

/// The message after the saved scan was deleted.
pub open spec fn forgotten_text() -> Seq<char> {
    "Saved scan metadata was deleted from Local AppData. Media files were not touched."@
}

/// The message when the saved scan could not be deleted.
pub open spec fn forget_failed_text(error: Seq<char>) -> Seq<char> {
    "Could not delete the saved scan metadata: "@ + error
}

/// What follows a file action's counts.
pub open spec fn action_follow_up(action: PendingAction) -> Seq<char> {
    if action == PendingAction::Archive {
        "The originals remain in place."@
    } else {
        "The previous review was cleared because the files changed. Run a new scan to refresh it."@
    }
}

/// The message after a file action.
pub open spec fn action_text(action: PendingAction, s: FileActionSummary) -> Seq<char> {
    "Processed "@ + decimal(s.processed as nat) + " file(s) with "@ + decimal(s.failures@.len())
        + " failure(s). "@ + action_follow_up(action)
}

/// The message when a file operation failed.
pub open spec fn operation_failed_text(error: Seq<char>) -> Seq<char> {
    error + " Try again or choose a different file or folder."@
}

/// The message when a scan failed.
pub open spec fn scan_failed_text(error: Seq<char>) -> Seq<char> {
    error + " Try again or choose different scan locations."@
}

/// The reason a scan with more files than a `usize` counts cannot be reviewed.
pub open spec fn uncountable_text() -> Seq<char> {
    "The scan found more duplicate files than can be counted."@
}

/// The kind of notice for a summary with or without failures.
pub open spec fn outcome_kind(failures: nat) -> NoticeKind {
    if failures == 0 {
        NoticeKind::Success
    } else {
        NoticeKind::Warning
    }
}

/// A notice that says `text` in `kind`.
pub open spec fn says(n: Notice, kind: NoticeKind, text: Seq<char>) -> bool {
    n.kind == kind && n.text@ == text
}

/// The notice after organizing files below `directory`, followed by what
/// became of opening the folder (`folder`) and of deleting the saved scan.
pub open spec fn organized_notice(
    n: Notice,
    kind: NoticeKind,
    message: Seq<char>,
    directory: Seq<char>,
    folder: FolderOpenOutcome,
    cache_error: Option<String>,
) -> bool {
    says(
        n,
        invalidated_kind(completion_kind(kind, folder), cache_error),
        invalidated_text(completion_text(message, directory, folder), cache_error),
    )
}

/// What applying `result` to the session `a` gives, `b`.
pub open spec fn applied(a: MediaSiftApp, result: WorkResult, b: MediaSiftApp) -> bool {
    &&& same_controls(a, b)
    &&& review_ok(b.review)
    &&& match result {
        WorkResult::Progress(p) => {
            &&& b.scan_progress == Some(p)
            &&& b.scan_state == a.scan_state
            &&& b.scan_report@ == a.scan_report@
            &&& b.review_page == a.review_page
            &&& b.saved_scan_error == a.saved_scan_error
            &&& same_review(a, b)
            &&& b.notice == a.notice
        },
        WorkResult::Sorted { directory, folder, result, cache_error } => {
            &&& same_scan(a, b)
            &&& review_dropped(b)
            &&& match result {
                Ok(moved) => organized_notice(
                    b.notice,
                    NoticeKind::Success,
                    sorted_text(moved as nat),
                    directory@,
                    folder,
                    cache_error,
                ),
                Err(e) => says(
                    b.notice,
                    invalidated_kind(NoticeKind::Error, cache_error),
                    invalidated_text(operation_failed_text(e@), cache_error),
                ),
            }
        },
        WorkResult::Prefixed { directory, folder, result, cache_error } => {
            &&& same_scan(a, b)
            &&& review_dropped(b)
            &&& match result {
                Ok(s) => organized_notice(
                    b.notice,
                    outcome_kind(s.failures@.len()),
                    renamed_text(s),
                    directory@,
                    folder,
                    cache_error,
                ),
                Err(e) => says(
                    b.notice,
                    invalidated_kind(NoticeKind::Error, cache_error),
                    invalidated_text(operation_failed_text(e@), cache_error),
                ),
            }
        },
        WorkResult::Enhanced { result, cache_error } => {
            &&& same_scan(a, b)
            &&& review_dropped(b)
            &&& match result {
                Ok(output) => says(
                    b.notice,
                    invalidated_kind(NoticeKind::Success, cache_error),
                    invalidated_text(enhanced_text(output@), cache_error),
                ),
                Err(e) => says(
                    b.notice,
                    invalidated_kind(NoticeKind::Error, cache_error),
                    invalidated_text(operation_failed_text(e@), cache_error),
                ),
            }
        },
        WorkResult::Scanned(Ok(scan)) => if total_paths(scan.groups@) <= usize::MAX {
            &&& b.scan_state == ScanState::Complete
            &&& reviews_scan(b.review, scan)
            &&& b.scan_progress == Some(scan.progress)
            &&& b.scan_report@ == scan_report(path_texts(scan.roots@), scan.progress, scan.groups@)
            &&& b.review_page == 0
            &&& b.saved_scan_at == Some(scan.completed_at_unix_seconds)
            &&& b.review_verified_this_session
            &&& !b.saved_scan_error
            &&& says(
                b.notice,
                NoticeKind::Success,
                scan_complete_text(scan.groups@.len(), crate::reports::extra_copies(scan.groups@)),
            )
        } else {
            &&& b.scan_state == ScanState::Failed
            &&& b.scan_progress == a.scan_progress
            &&& b.scan_report@ == a.scan_report@
            &&& b.review_page == a.review_page
            &&& b.saved_scan_error == a.saved_scan_error
            &&& same_review(a, b)
            &&& says(b.notice, NoticeKind::Error, scan_failed_text(uncountable_text()))
        },
        WorkResult::Scanned(Err(e)) => {
            &&& b.scan_state == ScanState::Failed
            &&& b.scan_progress == a.scan_progress
            &&& b.scan_report@ == a.scan_report@
            &&& b.review_page == a.review_page
            &&& b.saved_scan_error == a.saved_scan_error
            &&& same_review(a, b)
            &&& says(b.notice, NoticeKind::Error, scan_failed_text(e@))
        },
        WorkResult::ScanCancelled => {
            &&& b.scan_state == ScanState::Cancelled
            &&& b.scan_progress == a.scan_progress
            &&& b.scan_report@ == if a.review is None {
                Seq::<char>::empty()
            } else {
                a.scan_report@
            }
            &&& b.review_page == a.review_page
            &&& b.saved_scan_error == a.saved_scan_error
            &&& same_review(a, b)
            &&& says(b.notice, NoticeKind::Info, scan_cancelled_text(a.review is Some))
        },
        WorkResult::CachedScanLoaded(Ok(Some(scan))) => if total_paths(scan.groups@) <= usize::MAX {
            &&& b.scan_state == ScanState::Complete
            &&& reviews_scan(b.review, scan)
            &&& b.scan_progress == Some(scan.progress)
            &&& b.scan_report@ == scan_report(path_texts(scan.roots@), scan.progress, scan.groups@)
            &&& b.review_page == 0
            &&& b.saved_scan_at == Some(scan.completed_at_unix_seconds)
            &&& !b.review_verified_this_session
            &&& !b.saved_scan_error
            &&& says(b.notice, NoticeKind::Info, loaded_text(scan.groups@.len()))
        } else {
            &&& b.scan_state == ScanState::Idle
            &&& b.saved_scan_error
            &&& b.scan_progress == a.scan_progress
            &&& b.scan_report@ == a.scan_report@
            &&& b.review_page == a.review_page
            &&& same_review(a, b)
            &&& says(b.notice, NoticeKind::Warning, load_failed_text(uncountable_text()))
        },
        WorkResult::CachedScanLoaded(Ok(None)) => {
            &&& b.scan_state == ScanState::Idle
            &&& !b.saved_scan_error
            &&& b.scan_progress == a.scan_progress
            &&& b.scan_report@ == a.scan_report@
            &&& b.review_page == a.review_page
            &&& same_review(a, b)
            &&& says(b.notice, NoticeKind::Info, ready_text())
        },
        WorkResult::CachedScanLoaded(Err(e)) => {
            &&& b.scan_state == ScanState::Idle
            &&& b.saved_scan_error
            &&& b.scan_progress == a.scan_progress
            &&& b.scan_report@ == a.scan_report@
            &&& b.review_page == a.review_page
            &&& same_review(a, b)
            &&& says(b.notice, NoticeKind::Warning, load_failed_text(e@))
        },
        WorkResult::CachedScanForgotten(Ok(())) => {
            &&& b.scan_state == a.scan_state
            &&& b.scan_progress == a.scan_progress
            &&& b.scan_report@ == a.scan_report@
            &&& b.review_page == a.review_page
            &&& b.review == a.review
            &&& b.saved_scan_at is None
            &&& !b.review_verified_this_session
            &&& !b.saved_scan_error
            &&& says(b.notice, NoticeKind::Success, forgotten_text())
        },
        WorkResult::CachedScanForgotten(Err(e)) => {
            &&& same_scan(a, b)
            &&& same_review(a, b)
            &&& says(b.notice, NoticeKind::Error, forget_failed_text(e@))
        },
        WorkResult::Action { action, result, cache_error } => {
            &&& same_scan(a, b)
            &&& if action == PendingAction::Archive {
                &&& same_review(a, b)
                &&& match result {
                    Ok(s) => says(b.notice, outcome_kind(s.failures@.len()), action_text(action, s)),
                    Err(e) => says(b.notice, NoticeKind::Error, operation_failed_text(e@)),
                }
            } else {
                &&& review_dropped(b)
                &&& match result {
                    Ok(s) => says(
                        b.notice,
                        invalidated_kind(outcome_kind(s.failures@.len()), cache_error),
                        invalidated_text(action_text(action, s), cache_error),
                    ),
                    Err(e) => says(
                        b.notice,
                        invalidated_kind(NoticeKind::Error, cache_error),
                        invalidated_text(operation_failed_text(e@), cache_error),
                    ),
                }
            }
        },
    }
}

/// Takes every result that background work has sent so far, without waiting
/// (`Receiver::try_iter`). What has arrived depends on other threads, so the
/// contract states nothing of the list.
#[verifier::external_body]
fn received_results(receiver: &Receiver<WorkResult>) -> (r: Vec<WorkResult>) {
    receiver.try_iter().collect()
}

fn text_of(s: &str) -> (r: String)
    ensures
        r@ == s@,
{
    let mut r = String::new();
    push_text(&mut r, s);
    r
}


fn sorted_message(moved: usize) -> (r: String)
    ensures
        r@ == sorted_text(moved as nat),
{
    let mut r = text_of("Organized ");
    push_count(&mut r, moved);
    push_text(
        &mut r,
        " image(s) into Year/Month folders. Images without a usable capture date were left in place.",
    );
    r
}

fn renamed_message(s: &RenameSummary) -> (r: String)
    ensures
        r@ == renamed_text(*s),
{
    let mut r = text_of("Renamed ");
    push_count(&mut r, s.renamed);
    push_text(&mut r, " media file(s), skipped ");
    push_count(&mut r, s.skipped);
    push_text(&mut r, ", and encountered ");
    push_count(&mut r, s.failures.len());
    push_text(&mut r, " failure(s).");
    r
}

fn enhanced_message(output: &str) -> (r: String)
    ensures
        r@ == enhanced_text(output@),
{
    let mut r = text_of("Saved an enhanced copy to ");
    push_text(&mut r, output);
    push_text(&mut r, ". The source photo was not changed.");
    r
}

fn scan_complete_message(groups: usize, extra: usize) -> (r: String)
    ensures
        r@ == scan_complete_text(groups as nat, extra as nat),
{
    if groups == 0 {
        text_of("Scan complete. No exact duplicate media files were found.")
    } else {
        let mut r = text_of("Scan complete: ");
        push_count(&mut r, groups);
        push_text(&mut r, " duplicate group(s) with ");
        push_count(&mut r, extra);
        push_text(&mut r, " extra copy/copies. Nothing is selected for removal yet.");
        r
    }
}

fn loaded_message(groups: usize) -> (r: String)
    ensures
        r@ == loaded_text(groups as nat),
{
    let mut r = text_of("Opened the last saved scan with ");
    push_count(&mut r, groups);
    push_text(&mut r, " duplicate group(s). Refresh changes before acting on files.");
    r
}

fn load_failed_message(error: &str) -> (r: String)
    ensures
        r@ == load_failed_text(error@),
{
    let mut r = text_of("The saved scan could not be opened: ");
    push_text(&mut r, error);
    push_text(&mut r, " Delete the unreadable cache from Duplicate finder, then start a new scan.");
    r
}

fn action_message(action: PendingAction, s: &FileActionSummary) -> (r: String)
    ensures
        r@ == action_text(action, *s),
{
    let mut r = text_of("Processed ");
    push_count(&mut r, s.processed);
    push_text(&mut r, " file(s) with ");
    push_count(&mut r, s.failures.len());
    push_text(&mut r, " failure(s). ");
    if action == PendingAction::Archive {
        push_text(&mut r, "The originals remain in place.");
    } else {
        push_text(
            &mut r,
            "The previous review was cleared because the files changed. Run a new scan to refresh it.",
        );
    }
    r
}

fn operation_failed_message(error: &str) -> (r: String)
    ensures
        r@ == operation_failed_text(error@),
{
    let mut r = text_of(error);
    push_text(&mut r, " Try again or choose a different file or folder.");
    r
}

fn scan_failed_message(error: &str) -> (r: String)
    ensures
        r@ == scan_failed_text(error@),
{
    let mut r = text_of(error);
    push_text(&mut r, " Try again or choose different scan locations.");
    r
}

fn outcome_kind_of(failures: usize) -> (k: NoticeKind)
    ensures
        k == outcome_kind(failures as nat),
{
    if failures == 0 {
        NoticeKind::Success
    } else {
        NoticeKind::Warning
    }
}

impl MediaSiftApp {
    /// A session on the overview page with nothing selected, running or saved.
    pub fn initial() -> (app: Self)
        ensures
            app.page == Page::Overview,
            says(app.notice, NoticeKind::Info, ready_text()),
            app.receiver is None,
            app.operation is None,
            app.review is None,
            app.review_page == 0,
            !app.include_removable,
            !app.include_network,
            app.selected_scan_roots@.len() == 0,
            app.scan_state == ScanState::Idle,
            app.scan_cancel_token is None,
            app.compression == 2,
            app.pending_action is None,
            app.pending_sort is None,
            app.pending_date_prefix is None,
            !app.use_oldest_date,
            !app.open_sort_folder_when_finished,
            !app.open_prefix_folder_when_finished,
            app.scan_progress is None,
            app.scan_report@.len() == 0,
            app.scan_mode == ScanMode::Incremental,
            app.saved_scan_at is None,
            !app.review_verified_this_session,
            !app.pending_forget_scan_cache,
            !app.saved_scan_error,
    {
        MediaSiftApp {
            page: Page::Overview,
            notice: Notice::new(
                NoticeKind::Info,
                text_of("Choose a workflow. MediaSift will explain any file changes before they happen."),
            ),
            receiver: None,
            operation: None,
            review: None,
            review_page: 0,
            include_removable: false,
            include_network: false,
            selected_scan_roots: Vec::new(),
            scan_state: ScanState::Idle,
            scan_cancel_token: None,
            compression: 2,
            pending_action: None,
            pending_sort: None,
            pending_date_prefix: None,
            use_oldest_date: false,
            open_sort_folder_when_finished: false,
            open_prefix_folder_when_finished: false,
            scan_progress: None,
            scan_report: String::new(),
            scan_mode: ScanMode::Incremental,
            saved_scan_at: None,
            review_verified_this_session: false,
            pending_forget_scan_cache: false,
            saved_scan_error: false,
        }
    }

    /// Background work is under way.
    pub fn is_working(&self) -> (r: bool)
        ensures
            r == self.receiver is Some,
    {
        self.receiver.is_some()
    }

    /// Replaces the notice.
    pub fn set_notice(&mut self, kind: NoticeKind, text: String)
        ensures
            says(final(self).notice, kind, text@),
            final(self).page == old(self).page,
            final(self).receiver == old(self).receiver,
            final(self).operation == old(self).operation,
            final(self).review == old(self).review,
            final(self).scan_state == old(self).scan_state,
            final(self).scan_cancel_token == old(self).scan_cancel_token,
            same_controls(*old(self), *final(self)),
            same_scan(*old(self), *final(self)),
            same_review(*old(self), *final(self)),
    {
        self.notice = Notice::new(kind, text);
    }

    /// Asks a running scan to stop: raises its shared cancellation flag, which the
    /// scanning thread polls, and says so. Does nothing unless a scan is running
    /// with a flag. (The flag is an atomic shared with the scanning thread; what it
    /// holds is not part of this contract.)
    pub fn cancel_media_scan(&mut self)
        ensures
            (old(self).scan_state == ScanState::Running && old(self).scan_cancel_token is Some) ==> {
                &&& final(self).scan_state == ScanState::Cancelling
                &&& says(final(self).notice, NoticeKind::Info, cancelling_text())
            },
            !(old(self).scan_state == ScanState::Running && old(self).scan_cancel_token is Some) ==> {
                &&& final(self).scan_state == old(self).scan_state
                &&& final(self).notice == old(self).notice
            },
            same_controls(*old(self), *final(self)),
            same_review(*old(self), *final(self)),
            final(self).scan_progress == old(self).scan_progress,
            final(self).scan_report@ == old(self).scan_report@,
            final(self).review_page == old(self).review_page,
            final(self).saved_scan_error == old(self).saved_scan_error,
    {
        if self.scan_state != ScanState::Running {
            return;
        }
        let raised = match &self.scan_cancel_token {
            Some(token) => {
                token.store(true, std::sync::atomic::Ordering::Relaxed);
                true
            },
            None => false,
        };
        if raised {
            self.scan_state = ScanState::Cancelling;
            self.set_notice(
                NoticeKind::Info,
                text_of(
                    "Cancelling the duplicate scan. MediaSift will stop after the current filesystem step.",
                ),
            );
        }
    }

    /// The files that a file action would touch: those selected in the review,
    /// when every group keeps a copy.
    pub fn selected_action_paths(&self) -> (r: Result<Vec<String>, String>)
        requires
            review_ok(self.review),
        ensures
            self.review is None ==> (r matches Err(e) && e@ == "Run a duplicate scan first."@),
            self.review matches Some(rv) ==> {
                &&& (r is Ok <==> rv.keeps_every_group())
                &&& (r matches Ok(paths) ==> path_texts(paths@) == group_paths_in(rv.groups_view(), rv.selection()))
                &&& (r matches Err(e) ==> e@ == keeper_required_message())
            },
    {
        match &self.review {
            None => Err(text_of("Run a duplicate scan first.")),
            Some(review) => review.selected_paths(),
        }
    }

    /// Starts confirming `action`, or explains why there is nothing to confirm.
    pub fn begin_action(&mut self, action: PendingAction)
        requires
            review_ok(old(self).review),
        ensures
            same_scan(*old(self), *final(self)),
            same_review(*old(self), *final(self)),
            final(self).page == old(self).page,
            final(self).receiver == old(self).receiver,
            final(self).operation == old(self).operation,
            final(self).scan_cancel_token == old(self).scan_cancel_token,
            match old(self).review {
                None => says(final(self).notice, NoticeKind::Error, "Run a duplicate scan first."@)
                    && final(self).pending_action == old(self).pending_action,
                Some(rv) => if !rv.keeps_every_group() {
                    says(final(self).notice, NoticeKind::Error, keeper_required_message())
                        && final(self).pending_action == old(self).pending_action
                } else if group_paths_in(rv.groups_view(), rv.selection()).len() == 0 {
                    says(
                        final(self).notice,
                        NoticeKind::Info,
                        "No files are selected for action. Uncheck Keep on at least one extra copy."@,
                    ) && final(self).pending_action == old(self).pending_action
                } else {
                    final(self).pending_action == Some(action) && final(self).notice == old(self).notice
                },
            },
    {
        match self.selected_action_paths() {
            Ok(paths) => {
                if paths.len() == 0 {
                    self.set_notice(
                        NoticeKind::Info,
                        text_of("No files are selected for action. Uncheck Keep on at least one extra copy."),
                    );
                } else {
                    self.pending_action = Some(action);
                }
            },
            Err(error) => self.set_notice(NoticeKind::Error, error),
        }
    }

    /// Prefers the copies below `root` in the review, if there is one.
    pub fn select_source(&mut self, root: &str, only: bool)
        requires
            review_ok(old(self).review),
        ensures
            review_ok(final(self).review),
            old(self).review is None ==> final(self).review is None,
            old(self).review matches Some(rv) ==> (final(self).review matches Some(nv) && nv.groups_view()
                == rv.groups_view() && forall|k: Seq<char>| #[trigger] nv.selection().contains(k) <==> (if only {
                exists|a: int, j: int|
                    0 <= a < rv.groups_view().len() && 0 <= j < rv.groups_view()[a].1.len() && k
                        == crate::paths::path_key(#[trigger] rv.groups_view()[a].1[j])
                        && !crate::paths::path_starts_with(rv.groups_view()[a].1[j], root@)
            } else {
                rv.selection().contains(k) && !crate::paths::key_starts_with(k, root@)
            })),
            same_controls(*old(self), *final(self)),
            same_scan(*old(self), *final(self)),
            final(self).notice == old(self).notice,
    {
        match &mut self.review {
            Some(review) => review.keep_from_root(root, only),
            None => {},
        }
    }

    /// Drops the review once files may have changed, and adds to the notice when
    /// the saved-scan metadata could not be deleted.
    pub fn finish_cache_invalidation(&mut self, cache_error: Option<String>)
        ensures
            review_dropped(*final(self)),
            says(
                final(self).notice,
                invalidated_kind(old(self).notice.kind, cache_error),
                invalidated_text(old(self).notice.text@, cache_error),
            ),
            same_controls(*old(self), *final(self)),
            same_scan(*old(self), *final(self)),
    {
        self.review = None;
        self.review_verified_this_session = false;
        self.saved_scan_at = None;
        match cache_error {
            Some(error) => {
                self.notice.kind = NoticeKind::Warning;
                push_text(&mut self.notice.text, " Saved scan metadata could not be deleted: ");
                push_text(&mut self.notice.text, error.as_str());
                push_text(&mut self.notice.text, " Refresh before relying on it.");
            },
            None => {},
        }
    }
    fn apply_sorted(&mut self, directory: String, folder: FolderOpenOutcome, result: Result<usize, String>, cache_error: Option<String>)
        requires
            review_ok(old(self).review),
        ensures
            applied(*old(self), (WorkResult::Sorted { directory, folder, result, cache_error }), *final(self)),
    {
        match result {
            Ok(moved) => {
                self.notice = organize_completion_notice(
                    NoticeKind::Success,
                    sorted_message(moved),
                    directory.as_str(),
                    folder,
                );
                self.finish_cache_invalidation(cache_error);
            },
            Err(error) => {
                self.set_notice(NoticeKind::Error, operation_failed_message(error.as_str()));
                self.finish_cache_invalidation(cache_error);
            },
        }
    }

    fn apply_prefixed(&mut self, directory: String, folder: FolderOpenOutcome, result: Result<RenameSummary, String>, cache_error: Option<String>)
        requires
            review_ok(old(self).review),
        ensures
            applied(*old(self), (WorkResult::Prefixed { directory, folder, result, cache_error }), *final(self)),
    {
        match result {
            Ok(summary) => {
                let kind = outcome_kind_of(summary.failures.len());
                let message = renamed_message(&summary);
                assert(message@ == renamed_text(summary));
                self.notice = organize_completion_notice(kind, message, directory.as_str(), folder);
                self.finish_cache_invalidation(cache_error);
            },
            Err(error) => {
                self.set_notice(NoticeKind::Error, operation_failed_message(error.as_str()));
                self.finish_cache_invalidation(cache_error);
            },
        }
    }

    fn apply_enhanced(&mut self, result: Result<String, String>, cache_error: Option<String>)
        requires
            review_ok(old(self).review),
        ensures
            applied(*old(self), (WorkResult::Enhanced { result, cache_error }), *final(self)),
    {
        match result {
            Ok(output) => self.set_notice(NoticeKind::Success, enhanced_message(output.as_str())),
            Err(error) => self.set_notice(NoticeKind::Error, operation_failed_message(error.as_str())),
        }
        self.finish_cache_invalidation(cache_error);
    }

    fn apply_scanned(&mut self, result: Result<CachedScan, String>)
        requires
            review_ok(old(self).review),
        ensures
            applied(*old(self), WorkResult::Scanned(result), *final(self)),
    {
        match result {
            Ok(scan) => {
                let CachedScan { roots, groups, progress, completed_at_unix_seconds } = scan;
                match Review::try_new(groups, roots) {
                    Some(review) => {
                        self.scan_state = ScanState::Complete;
                        self.scan_progress = Some(progress);
                        self.scan_report = format_scan_report(review.roots(), &progress, review.groups());
                        let group_count = review.group_count();
                        let extra = review.extra_copies();
                        self.review = Some(review);
                        self.review_page = 0;
                        self.saved_scan_at = Some(completed_at_unix_seconds);
                        self.review_verified_this_session = true;
                        self.saved_scan_error = false;
                        self.set_notice(NoticeKind::Success, scan_complete_message(group_count, extra));
                    },
                    None => {
                        self.scan_state = ScanState::Failed;
                        self.set_notice(
                            NoticeKind::Error,
                            scan_failed_message("The scan found more duplicate files than can be counted."),
                        );
                    },
                }
            },
            Err(error) => {
                self.scan_state = ScanState::Failed;
                self.set_notice(NoticeKind::Error, scan_failed_message(error.as_str()));
            },
        }
    }

    fn apply_cancelled(&mut self)
        requires
            review_ok(old(self).review),
        ensures
            applied(*old(self), WorkResult::ScanCancelled, *final(self)),
    {
        self.scan_state = ScanState::Cancelled;
        let has_review = self.review.is_some();
        if !has_review {
            self.scan_report = String::new();
        }
        if has_review {
            self.set_notice(
                NoticeKind::Info,
                text_of("Scan cancelled. The previous completed results and saved metadata are still available."),
            );
        } else {
            self.set_notice(
                NoticeKind::Info,
                text_of("Scan cancelled. Scanning never changes files; adjust the locations and start again when ready."),
            );
        }
    }

    fn apply_loaded_scan(&mut self, scan: CachedScan)
        requires
            review_ok(old(self).review),
        ensures
            applied(*old(self), WorkResult::CachedScanLoaded(Ok(Some(scan))), *final(self)),
    {
        let CachedScan { roots, groups, progress, completed_at_unix_seconds } = scan;
        match Review::try_new(groups, roots) {
            Some(review) => {
                self.scan_state = ScanState::Complete;
                self.scan_report = format_scan_report(review.roots(), &progress, review.groups());
                let group_count = review.group_count();
                self.review = Some(review);
                self.review_page = 0;
                self.scan_progress = Some(progress);
                self.saved_scan_at = Some(completed_at_unix_seconds);
                self.review_verified_this_session = false;
                self.saved_scan_error = false;
                self.set_notice(NoticeKind::Info, loaded_message(group_count));
            },
            None => {
                self.scan_state = ScanState::Idle;
                self.saved_scan_error = true;
                self.set_notice(
                    NoticeKind::Warning,
                    load_failed_message("The scan found more duplicate files than can be counted."),
                );
            },
        }
    }

    fn apply_loaded(&mut self, result: Result<Option<CachedScan>, String>)
        requires
            review_ok(old(self).review),
        ensures
            applied(*old(self), WorkResult::CachedScanLoaded(result), *final(self)),
    {
        match result {
            Ok(Some(scan)) => self.apply_loaded_scan(scan),
            Ok(None) => {
                self.scan_state = ScanState::Idle;
                self.saved_scan_error = false;
                self.set_notice(
                    NoticeKind::Info,
                    text_of("Choose a workflow. MediaSift will explain any file changes before they happen."),
                );
            },
            Err(error) => {
                self.scan_state = ScanState::Idle;
                self.saved_scan_error = true;
                self.set_notice(NoticeKind::Warning, load_failed_message(error.as_str()));
            },
        }
    }

    fn apply_forgotten(&mut self, result: Result<(), String>)
        requires
            review_ok(old(self).review),
        ensures
            applied(*old(self), WorkResult::CachedScanForgotten(result), *final(self)),
    {
        match result {
            Ok(()) => {
                self.saved_scan_at = None;
                self.review_verified_this_session = false;
                self.saved_scan_error = false;
                self.set_notice(
                    NoticeKind::Success,
                    text_of("Saved scan metadata was deleted from Local AppData. Media files were not touched."),
                );
            },
            Err(error) => {
                let mut text = text_of("Could not delete the saved scan metadata: ");
                push_text(&mut text, error.as_str());
                self.set_notice(NoticeKind::Error, text);
            },
        }
    }

    fn apply_action(&mut self, action: PendingAction, result: Result<FileActionSummary, String>, cache_error: Option<String>)
        requires
            review_ok(old(self).review),
        ensures
            applied(*old(self), (WorkResult::Action { action, result, cache_error }), *final(self)),
    {
        match result {
            Ok(summary) => {
                let kind = outcome_kind_of(summary.failures.len());
                if action != PendingAction::Archive {
                    self.review = None;
                    self.review_verified_this_session = false;
                }
                self.set_notice(kind, action_message(action, &summary));
            },
            Err(error) => {
                self.set_notice(NoticeKind::Error, operation_failed_message(error.as_str()));
            },
        }
        if action != PendingAction::Archive {
            self.finish_cache_invalidation(cache_error);
        }
    }

    /// Puts the session into background `operation`, saying `text`.
    fn begin_work(&mut self, operation: Operation, text: String)
        ensures
            work_started(*old(self), *final(self), operation, text@),
            final(self).pending_sort == old(self).pending_sort,
            final(self).pending_date_prefix == old(self).pending_date_prefix,
            final(self).pending_forget_scan_cache == old(self).pending_forget_scan_cache,
            final(self).pending_action == old(self).pending_action,
    {
        self.operation = Some(operation);
        self.set_notice(NoticeKind::Info, text);
    }

    /// Starts loading the saved scan. (The caller starts the work and hands the
    /// session its receiver.)
    pub fn begin_cache_load(&mut self)
        ensures
            work_started(
                *old(self),
                *final(self),
                Operation::CacheLoad,
                "Loading the last saved duplicate scan from Local AppData..."@,
            ),
            final(self).pending_sort == old(self).pending_sort,
            final(self).pending_date_prefix == old(self).pending_date_prefix,
            final(self).pending_forget_scan_cache == old(self).pending_forget_scan_cache,
            final(self).pending_action == old(self).pending_action,
    {
        self.begin_work(
            Operation::CacheLoad,
            text_of("Loading the last saved duplicate scan from Local AppData..."),
        );
    }

    /// Starts sorting the images below `directory`, which closes its
    /// confirmation; returns whether the folder is to be opened when done.
    pub fn begin_sort(&mut self, directory: &str) -> (open_when_finished: bool)
        ensures
            open_when_finished == old(self).open_sort_folder_when_finished,
            work_started(
                *old(self),
                *final(self),
                Operation::Sort,
                "Organizing images below "@ + directory@ + "..."@,
            ),
            final(self).pending_sort is None,
            final(self).pending_date_prefix == old(self).pending_date_prefix,
            final(self).pending_forget_scan_cache == old(self).pending_forget_scan_cache,
            final(self).pending_action == old(self).pending_action,
    {
        let open_when_finished = self.open_sort_folder_when_finished;
        self.pending_sort = None;
        let mut text = text_of("Organizing images below ");
        push_text(&mut text, directory);
        push_text(&mut text, "...");
        self.begin_work(Operation::Sort, text);
        open_when_finished
    }

    /// Starts prefixing the media files below `directory` with their dates,
    /// which closes its confirmation; returns whether the folder is to be opened
    /// when done.
    pub fn begin_date_prefix(&mut self, directory: &str) -> (open_when_finished: bool)
        ensures
            open_when_finished == old(self).open_prefix_folder_when_finished,
            work_started(
                *old(self),
                *final(self),
                Operation::Prefix,
                "Adding date prefixes below "@ + directory@ + "..."@,
            ),
            final(self).pending_sort == old(self).pending_sort,
            final(self).pending_date_prefix is None,
            final(self).pending_forget_scan_cache == old(self).pending_forget_scan_cache,
            final(self).pending_action == old(self).pending_action,
    {
        let open_when_finished = self.open_prefix_folder_when_finished;
        self.pending_date_prefix = None;
        let mut text = text_of("Adding date prefixes below ");
        push_text(&mut text, directory);
        push_text(&mut text, "...");
        self.begin_work(Operation::Prefix, text);
        open_when_finished
    }

    /// Starts making an enhanced copy of `photo`.
    pub fn begin_enhancement(&mut self, photo: &str)
        ensures
            work_started(
                *old(self),
                *final(self),
                Operation::Enhance,
                "Creating an enhanced copy of "@ + photo@ + "..."@,
            ),
            final(self).pending_sort == old(self).pending_sort,
            final(self).pending_date_prefix == old(self).pending_date_prefix,
            final(self).pending_forget_scan_cache == old(self).pending_forget_scan_cache,
            final(self).pending_action == old(self).pending_action,
    {
        let mut text = text_of("Creating an enhanced copy of ");
        push_text(&mut text, photo);
        push_text(&mut text, "...");
        self.begin_work(Operation::Enhance, text);
    }

    /// Starts deleting the saved scan, which closes its confirmation.
    pub fn begin_cache_forget(&mut self)
        ensures
            work_started(
                *old(self),
                *final(self),
                Operation::CacheForget,
                "Deleting saved scan metadata from Local AppData. Media files will not be touched..."@,
            ),
            final(self).pending_sort == old(self).pending_sort,
            final(self).pending_date_prefix == old(self).pending_date_prefix,
            !final(self).pending_forget_scan_cache,
            final(self).pending_action == old(self).pending_action,
    {
        self.pending_forget_scan_cache = false;
        self.begin_work(
            Operation::CacheForget,
            text_of("Deleting saved scan metadata from Local AppData. Media files will not be touched..."),
        );
    }

    /// Adds `folders` to the folders to scan, keeping the list in path order
    /// without repeats, and says how many are selected.
    pub fn add_scan_folders(&mut self, folders: &Vec<String>)
        ensures
            sorted_unique_of(old(self).selected_scan_roots@ + folders@, final(self).selected_scan_roots@),
            says(
                final(self).notice,
                NoticeKind::Info,
                "Selected "@ + decimal(final(self).selected_scan_roots@.len())
                    + " folder(s). Only these folders will be scanned; automatic whole-drive scanning is off."@,
            ),
            final(self).page == old(self).page,
            final(self).receiver == old(self).receiver,
            final(self).operation == old(self).operation,
            final(self).scan_cancel_token == old(self).scan_cancel_token,
            same_scan(*old(self), *final(self)),
            same_review(*old(self), *final(self)),
    {
        let mut all = self.selected_scan_roots.clone();
        let ghost start = all@;
        assert(start == self.selected_scan_roots@);
        let mut i: usize = 0;
        while i < folders.len()
            invariant
                i <= folders.len(),
                all@ == start + folders@.take(i as int),
            decreases folders.len() - i,
        {
            all.push(folders[i].clone());
            assert(folders@.take(i + 1) =~= folders@.take(i as int).push(folders@[i as int]));
            i = i + 1;
        }
        assert(folders@.take(folders@.len() as int) =~= folders@);
        self.selected_scan_roots = sorted_unique_paths(&all);
        let mut text = text_of("Selected ");
        push_count(&mut text, self.selected_scan_roots.len());
        push_text(
            &mut text,
            " folder(s). Only these folders will be scanned; automatic whole-drive scanning is off.",
        );
        self.set_notice(NoticeKind::Info, text);
    }

    /// What a confirmed file `action` works on: the copies selected in the
    /// review and, before recycling or deleting, the groups whose contents must
    /// be hashed again (none for an archive). `None` when there is no review or a
    /// group keeps no copy; when a destructive action would touch a group that
    /// keeps no copy, that refusal is also said.
    pub fn file_action_inputs(&mut self, action: PendingAction) -> (r: Option<(Vec<String>, Vec<DuplicateActionVerification>)>)
        requires
            review_ok(old(self).review),
        ensures
            old(self).review is None ==> r is None && final(self).notice == old(self).notice,
            old(self).review matches Some(rv) ==> {
                let destructive = action != PendingAction::Archive;
                let refused = destructive && affected_group_without_keeper(rv.groups_view(), rv.selection());
                &&& !rv.keeps_every_group() ==> r is None && final(self).notice == old(self).notice
                &&& rv.keeps_every_group() && refused ==> r is None && says(
                    final(self).notice,
                    NoticeKind::Error,
                    keeper_required_message(),
                )
                &&& rv.keeps_every_group() && !refused ==> {
                    &&& r matches Some((paths, list)) && path_texts(paths@) == group_paths_in(
                        rv.groups_view(),
                        rv.selection(),
                    ) && list@.map_values(|d: DuplicateActionVerification| verification_view(d))
                        == if destructive {
                        verifications_of(rv.groups_view(), rv.selection())
                    } else {
                        Seq::empty()
                    }
                    &&& final(self).notice == old(self).notice
                }
            },
            final(self).operation == old(self).operation,
            same_settings(*old(self), *final(self)),
            final(self).pending_action == old(self).pending_action,
            same_scan(*old(self), *final(self)),
            same_review(*old(self), *final(self)),
    {
        let paths = match self.selected_action_paths() {
            Ok(paths) => paths,
            Err(_) => return None,
        };
        if action == PendingAction::Archive {
            let none: Vec<DuplicateActionVerification> = Vec::new();
            assert(none@.map_values(|d: DuplicateActionVerification| verification_view(d)) =~= Seq::empty());
            return Some((paths, none));
        }
        let checked = match &self.review {
            Some(review) => review.action_verifications(),
            None => return None,
        };
        match checked {
            Ok(list) => Some((paths, list)),
            Err(error) => {
                self.set_notice(NoticeKind::Error, error);
                None
            },
        }
    }

    /// Starts a confirmed file action on `count` files, which closes its
    /// confirmation; `reverifying` when their groups are hashed again first.
    pub fn begin_file_action(&mut self, count: usize, reverifying: bool)
        ensures
            work_started(
                *old(self),
                *final(self),
                Operation::FileAction,
                if reverifying {
                    "Re-verifying exact contents, then processing "@ + decimal(count as nat)
                        + " selected file(s)..."@
                } else {
                    "Processing "@ + decimal(count as nat) + " selected file(s)..."@
                },
            ),
            final(self).pending_action is None,
            final(self).pending_sort == old(self).pending_sort,
            final(self).pending_date_prefix == old(self).pending_date_prefix,
            final(self).pending_forget_scan_cache == old(self).pending_forget_scan_cache,
    {
        let mut text = if reverifying {
            text_of("Re-verifying exact contents, then processing ")
        } else {
            text_of("Processing ")
        };
        push_count(&mut text, count);
        push_text(&mut text, " selected file(s)...");
        self.begin_work(Operation::FileAction, text);
        self.pending_action = None;
    }

    /// Says whether the scan report could be saved to `destination`.
    pub fn report_saved(&mut self, destination: &str, result: Result<(), String>)
        ensures
            result is Ok ==> says(
                final(self).notice,
                NoticeKind::Success,
                "Saved the scan report to "@ + destination@ + "."@,
            ),
            result matches Err(e) ==> says(
                final(self).notice,
                NoticeKind::Error,
                "Could not save the report: "@ + e@,
            ),
            final(self).operation == old(self).operation,
            final(self).pending_action == old(self).pending_action,
            same_settings(*old(self), *final(self)),
            same_scan(*old(self), *final(self)),
            same_review(*old(self), *final(self)),
    {
        match result {
            Ok(()) => {
                let mut text = text_of("Saved the scan report to ");
                push_text(&mut text, destination);
                push_text(&mut text, ".");
                self.set_notice(NoticeKind::Success, text);
            },
            Err(error) => {
                let mut text = text_of("Could not save the report: ");
                push_text(&mut text, error.as_str());
                self.set_notice(NoticeKind::Error, text);
            },
        }
    }

    /// Alt with the digit `digit` opens the page of that number (1 to 4); other
    /// digits change nothing.
    pub fn page_shortcut(&mut self, digit: u8)
        ensures
            final(self).page == match digit {
                1 => Page::Overview,
                2 => Page::Duplicates,
                3 => Page::Organize,
                4 => Page::PhotoTools,
                _ => old(self).page,
            },
            final(self).notice == old(self).notice,
            final(self).operation == old(self).operation,
            final(self).pending_action == old(self).pending_action,
            same_controls(
                *old(self),
                MediaSiftApp { page: old(self).page, ..*final(self) },
            ),
            same_scan(*old(self), *final(self)),
            same_review(*old(self), *final(self)),
    {
        if digit == 1 {
            self.page = Page::Overview;
        } else if digit == 2 {
            self.page = Page::Duplicates;
        } else if digit == 3 {
            self.page = Page::Organize;
        } else if digit == 4 {
            self.page = Page::PhotoTools;
        }
    }

    /// Escape closes the confirmations of a file action, a sort and a date
    /// prefix.
    pub fn dismiss_confirmations(&mut self)
        ensures
            final(self).pending_action is None,
            final(self).pending_sort is None,
            final(self).pending_date_prefix is None,
            final(self).pending_forget_scan_cache == old(self).pending_forget_scan_cache,
            final(self).notice == old(self).notice,
            final(self).operation == old(self).operation,
            same_settings(*old(self), *final(self)),
            same_scan(*old(self), *final(self)),
            same_review(*old(self), *final(self)),
    {
        self.pending_action = None;
        self.pending_sort = None;
        self.pending_date_prefix = None;
    }

    /// The number of files a confirmed action would touch: the selected copies,
    /// or none when no action may run.
    pub open spec fn action_file_count(&self) -> nat {
        match self.review {
            Some(rv) => if rv.keeps_every_group() {
                group_paths_in(rv.groups_view(), rv.selection()).len()
            } else {
                0
            },
            None => 0,
        }
    }

    /// What the confirmation of the pending action says, with the exact number of
    /// files it would touch; `None` when no action waits for confirmation.
    pub fn pending_confirmation(&self) -> (r: Option<String>)
        requires
            review_ok(self.review),
        ensures
            self.pending_action is None ==> r is None,
            self.pending_action matches Some(a) ==> (r matches Some(t) && t@ == confirmation_text(
                a,
                self.action_file_count(),
            )),
    {
        match self.pending_action {
            None => None,
            Some(action) => {
                let count: usize = match self.selected_action_paths() {
                    Ok(paths) => {
                        assert(path_texts(paths@).len() == paths@.len());
                        paths.len()
                    },
                    Err(_) => 0,
                };
                Some(action.confirmation(count))
            },
        }
    }

    /// Says that the restoration prompt for `photo` was copied.
    pub fn note_prompt_copied(&mut self, photo: &str)
        ensures
            says(
                final(self).notice,
                NoticeKind::Success,
                "Copied an identity-preserving restoration prompt for "@ + photo@ + "."@,
            ),
            final(self).operation == old(self).operation,
            same_settings(*old(self), *final(self)),
            final(self).pending_action == old(self).pending_action,
            same_scan(*old(self), *final(self)),
            same_review(*old(self), *final(self)),
    {
        let mut text = text_of("Copied an identity-preserving restoration prompt for ");
        push_text(&mut text, photo);
        push_text(&mut text, ".");
        self.set_notice(NoticeKind::Success, text);
    }

    /// Decides whether a scan of `root_count` locations may start, and if so puts
    /// the session into the scanning state; returns whether the scan starts. (The
    /// caller then starts the work and hands the session its receiver and
    /// cancellation flag.)
    pub fn prepare_scan(&mut self, root_count: usize, mode: ScanMode) -> (starts: bool)
        requires
            review_ok(old(self).review),
        ensures
            review_ok(final(self).review),
            starts == (!old(self).saved_scan_error && root_count > 0),
            old(self).saved_scan_error ==> says(
                final(self).notice,
                NoticeKind::Error,
                "Delete the unreadable saved-scan cache before starting a new scan."@,
            ),
            !old(self).saved_scan_error && root_count == 0 ==> says(
                final(self).notice,
                NoticeKind::Error,
                "No scan locations are available. Add a folder and try again."@,
            ),
            !starts ==> final(self).scan_state == old(self).scan_state && final(self).operation
                == old(self).operation && final(self).scan_progress == old(self).scan_progress
                && final(self).scan_mode == old(self).scan_mode && final(self).scan_report@
                == old(self).scan_report@ && final(self).review_verified_this_session
                == old(self).review_verified_this_session,
            starts ==> {
                &&& final(self).operation == Some(Operation::Scan)
                &&& final(self).scan_state == ScanState::Running
                &&& final(self).scan_mode == mode
                &&& !final(self).review_verified_this_session
                &&& final(self).scan_progress == Some(ScanProgress::zero())
                &&& final(self).scan_report@ == if old(self).review is None {
                    Seq::<char>::empty()
                } else {
                    old(self).scan_report@
                }
                &&& says(final(self).notice, NoticeKind::Info, scan_start_text(root_count as nat, mode))
            },
            final(self).review == old(self).review,
            final(self).receiver == old(self).receiver,
            final(self).scan_cancel_token == old(self).scan_cancel_token,
    {
        if self.saved_scan_error {
            self.set_notice(
                NoticeKind::Error,
                text_of("Delete the unreadable saved-scan cache before starting a new scan."),
            );
            return false;
        }
        if root_count == 0 {
            self.set_notice(
                NoticeKind::Error,
                text_of("No scan locations are available. Add a folder and try again."),
            );
            return false;
        }
        self.operation = Some(Operation::Scan);
        self.scan_state = ScanState::Running;
        self.scan_mode = mode;
        self.review_verified_this_session = false;
        let mut text = if mode == ScanMode::Incremental {
            text_of("Refreshing ")
        } else {
            text_of("Fully rescanning ")
        };
        push_count(&mut text, root_count);
        push_text(&mut text, " location(s). The scan is read-only and safe to leave running.");
        self.set_notice(NoticeKind::Info, text);
        self.scan_progress = Some(ScanProgress::default());
        if self.review.is_none() {
            self.scan_report = String::new();
        }
        true
    }

    /// Applies one result of background work to the session; returns whether the
    /// work has finished (every result but a progress report).
    pub fn apply_work_result(&mut self, result: WorkResult) -> (finished: bool)
        requires
            review_ok(old(self).review),
        ensures
            applied(*old(self), result, *final(self)),
            finished == !(result is Progress),
    {
        match result {
            WorkResult::Progress(progress) => {
                self.scan_progress = Some(progress);
                false
            },
            WorkResult::Sorted { directory, folder, result, cache_error } => {
                self.apply_sorted(directory, folder, result, cache_error);
                true
            },
            WorkResult::Prefixed { directory, folder, result, cache_error } => {
                self.apply_prefixed(directory, folder, result, cache_error);
                true
            },
            WorkResult::Enhanced { result, cache_error } => {
                self.apply_enhanced(result, cache_error);
                true
            },
            WorkResult::Scanned(result) => {
                self.apply_scanned(result);
                true
            },
            WorkResult::ScanCancelled => {
                self.apply_cancelled();
                true
            },
            WorkResult::CachedScanLoaded(result) => {
                self.apply_loaded(result);
                true
            },
            WorkResult::CachedScanForgotten(result) => {
                self.apply_forgotten(result);
                true
            },
            WorkResult::Action { action, result, cache_error } => {
                self.apply_action(action, result, cache_error);
                true
            },
        }
    }

    /// Applies `results` in order; once one of them reports finished work, the
    /// session no longer waits for background work.
    pub fn apply_work_results(&mut self, results: Vec<WorkResult>)
        requires
            review_ok(old(self).review),
        ensures
            review_ok(final(self).review),
            final(self).page == old(self).page,
            final(self).selected_scan_roots == old(self).selected_scan_roots,
            final(self).pending_action == old(self).pending_action,
            ({
                ||| final(self).receiver is None && final(self).operation is None
                    && final(self).scan_cancel_token is None
                ||| final(self).receiver == old(self).receiver && final(self).operation
                    == old(self).operation && final(self).scan_cancel_token == old(self).scan_cancel_token
            }),
            results@.len() == 0 ==> *final(self) == *old(self),
            exists|states: Seq<MediaSiftApp>|
                #![trigger applied_in_turn(states, results@)]
                {
                    &&& states[0] == *old(self)
                    &&& applied_in_turn(states, results@)
                    &&& *final(self) == if any_finished(results@) {
                        work_closed(states.last())
                    } else {
                        states.last()
                    }
                },
    {
        let mut finished = false;
        let mut results = results;
        let ghost all = results@;
        let ghost mut states: Seq<MediaSiftApp> = seq![*self];
        proof {
            assert(all.take(0) =~= Seq::<WorkResult>::empty());
        }
        while results.len() > 0
            invariant
                review_ok(self.review),
                same_controls(*old(self), *self),
                results.len() <= all.len(),
                results@ == all.skip(all.len() - results.len()),
                states[0] == *old(self),
                applied_in_turn(states, all.take(all.len() - results.len())),
                states.last() == *self,
                finished == any_finished(all.take(all.len() - results.len())),
            decreases results.len(),
        {
            let ghost k = all.len() - results.len();
            let ghost before = *self;
            let ghost done = all.take(k);
            let result = results.remove(0);
            proof {
                assert(result == all[k]);
                assert(results@ =~= all.skip(k + 1));
            }
            let f = self.apply_work_result(result);
            if f {
                finished = true;
            }
            proof {
                let next = all.take(k + 1);
                let old_states = states;
                states = states.push(*self);
                assert(next =~= done.push(all[k]));
                assert forall|i: int| 0 <= i < next.len() implies applied(
                    states[i],
                    #[trigger] next[i],
                    states[i + 1],
                ) by {
                    if i < k {
                        assert(next[i] == done[i]);
                        assert(applied(old_states[i], done[i], old_states[i + 1]));
                    } else {
                        assert(states[i] == before);
                    }
                }
                if any_finished(done) {
                    let j = choose|j: int| 0 <= j < done.len() && !(#[trigger] done[j] is Progress);
                    assert(next[j] == done[j]);
                }
                if f {
                    assert(next[k] == all[k]);
                }
                if any_finished(next) {
                    let j = choose|j: int| 0 <= j < next.len() && !(#[trigger] next[j] is Progress);
                    if j < k {
                        assert(done[j] == next[j]);
                    }
                }
            }
        }
        proof {
            assert(all.take(all.len() as int) =~= all);
        }
        if finished {
            self.receiver = None;
            self.operation = None;
            self.scan_cancel_token = None;
        }
        proof {
            assert(applied_in_turn(states, all));
        }
    }

    /// Applies, in order, every result that background work has sent so far; once
    /// a piece of work has finished, the session no longer waits for it. Which
    /// results have arrived is up to the channel (possibly none); whatever they
    /// are, the session ends as applying them in turn leaves it.
    pub fn collect_result(&mut self)
        requires
            review_ok(old(self).review),
        ensures
            review_ok(final(self).review),
            old(self).receiver is None ==> *final(self) == *old(self),
            final(self).page == old(self).page,
            final(self).selected_scan_roots == old(self).selected_scan_roots,
            final(self).pending_action == old(self).pending_action,
            ({
                ||| final(self).receiver is None && final(self).operation is None
                    && final(self).scan_cancel_token is None
                ||| final(self).receiver == old(self).receiver && final(self).operation
                    == old(self).operation && final(self).scan_cancel_token == old(self).scan_cancel_token
            }),
            exists|results: Seq<WorkResult>, states: Seq<MediaSiftApp>|
                #![trigger applied_in_turn(states, results)]
                {
                    &&& old(self).receiver is None ==> results.len() == 0
                    &&& states[0] == *old(self)
                    &&& applied_in_turn(states, results)
                    &&& *final(self) == if any_finished(results) {
                        work_closed(states.last())
                    } else {
                        states.last()
                    }
                },
    {
        let results = match &self.receiver {
            Some(receiver) => received_results(receiver),
            None => Vec::new(),
        };
        let ghost received = results@;
        self.apply_work_results(results);
        proof {
            let states = choose|states: Seq<MediaSiftApp>| #[trigger] applied_in_turn(states, received)
                && states[0] == *old(self) && *self == if any_finished(received) {
                work_closed(states.last())
            } else {
                states.last()
            };
            assert(applied_in_turn(states, received));
        }
    }

}


/// Work that changed files on disk (sorting, prefixing, an enhanced copy, or a
/// recycle or delete of duplicates) clears the old review and the saved scan's
/// trust, so a review is never reused after files moved. Archiving, progress, a
/// cancelled or failed scan leave the review as it was; a completed scan brings a
/// review of its groups with every copy kept. No result changes the page, the
/// scan locations or a confirmation that is open.
pub proof fn lemma_review_after_work(a: MediaSiftApp, r: WorkResult, b: MediaSiftApp)
    requires
        applied(a, r, b),
    ensures
        (r is Sorted || r is Prefixed || r is Enhanced || (r matches WorkResult::Action { action, .. }
            && action != PendingAction::Archive)) ==> b.review is None && b.saved_scan_at is None
            && !b.review_verified_this_session,
        (r is Progress || r is ScanCancelled || r is Scanned && r->Scanned_0 is Err || (
        r matches WorkResult::Action { action, .. } && action == PendingAction::Archive)) ==> b.review
            == a.review && b.saved_scan_at == a.saved_scan_at,
        r is Scanned && r->Scanned_0 is Ok && total_paths(r->Scanned_0->Ok_0.groups@) <= usize::MAX ==> (
        b.review is Some && b.review->0.groups_view() == r->Scanned_0->Ok_0.groups@
            && b.review->0.selection().len() == 0),
        b.page == a.page && b.selected_scan_roots == a.selected_scan_roots && b.pending_action == a.pending_action
            && b.pending_sort == a.pending_sort && b.pending_date_prefix == a.pending_date_prefix,
{
}

} // verus!
