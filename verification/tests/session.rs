use media_sift::actions::{FileActionSummary, RenameSummary};
use media_sift::cache::{CachedScan, ScanMode};
use media_sift::groups::DuplicateGroups;
use media_sift::progress::ScanProgress;
use media_sift::review::Review;
use media_sift::session::{MediaSiftApp, WorkResult};
use media_sift::workspace::{
    windows_drive_roots, FolderOpenOutcome, NoticeKind, Operation, Page, PendingAction, ScanState, DRIVE_FIXED, DRIVE_REMOTE,
    DRIVE_REMOVABLE,
};

fn sample_scan() -> CachedScan {
    let mut progress = ScanProgress::default();
    progress.files_visited = 5;
    CachedScan {
        roots: vec!["/media".to_owned()],
        groups: DuplicateGroups::from_entries(vec![(
            "hash".to_owned(),
            vec!["/media/a.jpg".to_owned(), "/media/b.jpg".to_owned()],
        )]),
        progress,
        completed_at_unix_seconds: 1_700_000_000,
    }
}

#[test]
fn completed_scan_opens_a_review_with_nothing_selected() {
    let mut app = MediaSiftApp::initial();
    app.scan_state = ScanState::Running;
    assert!(app.apply_work_result(WorkResult::Scanned(Ok(sample_scan()))));
    assert_eq!(app.scan_state, ScanState::Complete);
    assert_eq!(app.notice.kind, NoticeKind::Success);
    assert_eq!(
        app.notice.text,
        "Scan complete: 1 duplicate group(s) with 1 extra copy/copies. Nothing is selected for removal yet."
    );
    let review = app.review.as_ref().unwrap();
    assert_eq!(review.action_count(), 0);
    assert!(app.review_verified_this_session);
    assert_eq!(app.saved_scan_at, Some(1_700_000_000));
    assert!(app.scan_report.contains("Duplicate groups: 1"));
}

#[test]
fn loaded_scan_must_be_refreshed_before_acting() {
    let mut app = MediaSiftApp::initial();
    assert!(app.apply_work_result(WorkResult::CachedScanLoaded(Ok(Some(sample_scan())))));
    assert_eq!(app.notice.kind, NoticeKind::Info);
    assert_eq!(
        app.notice.text,
        "Opened the last saved scan with 1 duplicate group(s). Refresh changes before acting on files."
    );
    assert!(!app.review_verified_this_session);
    assert_eq!(app.scan_progress.unwrap().files_visited, 5);
}

#[test]
fn failed_scans_keep_the_previous_review() {
    let mut app = MediaSiftApp::initial();
    app.apply_work_result(WorkResult::Scanned(Ok(sample_scan())));
    app.apply_work_result(WorkResult::Scanned(Err("Disk unplugged.".to_owned())));
    assert_eq!(app.scan_state, ScanState::Failed);
    assert!(app.review.is_some());
    assert_eq!(
        app.notice.text,
        "Disk unplugged. Try again or choose different scan locations."
    );
}

#[test]
fn removing_files_clears_the_review_and_reports_cache_trouble() {
    let mut app = MediaSiftApp::initial();
    app.apply_work_result(WorkResult::Scanned(Ok(sample_scan())));
    let mut summary = FileActionSummary::new();
    summary.record_success();
    app.apply_work_result(WorkResult::Action {
        action: PendingAction::Recycle,
        result: Ok(summary),
        cache_error: Some("locked".to_owned()),
    });
    assert!(app.review.is_none());
    assert!(app.saved_scan_at.is_none());
    assert_eq!(app.notice.kind, NoticeKind::Warning);
    assert_eq!(
        app.notice.text,
        "Processed 1 file(s) with 0 failure(s). The previous review was cleared because the files changed. Run a new scan to refresh it. Saved scan metadata could not be deleted: locked Refresh before relying on it."
    );
}

#[test]
fn archiving_keeps_the_review() {
    let mut app = MediaSiftApp::initial();
    app.apply_work_result(WorkResult::Scanned(Ok(sample_scan())));
    let mut summary = FileActionSummary::new();
    summary.record_failure("/media/b.jpg", "denied");
    app.apply_work_result(WorkResult::Action {
        action: PendingAction::Archive,
        result: Ok(summary),
        cache_error: None,
    });
    assert!(app.review.is_some());
    assert_eq!(app.notice.kind, NoticeKind::Warning);
    assert_eq!(
        app.notice.text,
        "Processed 0 file(s) with 1 failure(s). The originals remain in place."
    );
}

#[test]
fn renaming_reports_counts_without_opening_the_folder() {
    let mut app = MediaSiftApp::initial();
    let mut summary = RenameSummary::new();
    summary.record_skip();
    app.apply_work_result(WorkResult::Prefixed {
        directory: "/media".to_owned(),
        folder: FolderOpenOutcome::NotRequested,
        result: Ok(summary),
        cache_error: None,
    });
    assert_eq!(app.notice.kind, NoticeKind::Success);
    assert_eq!(
        app.notice.text,
        "Renamed 0 media file(s), skipped 1, and encountered 0 failure(s)."
    );
}

#[test]
fn unreadable_saved_scan_blocks_new_scans() {
    let mut app = MediaSiftApp::initial();
    app.apply_work_result(WorkResult::CachedScanLoaded(Err("bad header.".to_owned())));
    assert!(app.saved_scan_error);
    assert_eq!(app.notice.kind, NoticeKind::Warning);
    assert!(!app.prepare_scan(2, ScanMode::Incremental));
    assert_eq!(
        app.notice.text,
        "Delete the unreadable saved-scan cache before starting a new scan."
    );
}

#[test]
fn starting_a_scan_resets_progress_and_says_what_runs() {
    let mut app = MediaSiftApp::initial();
    assert!(!app.prepare_scan(0, ScanMode::Incremental));
    assert_eq!(app.notice.kind, NoticeKind::Error);
    assert!(app.prepare_scan(3, ScanMode::Full));
    assert_eq!(app.scan_state, ScanState::Running);
    assert_eq!(app.operation, Some(Operation::Scan));
    assert_eq!(
        app.notice.text,
        "Fully rescanning 3 location(s). The scan is read-only and safe to leave running."
    );
    assert_eq!(app.scan_progress.unwrap().files_visited, 0);
}

#[test]
fn actions_need_a_review_and_a_selection() {
    let mut app = MediaSiftApp::initial();
    app.begin_action(PendingAction::Delete);
    assert_eq!(app.notice.text, "Run a duplicate scan first.");
    app.apply_work_result(WorkResult::Scanned(Ok(sample_scan())));
    app.begin_action(PendingAction::Delete);
    assert_eq!(
        app.notice.text,
        "No files are selected for action. Uncheck Keep on at least one extra copy."
    );
    app.select_source("/media/a.jpg", true);
    app.begin_action(PendingAction::Delete);
    assert_eq!(app.pending_action, Some(PendingAction::Delete));
}

#[test]
fn verifications_list_a_kept_copy_for_each_affected_group() {
    let mut review = Review::new(sample_scan().groups, Vec::new());
    assert_eq!(review.action_verifications().unwrap().len(), 0);
    review.set_kept("hash", &"/media/b.jpg".to_owned(), false);
    let list = review.action_verifications().unwrap();
    assert_eq!(list.len(), 1);
    assert_eq!(list[0].expected_hash, "hash");
    assert_eq!(list[0].keeper, "/media/a.jpg");
    assert_eq!(list[0].selected, vec!["/media/b.jpg".to_owned()]);
    review.set_kept("hash", &"/media/a.jpg".to_owned(), false);
    assert_eq!(
        review.action_verifications().unwrap_err(),
        "Each duplicate group must retain at least one item."
    );
}

#[test]
fn forgetting_the_saved_scan_keeps_the_review_on_screen() {
    let mut app = MediaSiftApp::initial();
    app.apply_work_result(WorkResult::Scanned(Ok(sample_scan())));
    app.apply_work_result(WorkResult::CachedScanForgotten(Ok(())));
    assert!(app.review.is_some());
    assert!(app.saved_scan_at.is_none());
    assert_eq!(app.notice.kind, NoticeKind::Success);
}

#[test]
fn starting_background_work_sets_operation_and_notice() {
    let mut app = MediaSiftApp::initial();
    app.pending_sort = Some("C:/Photos".to_owned());
    app.open_sort_folder_when_finished = true;
    assert!(app.begin_sort("C:/Photos"));
    assert_eq!(app.operation, Some(Operation::Sort));
    assert_eq!(app.pending_sort, None);
    assert_eq!(app.notice.text, "Organizing images below C:/Photos...");

    let mut app = MediaSiftApp::initial();
    app.pending_date_prefix = Some("D:/Media".to_owned());
    assert!(!app.begin_date_prefix("D:/Media"));
    assert_eq!(app.operation, Some(Operation::Prefix));
    assert_eq!(app.pending_date_prefix, None);
    assert_eq!(app.notice.text, "Adding date prefixes below D:/Media...");

    let mut app = MediaSiftApp::initial();
    app.begin_enhancement("old.png");
    assert_eq!(app.operation, Some(Operation::Enhance));
    assert_eq!(app.notice.text, "Creating an enhanced copy of old.png...");

    let mut app = MediaSiftApp::initial();
    app.begin_cache_load();
    assert_eq!(app.operation, Some(Operation::CacheLoad));
    assert_eq!(
        app.notice.text,
        "Loading the last saved duplicate scan from Local AppData..."
    );

    let mut app = MediaSiftApp::initial();
    app.pending_forget_scan_cache = true;
    app.begin_cache_forget();
    assert_eq!(app.operation, Some(Operation::CacheForget));
    assert!(!app.pending_forget_scan_cache);
    assert_eq!(app.notice.kind, NoticeKind::Info);
}

#[test]
fn added_scan_folders_stay_sorted_without_repeats() {
    let mut app = MediaSiftApp::initial();
    app.add_scan_folders(&vec!["D:/b".to_owned(), "C:/a".to_owned()]);
    app.add_scan_folders(&vec!["C:/a".to_owned(), "E:/c".to_owned()]);
    assert_eq!(
        app.selected_scan_roots,
        vec!["C:/a".to_owned(), "D:/b".to_owned(), "E:/c".to_owned()]
    );
    assert_eq!(
        app.notice.text,
        "Selected 3 folder(s). Only these folders will be scanned; automatic whole-drive scanning is off."
    );
}

#[test]
fn copied_prompt_is_announced() {
    let mut app = MediaSiftApp::initial();
    app.note_prompt_copied("face.jpg");
    assert_eq!(app.notice.kind, NoticeKind::Success);
    assert_eq!(
        app.notice.text,
        "Copied an identity-preserving restoration prompt for face.jpg."
    );
}

#[test]
fn file_action_counts_the_files_and_says_when_it_reverifies() {
    let mut app = MediaSiftApp::initial();
    app.pending_action = Some(PendingAction::Delete);
    app.begin_file_action(2, true);
    assert_eq!(app.operation, Some(Operation::FileAction));
    assert_eq!(app.pending_action, None);
    assert_eq!(
        app.notice.text,
        "Re-verifying exact contents, then processing 2 selected file(s)..."
    );
    app.begin_file_action(1, false);
    assert_eq!(app.notice.text, "Processing 1 selected file(s)...");
}

#[test]
fn file_action_inputs_need_a_review() {
    let mut app = MediaSiftApp::initial();
    assert!(app.file_action_inputs(PendingAction::Recycle).is_none());
}

#[test]
fn file_action_inputs_list_selected_copies_and_checks() {
    let mut app = MediaSiftApp::initial();
    let mut review = Review::new(sample_scan().groups, Vec::new());
    review.set_kept("hash", &"/media/b.jpg".to_owned(), false);
    app.review = Some(review);
    let (paths, checks) = app.file_action_inputs(PendingAction::Delete).unwrap();
    assert_eq!(paths, vec!["/media/b.jpg".to_owned()]);
    assert_eq!(checks.len(), 1);
    assert_eq!(checks[0].keeper, "/media/a.jpg");
    let (paths, checks) = app.file_action_inputs(PendingAction::Archive).unwrap();
    assert_eq!(paths, vec!["/media/b.jpg".to_owned()]);
    assert!(checks.is_empty());
    if let Some(review) = app.review.as_mut() {
        review.set_kept("hash", &"/media/a.jpg".to_owned(), false);
    }
    assert!(app.file_action_inputs(PendingAction::Recycle).is_none());
}

#[test]
fn windows_drive_roots_follow_the_drive_options() {
    let mut kinds = vec![0_u32; 26];
    kinds[2] = DRIVE_FIXED;
    kinds[3] = DRIVE_REMOVABLE;
    kinds[4] = DRIVE_REMOTE;
    kinds[5] = DRIVE_FIXED;
    kinds[25] = DRIVE_FIXED;
    let mask: u32 = (1 << 2) | (1 << 3) | (1 << 4) | (1 << 25);
    assert_eq!(windows_drive_roots(mask, &kinds, false, false), vec!["C:\\", "Z:\\"]);
    assert_eq!(
        windows_drive_roots(mask, &kinds, true, false),
        vec!["C:\\", "D:\\", "Z:\\"]
    );
    assert_eq!(
        windows_drive_roots(mask, &kinds, true, true),
        vec!["C:\\", "D:\\", "E:\\", "Z:\\"]
    );
    assert!(windows_drive_roots(0, &kinds, true, true).is_empty());
}

#[test]
fn saving_the_report_is_announced() {
    let mut app = MediaSiftApp::initial();
    app.report_saved("out.txt", Ok(()));
    assert_eq!(app.notice.kind, NoticeKind::Success);
    assert_eq!(app.notice.text, "Saved the scan report to out.txt.");
    app.report_saved("out.txt", Err("disk full".to_owned()));
    assert_eq!(app.notice.kind, NoticeKind::Error);
    assert_eq!(app.notice.text, "Could not save the report: disk full");
}

#[test]
fn shortcuts_switch_pages_and_escape_closes_confirmations() {
    let mut app = MediaSiftApp::initial();
    app.page_shortcut(3);
    assert_eq!(app.page, Page::Organize);
    app.page_shortcut(9);
    assert_eq!(app.page, Page::Organize);
    app.page_shortcut(4);
    assert_eq!(app.page, Page::PhotoTools);
    app.pending_action = Some(PendingAction::Archive);
    app.pending_sort = Some("a".to_owned());
    app.pending_date_prefix = Some("b".to_owned());
    app.pending_forget_scan_cache = true;
    app.dismiss_confirmations();
    assert_eq!(app.pending_action, None);
    assert_eq!(app.pending_sort, None);
    assert_eq!(app.pending_date_prefix, None);
    assert!(app.pending_forget_scan_cache);
}

#[test]
fn confirmations_show_the_exact_number_of_files() {
    assert_eq!(
        PendingAction::Recycle.confirmation(3),
        "3 unchecked duplicate file(s) will move to the Recycle Bin. You can usually restore them later."
    );
    assert_eq!(
        PendingAction::Delete.confirmation(1),
        "1 unchecked duplicate file(s) will be permanently deleted. This cannot be undone."
    );
    assert_eq!(
        PendingAction::Archive.confirmation(12),
        "12 unchecked duplicate file(s) will be copied into a ZIP backup. The original files will remain in place."
    );
    assert_eq!(PendingAction::Recycle.confirm_label(3), "Recycle 3 file(s)");
    assert_eq!(PendingAction::Delete.confirm_label(2), "Delete 2 file(s) permanently");
    assert_eq!(PendingAction::Archive.confirm_label(2), "Choose ZIP location...");

    let mut app = MediaSiftApp::initial();
    assert_eq!(app.pending_confirmation(), None);
    let mut review = Review::new(sample_scan().groups, Vec::new());
    review.set_kept("hash", &"/media/b.jpg".to_owned(), false);
    app.review = Some(review);
    app.begin_action(PendingAction::Delete);
    assert_eq!(
        app.pending_confirmation().unwrap(),
        "1 unchecked duplicate file(s) will be permanently deleted. This cannot be undone."
    );
}

#[test]
fn a_failed_folder_opening_turns_the_sort_notice_into_a_warning() {
    let mut app = MediaSiftApp::initial();
    app.apply_work_result(WorkResult::Sorted {
        directory: "/media".to_owned(),
        folder: FolderOpenOutcome::Failed("no launcher".to_owned()),
        result: Ok(2),
        cache_error: None,
    });
    assert_eq!(app.notice.kind, NoticeKind::Warning);
    assert!(app.notice.text.contains("could not open /media in File Explorer: no launcher."));
}

#[test]
fn results_are_applied_in_turn_and_close_the_work() {
    let mut app = MediaSiftApp::initial();
    app.operation = Some(Operation::Scan);
    let mut progress = ScanProgress::default();
    progress.files_visited = 3;
    app.apply_work_results(vec![WorkResult::Progress(progress)]);
    assert_eq!(app.scan_progress, Some(progress));
    assert_eq!(app.operation, Some(Operation::Scan));
    app.apply_work_results(vec![
        WorkResult::Progress(ScanProgress::default()),
        WorkResult::Scanned(Ok(sample_scan())),
    ]);
    assert!(app.review.is_some());
    assert_eq!(app.operation, None);
    assert!(app.receiver.is_none());
    app.apply_work_results(Vec::new());
    assert!(app.review.is_some());
}
