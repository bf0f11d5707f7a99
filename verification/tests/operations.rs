use std::sync::atomic::{AtomicBool, Ordering};
use std::sync::mpsc;
use std::sync::Arc;

use media_sift::session::{MediaSiftApp, WorkResult};
use media_sift::workspace::{
    folder_to_open, organize_completion_notice, resolved_scan_roots, FolderOpenOutcome,
    NoticeKind, Operation, ScanState,
};

#[test]
fn successful_completion_keeps_success_when_folder_opening_was_not_requested() {
    let notice = organize_completion_notice(
        NoticeKind::Success,
        "Organized files.".to_owned(),
        "C:/Media",
        FolderOpenOutcome::NotRequested,
    );
    assert_eq!(notice.kind, NoticeKind::Success);
    assert_eq!(notice.text, "Organized files.");
}

#[test]
fn folder_open_failure_is_a_warning_without_hiding_operation_success() {
    let notice = organize_completion_notice(
        NoticeKind::Success,
        "Organized files.".to_owned(),
        "C:/Media",
        FolderOpenOutcome::Failed("launcher unavailable".to_owned()),
    );
    assert_eq!(notice.kind, NoticeKind::Warning);
    assert!(notice.text.contains("The file operation completed"));
    assert!(notice.text.contains("C:/Media"));
    assert!(notice.text.contains("launcher unavailable"));
}

#[test]
fn selected_scan_folders_replace_automatic_drive_roots() {
    let selected = vec![
        "D:/Photos".to_owned(),
        "D:/Photos".to_owned(),
        "D:/Photos/Trips".to_owned(),
    ];
    let discovered = vec!["C:/".to_owned(), "D:/".to_owned()];

    assert_eq!(
        resolved_scan_roots(&selected, discovered),
        vec!["D:/Photos".to_owned()]
    );
}

#[test]
fn automatic_drive_roots_are_used_only_without_selected_folders() {
    let discovered = vec!["D:/".to_owned(), "C:/".to_owned()];

    assert_eq!(
        resolved_scan_roots(&Vec::new(), discovered),
        vec!["C:/".to_owned(), "D:/".to_owned()]
    );
}

#[test]
fn cancelling_a_running_scan_sets_the_shared_token() {
    let mut app = MediaSiftApp::initial();
    let token = Arc::new(AtomicBool::new(false));
    app.scan_cancel_token = Some(Arc::clone(&token));
    app.scan_state = ScanState::Running;

    app.cancel_media_scan();

    assert!(token.load(Ordering::Relaxed));
    assert_eq!(app.scan_state, ScanState::Cancelling);
    assert!(app.notice.text.contains("Cancelling"));
}

#[test]
fn cancelled_scan_result_clears_background_state_and_partial_report() {
    let mut app = MediaSiftApp::initial();
    let (sender, receiver) = mpsc::channel();
    app.receiver = Some(receiver);
    app.operation = Some(Operation::Scan);
    app.scan_state = ScanState::Cancelling;
    app.scan_cancel_token = Some(Arc::new(AtomicBool::new(true)));
    app.scan_report = "partial report".to_owned();
    sender
        .send(WorkResult::ScanCancelled)
        .expect("send cancellation result");

    app.collect_result();

    assert_eq!(app.scan_state, ScanState::Cancelled);
    assert!(app.receiver.is_none());
    assert!(app.operation.is_none());
    assert!(app.scan_cancel_token.is_none());
    assert!(app.scan_report.is_empty());
    assert!(app.notice.text.contains("Scan cancelled"));
}

#[test]
fn cancelling_does_nothing_unless_a_scan_is_running() {
    let mut app = MediaSiftApp::initial();
    let token = Arc::new(AtomicBool::new(false));
    app.scan_cancel_token = Some(Arc::clone(&token));
    app.scan_state = ScanState::Complete;

    app.cancel_media_scan();

    assert!(!token.load(Ordering::Relaxed));
    assert_eq!(app.scan_state, ScanState::Complete);
    assert!(app.notice.text.starts_with("Choose a workflow."));
}

#[test]
fn opening_is_skipped_when_not_requested() {
    assert_eq!(folder_to_open("C:/Media", false, true), None);
    assert_eq!(folder_to_open("C:/Media", true, false), None);
    assert_eq!(folder_to_open("C:/Media", true, true), Some("C:/Media".to_owned()));
}

#[test]
fn opened_folder_is_named_in_the_notice() {
    let notice = organize_completion_notice(
        NoticeKind::Success,
        "Organized files.".to_owned(),
        "C:/Media",
        FolderOpenOutcome::Opened,
    );
    assert_eq!(notice.kind, NoticeKind::Success);
    assert_eq!(notice.text, "Organized files. Opened C:/Media in File Explorer.");
}

#[test]
fn nested_roots_collapse_into_their_ancestor() {
    let selected = vec![
        "/media/b/photos".to_owned(),
        "/media/a".to_owned(),
        "/media/a/trips".to_owned(),
        "/media/ab".to_owned(),
    ];
    assert_eq!(
        resolved_scan_roots(&selected, Vec::new()),
        vec![
            "/media/a".to_owned(),
            "/media/ab".to_owned(),
            "/media/b/photos".to_owned()
        ]
    );
}

#[test]
fn progress_results_keep_the_work_running() {
    let mut app = MediaSiftApp::initial();
    let (sender, receiver) = mpsc::channel();
    app.receiver = Some(receiver);
    app.operation = Some(Operation::Scan);
    app.scan_state = ScanState::Running;
    let mut progress = media_sift::progress::ScanProgress::default();
    progress.files_visited = 7;
    sender.send(WorkResult::Progress(progress)).unwrap();

    app.collect_result();

    assert!(app.receiver.is_some());
    assert_eq!(app.operation, Some(Operation::Scan));
    assert_eq!(app.scan_progress.unwrap().files_visited, 7);
    assert_eq!(app.scan_state, ScanState::Running);
}

#[test]
fn resolved_roots_are_ascending_and_exactly_the_outermost() {
    let selected = vec![
        "/c".to_owned(),
        "/a/b".to_owned(),
        "/a".to_owned(),
        "/a/".to_owned(),
        "/ab".to_owned(),
    ];
    assert_eq!(
        resolved_scan_roots(&selected, vec!["/".to_owned()]),
        vec!["/a".to_owned(), "/ab".to_owned(), "/c".to_owned()]
    );
}
