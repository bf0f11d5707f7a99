use media_sift::workspace::{action_after_verification, PendingAction};
use media_sift::actions::{
    compression_choice, verify_duplicate_action_groups, zip_settings, ArchiveCompression,
    DateSource, DuplicateActionVerification, FileActionSummary, RenameSummary, ZipMethod,
};
use media_sift::cache::{
    check_schema_version, count_from_i64, count_to_i64, mode_label, reused_hash,
    FileFingerprint, ScanMode,
};
use media_sift::dates::{
    capture_date_from_exif_values, date_folder, date_from_parts, exif_values_readable, month_name,
    parse_exif_date, CalendarDate,
};
use media_sift::groups::{selected_duplicate_paths, unkept_duplicate_paths, DuplicateGroups};
use media_sift::hashing::{file_hash, lower_hex};
use media_sift::media::{is_image_path, media_kind, MediaKind};
use media_sift::naming::{
    archive_entry_name, dated_file_name, enhanced_file_name, has_date_prefix,
    numbered_file_name, prefix_wanted, prefixed_file_name, restoration_prompt,
};
use media_sift::pathset::PathSet;
use media_sift::progress::ScanProgress;
use media_sift::reports::{format_duplicate_report, format_scan_report};

fn two_path_duplicate_group() -> (DuplicateGroups, String, String) {
    let first = "one.jpg".to_owned();
    let second = "two.jpg".to_owned();
    let groups =
        DuplicateGroups::from_entries(vec![("hash".to_owned(), vec![first.clone(), second.clone()])]);
    (groups, first, second)
}

fn set_of(paths: &[&str]) -> PathSet {
    PathSet::from_paths(&paths.iter().map(|p| p.to_string()).collect())
}

#[test]
fn report_lists_groups_and_extra_copies() {
    let mut groups = DuplicateGroups::new();
    groups.insert(
        "hash".to_owned(),
        vec!["one.jpg".to_owned(), "two.jpg".to_owned()],
    );

    let report = format_duplicate_report(&groups);
    assert!(report.contains("1 duplicate group(s) (1 extra copy/copies)"));
    assert!(report.contains("one.jpg"));
    assert!(report.contains("two.jpg"));
}

#[test]
fn unkept_paths_require_a_keeper_in_every_group() {
    let (groups, first, second) = two_path_duplicate_group();
    assert!(unkept_duplicate_paths(&groups, &PathSet::new()).is_err());
    let kept = set_of(&[first.as_str()]);
    assert_eq!(unkept_duplicate_paths(&groups, &kept).unwrap(), vec![second]);
}

#[test]
fn selected_paths_are_sparse_and_require_a_keeper_in_every_group() {
    let (groups, first, second) = two_path_duplicate_group();

    assert_eq!(
        selected_duplicate_paths(&groups, &PathSet::new()).unwrap(),
        Vec::<String>::new()
    );
    assert_eq!(
        selected_duplicate_paths(&groups, &set_of(&[second.as_str()])).unwrap(),
        vec![second.clone()]
    );
    assert!(selected_duplicate_paths(&groups, &set_of(&[first.as_str(), second.as_str()])).is_err());
}

#[test]
fn identifies_existing_date_prefixes() {
    assert!(has_date_prefix("2024-01-02 - photo.jpg"));
    assert!(!has_date_prefix("2024-1-02 - photo.jpg"));
    assert!(!has_date_prefix("holiday photo.jpg"));
}

#[test]
fn parses_valid_exif_dates() {
    assert_eq!(
        parse_exif_date("2024:01:02 03:04:05"),
        Some(CalendarDate { year: 2024, month: 1, day: 2 })
    );
    assert_eq!(parse_exif_date("2024:13:02 03:04:05"), None);
    assert_eq!(parse_exif_date("2024:02:30 03:04:05"), None);
    assert_eq!(parse_exif_date("not a date"), None);
}

#[test]
fn recognises_image_extensions_case_insensitively() {
    assert!(is_image_path("photo.JPEG"));
    assert!(is_image_path("photo.png"));
    assert!(!is_image_path("notes.txt"));
}

#[test]
fn restoration_prompt_names_selected_photo() {
    let prompt = restoration_prompt("archive/grandmother.jpg");
    assert!(prompt.contains("grandmother.jpg"));
    assert!(prompt.contains("Do NOT alter"));
}

#[test]
fn restoration_prompt_without_a_file_name_names_the_selection() {
    let prompt = restoration_prompt("/");
    assert!(prompt.starts_with("AI RESTORATION PROMPT FOR: selected photo\n\nColorize"));
}

#[test]
fn media_kinds_follow_known_extensions() {
    assert_eq!(media_kind("clip/one.mp4"), Some(MediaKind::Video));
    assert_eq!(media_kind("song.FLAC"), Some(MediaKind::Audio));
    assert_eq!(media_kind("photo.heic"), Some(MediaKind::Image));
    assert_eq!(media_kind("notes.bin"), None);
    assert_eq!(media_kind("no_extension"), None);
}

#[test]
fn hashes_identical_content_equally() {
    let first = file_hash(b"same bytes");
    let second = file_hash(b"same bytes");
    assert_eq!(first, second);
    assert_ne!(first, file_hash(b"other bytes"));
}

#[test]
fn file_hash_is_lowercase_sha256_hex() {
    assert_eq!(
        file_hash(b"abc"),
        "ba7816bf8f01cfea414140de5dae2223b00361a396177a9cb410ff61f20015ad"
    );
    assert_eq!(lower_hex(&[0x00, 0x0f, 0xa0, 0xff]), "000fa0ff");
}

#[test]
fn verification_passes_when_every_copy_still_matches() {
    let groups = vec![DuplicateActionVerification {
        expected_hash: "h1".to_owned(),
        keeper: "keep.jpg".to_owned(),
        selected: vec!["copy.jpg".to_owned()],
    }];
    assert!(verify_duplicate_action_groups(&groups, |_| Ok::<String, (String, u8)>("h1".to_owned())).is_ok());
}

#[test]
fn destructive_verification_reports_a_changed_copy() {
    let groups = vec![DuplicateActionVerification {
        expected_hash: "h1".to_owned(),
        keeper: "keep.jpg".to_owned(),
        selected: vec!["copy.jpg".to_owned()],
    }];
    let failure = verify_duplicate_action_groups(&groups, |path: &String| {
        if path == "copy.jpg" {
            Ok::<String, (String, u8)>("h2".to_owned())
        } else {
            Ok("h1".to_owned())
        }
    })
    .unwrap_err();
    assert_eq!(failure.read_error, None);
    assert_eq!(
        failure.message,
        "copy.jpg changed after the scan and is no longer an exact duplicate. Refresh the scan and review the group again."
    );
}

#[test]
fn destructive_verification_reports_an_unreadable_keeper() {
    let groups = vec![DuplicateActionVerification {
        expected_hash: "h1".to_owned(),
        keeper: "keep.jpg".to_owned(),
        selected: vec!["copy.jpg".to_owned()],
    }];
    let error =
        verify_duplicate_action_groups(&groups, |_| Err(("file is gone".to_owned(), 7_u8))).unwrap_err();
    assert_eq!(error.read_error, Some(7));
    assert_eq!(
        error.message,
        "Could not verify keep.jpg before changing files: file is gone. Refresh the scan and review the group again."
    );
}

#[test]
fn date_prefixes_replace_existing_ones_only_when_asked() {
    assert_eq!(dated_file_name("photo.jpg", "2024-01-02"), "2024-01-02 - photo.jpg");
    assert_eq!(
        dated_file_name("2020-05-06 - photo.jpg", "2024-01-02"),
        "2024-01-02 - photo.jpg"
    );
    assert!(prefix_wanted("photo.jpg", false));
    assert!(!prefix_wanted("2020-05-06 - photo.jpg", false));
    assert!(prefix_wanted("2020-05-06 - photo.jpg", true));
    assert_eq!(prefixed_file_name("2024-01-02 - photo.jpg", "2024-01-02"), None);
    assert_eq!(
        prefixed_file_name("2020-05-06 - photo.jpg", "2024-01-02"),
        Some("2024-01-02 - photo.jpg".to_owned())
    );
}

#[test]
fn taken_names_get_numbered_alternatives() {
    assert_eq!(numbered_file_name("photo.jpg", 1), "photo_1.jpg");
    assert_eq!(numbered_file_name("archive.tar.gz", 12), "archive.tar_12.gz");
    assert_eq!(numbered_file_name("README", 2), "README_2");
    assert_eq!(numbered_file_name(".hidden", 3), ".hidden_3");
    assert_eq!(numbered_file_name("", 4), "image_4");
}

#[test]
fn enhanced_copies_are_named_beside_the_source() {
    assert_eq!(
        enhanced_file_name("albums/photo.png"),
        Ok("photo (Enhanced).png".to_owned())
    );
    assert_eq!(
        enhanced_file_name("/"),
        Err("Image has no parent directory: /".to_owned())
    );
    assert_eq!(
        enhanced_file_name("albums/.."),
        Err("Image has no valid filename: albums/..".to_owned())
    );
    assert_eq!(
        enhanced_file_name("albums/photo"),
        Err("Image has no extension: albums/photo".to_owned())
    );
}

#[test]
fn archive_entries_are_numbered_in_order() {
    assert_eq!(archive_entry_name(7, "/data/photo.jpg"), "media/00007_photo.jpg");
    assert_eq!(archive_entry_name(123456, "/data/photo.jpg"), "media/123456_photo.jpg");
    assert_eq!(archive_entry_name(0, "/"), "media/00000_file");
}

#[test]
fn compression_choices_map_to_zip_settings() {
    assert_eq!(compression_choice(0), ArchiveCompression::Stored);
    assert_eq!(compression_choice(1), ArchiveCompression::Fast);
    assert_eq!(compression_choice(2), ArchiveCompression::Default);
    assert_eq!(compression_choice(3), ArchiveCompression::Maximum);
    assert_eq!(compression_choice(9), ArchiveCompression::Default);
    assert_eq!(zip_settings(ArchiveCompression::Stored), (ZipMethod::Stored, None));
    assert_eq!(zip_settings(ArchiveCompression::Fast), (ZipMethod::Deflated, Some(1)));
    assert_eq!(zip_settings(ArchiveCompression::Default), (ZipMethod::Deflated, None));
    assert_eq!(zip_settings(ArchiveCompression::Maximum), (ZipMethod::Deflated, Some(9)));
}

#[test]
fn summaries_count_outcomes() {
    let mut actions = FileActionSummary::new();
    actions.record_success();
    actions.record_failure("/a.jpg", "denied");
    assert_eq!(actions.processed, 1);
    assert_eq!(actions.failures, vec!["/a.jpg: denied".to_owned()]);

    let mut renames = RenameSummary::new();
    renames.record_rename(true, DateSource::EmbeddedCapture);
    renames.record_rename(false, DateSource::Filesystem);
    renames.record_skip();
    assert_eq!(renames.renamed, 2);
    assert_eq!(renames.corrected_prefixes, 1);
    assert_eq!(renames.capture_dates_used, 1);
    assert_eq!(renames.filesystem_dates_used, 1);
    assert_eq!(renames.skipped, 1);
}

#[test]
fn unchanged_files_keep_their_saved_hash_only_in_incremental_scans() {
    let print = FileFingerprint { size: 10, modified_ns: 5, created_ns: 1 };
    let other = FileFingerprint { size: 10, modified_ns: 6, created_ns: 1 };
    let saved = Some((print, Some("abc".to_owned())));
    assert_eq!(reused_hash(ScanMode::Incremental, saved.clone(), print), Some("abc".to_owned()));
    assert_eq!(reused_hash(ScanMode::Full, saved.clone(), print), None);
    assert_eq!(reused_hash(ScanMode::Incremental, saved, other), None);
    assert_eq!(reused_hash(ScanMode::Incremental, None, print), None);
    assert_eq!(mode_label(ScanMode::Incremental), "incremental");
    assert_eq!(mode_label(ScanMode::Full), "full");
}

#[test]
fn stored_counts_saturate_and_never_go_negative() {
    assert_eq!(count_to_i64(42), 42);
    assert_eq!(count_to_i64(usize::MAX), i64::MAX);
    assert_eq!(count_from_i64(42), 42);
    assert_eq!(count_from_i64(-5), 0);
}

#[test]
fn newer_cache_schema_is_refused() {
    assert!(check_schema_version(0).is_ok());
    assert!(check_schema_version(1).is_ok());
    assert_eq!(
        check_schema_version(2).unwrap_err(),
        "The saved scan uses schema version 2, but this MediaSift build supports version 1."
    );
}

#[test]
fn dates_give_year_and_month_folders() {
    assert_eq!(month_name(1), Some("Jan".to_owned()));
    assert_eq!(month_name(13), None);
    let date = date_from_parts(2024, 2, 29).unwrap();
    assert_eq!(date_folder(date), Some((2024, "Feb".to_owned())));
    assert_eq!(date_from_parts(2023, 2, 29), None);
}

#[test]
fn scan_report_counts_groups_and_copies() {
    let (groups, _, _) = two_path_duplicate_group();
    let mut progress = ScanProgress::default();
    progress.directories_visited = 3;
    progress.files_visited = 9;
    progress.media_files_found = 4;
    progress.files_hashed = 2;
    let report = format_scan_report(&vec!["/media".to_owned(), "/photos".to_owned()], &progress, &groups);
    assert_eq!(
        report,
        "Exact media scan report\n\nLocations:\n- /media\n- /photos\n\nFolders visited: 3\nFiles visited: 9\nKnown media files: 4\nFiles hashed this scan: 2\nSaved hashes reused: 0\nDuplicate groups: 1\nDuplicate files: 2\nExtra copies: 1\n"
    );
}

#[test]
fn no_duplicates_report() {
    assert_eq!(
        format_duplicate_report(&DuplicateGroups::new()),
        "No exact duplicate images were found."
    );
}

#[test]
fn numbered_alternatives_never_repeat() {
    let mut seen = std::collections::HashSet::new();
    for counter in 1..=120_u64 {
        assert!(seen.insert(numbered_file_name("photo.jpg", counter)));
    }
    assert_ne!(numbered_file_name("a.jpg", 1), numbered_file_name("a.jpg", 11));
}

#[test]
fn destructive_actions_wait_for_a_passed_verification() {
    let passed: Result<(), String> = Ok(());
    let failed: Result<(), String> = Err("changed".to_owned());
    assert_eq!(action_after_verification(PendingAction::Recycle, &passed), Some(PendingAction::Recycle));
    assert_eq!(action_after_verification(PendingAction::Delete, &passed), Some(PendingAction::Delete));
    assert_eq!(action_after_verification(PendingAction::Recycle, &failed), None);
    assert_eq!(action_after_verification(PendingAction::Delete, &failed), None);
    assert_eq!(action_after_verification(PendingAction::Archive, &failed), Some(PendingAction::Archive));
}

#[test]
fn an_unreadable_date_with_a_split_character_is_passed_over() {
    assert_eq!(parse_exif_date("abcd:01:0\u{e9}x"), None);
    assert_eq!(parse_exif_date("2024:xx:0\u{e9}x"), None);
    let values = vec![
        "abcd:01:0\u{e9}x".as_bytes().to_vec(),
        b"2024:03:05 10:00:00".to_vec(),
    ];
    assert!(exif_values_readable(&values));
    assert_eq!(
        capture_date_from_exif_values(&values),
        Some(CalendarDate { year: 2024, month: 3, day: 5 })
    );
    let blocked = vec![
        "2024:01:0\u{e9}x".as_bytes().to_vec(),
        b"2024:03:05 10:00:00".to_vec(),
    ];
    assert!(!exif_values_readable(&blocked));
}
