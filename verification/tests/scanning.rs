use media_sift::cache::{
    hashed_file_step, indexed_file_step, FileFingerprint, HashOutcome, HashedFileStep, IndexBuild,
    IndexedFileStep, INSERT_COMMIT_INTERVAL,
};
use media_sift::dates::{
    capture_date_text, chosen_file_time, date_prefix_text, exif_capture_date, CalendarDate,
};
use media_sift::groups::{group_by_hash, DuplicateGroups};
use media_sift::hashing::file_hash;
use media_sift::media::MediaKind;
use media_sift::scanner::{DuplicateScanner, FileVisit};
use media_sift::sorting::sort_paths;

fn jpeg_with_exif_date(date: &str) -> Vec<u8> {
    let mut tiff = Vec::new();
    tiff.extend_from_slice(b"II");
    tiff.extend_from_slice(&42_u16.to_le_bytes());
    tiff.extend_from_slice(&8_u32.to_le_bytes());
    tiff.extend_from_slice(&1_u16.to_le_bytes());
    tiff.extend_from_slice(&0x8769_u16.to_le_bytes());
    tiff.extend_from_slice(&4_u16.to_le_bytes());
    tiff.extend_from_slice(&1_u32.to_le_bytes());
    tiff.extend_from_slice(&26_u32.to_le_bytes());
    tiff.extend_from_slice(&0_u32.to_le_bytes());
    tiff.extend_from_slice(&1_u16.to_le_bytes());
    tiff.extend_from_slice(&0x9003_u16.to_le_bytes());
    tiff.extend_from_slice(&2_u16.to_le_bytes());
    tiff.extend_from_slice(&((date.len() + 1) as u32).to_le_bytes());
    tiff.extend_from_slice(&44_u32.to_le_bytes());
    tiff.extend_from_slice(&0_u32.to_le_bytes());
    tiff.extend_from_slice(date.as_bytes());
    tiff.push(0);

    let mut jpeg = vec![0xff, 0xd8, 0xff, 0xe1];
    jpeg.extend_from_slice(&((tiff.len() + 8) as u16).to_be_bytes());
    jpeg.extend_from_slice(b"Exif\0\0");
    jpeg.extend_from_slice(&tiff);
    jpeg.extend_from_slice(&[0xff, 0xd9]);
    jpeg
}

#[test]
fn embedded_capture_dates_are_read_from_jpeg_exif() {
    assert_eq!(
        exif_capture_date(&jpeg_with_exif_date("2010:09:20 15:55:00")),
        Some(CalendarDate { year: 2010, month: 9, day: 20 })
    );
    assert_eq!(exif_capture_date(&jpeg_with_exif_date("2010:02:30 15:55:00")), None);
    assert_eq!(exif_capture_date(b"not an image"), None);
}

#[test]
fn filename_dates_prefer_embedded_capture_dates_of_images() {
    let date = CalendarDate { year: 2010, month: 9, day: 20 };
    assert_eq!(
        capture_date_text(Some(MediaKind::Image), Some(date)),
        Some("2010-09-20".to_owned())
    );
    assert_eq!(capture_date_text(Some(MediaKind::Video), Some(date)), None);
    assert_eq!(capture_date_text(Some(MediaKind::Image), None), None);
    assert_eq!(date_prefix_text(CalendarDate { year: 812, month: 1, day: 5 }), "0812-01-05");
    assert_eq!(date_prefix_text(CalendarDate { year: -44, month: 3, day: 15 }), "-0044-03-15");
    assert_eq!(date_prefix_text(CalendarDate { year: 12345, month: 12, day: 31 }), "+12345-12-31");
}

#[test]
fn file_times_prefer_creation_unless_the_oldest_is_asked_for() {
    assert_eq!(chosen_file_time(Some(20), Some(10), false), Some(20));
    assert_eq!(chosen_file_time(Some(20), Some(10), true), Some(10));
    assert_eq!(chosen_file_time(Some(5), Some(10), true), Some(5));
    assert_eq!(chosen_file_time(None, Some(10), false), Some(10));
    assert_eq!(chosen_file_time(None, None, true), None);
}

#[test]
fn a_scan_needs_at_least_one_location() {
    assert_eq!(
        DuplicateScanner::start(&Vec::new()).err(),
        Some("Select at least one scan location.".to_owned())
    );
}

#[test]
fn scanner_groups_equal_hashes_and_skips_unique_sizes() {
    let mut scanner = DuplicateScanner::start(&vec!["/media".to_owned()]).unwrap();
    scanner.begin_root();
    scanner.visit_directory();
    assert_eq!(scanner.visit_file("/media/b.jpg".to_owned()), FileVisit::Media);
    scanner.record_size("/media/b.jpg".to_owned(), 10);
    assert_eq!(scanner.visit_file("/media/a.jpg".to_owned()), FileVisit::Media);
    scanner.record_size("/media/a.jpg".to_owned(), 10);
    assert_eq!(scanner.visit_file("/media/c.mp4".to_owned()), FileVisit::Media);
    scanner.record_size("/media/c.mp4".to_owned(), 99);
    assert_eq!(scanner.visit_file("/media/notes.txt".to_owned()), FileVisit::Ignored);
    assert_eq!(scanner.visit_file("/media//b.jpg".to_owned()), FileVisit::Repeated);
    assert!(!scanner.traversal_report_due(FileVisit::Repeated));

    let candidates = scanner.hash_candidates();
    assert_eq!(candidates, vec!["/media/b.jpg".to_owned(), "/media/a.jpg".to_owned()]);
    for path in candidates {
        assert!(!scanner.record_hash(path, Some("same".to_owned())));
    }
    let (groups, progress) = scanner.finish();
    assert_eq!(progress.roots_started, 1);
    assert_eq!(progress.directories_visited, 1);
    assert_eq!(progress.files_visited, 5);
    assert_eq!(progress.media_files_found, 3);
    assert_eq!(progress.files_hashed, 2);
    assert_eq!(progress.duplicate_groups, 1);
    assert_eq!(
        groups.get("same").unwrap(),
        &vec!["/media/a.jpg".to_owned(), "/media/b.jpg".to_owned()]
    );
}

#[test]
fn unreadable_files_count_as_hashed_but_join_no_group() {
    let mut scanner = DuplicateScanner::start(&vec!["/media".to_owned()]).unwrap();
    for name in ["/m/1.jpg", "/m/2.jpg", "/m/3.jpg"] {
        scanner.visit_file(name.to_owned());
        scanner.record_size(name.to_owned(), 7);
    }
    scanner.record_hash("/m/1.jpg".to_owned(), Some("x".to_owned()));
    scanner.record_hash("/m/2.jpg".to_owned(), None);
    scanner.record_hash("/m/3.jpg".to_owned(), Some("y".to_owned()));
    let (groups, progress) = scanner.finish();
    assert_eq!(progress.files_hashed, 3);
    assert!(groups.is_empty());
}

#[test]
fn hash_records_group_in_hash_order() {
    let records = vec![
        ("b".to_owned(), "/z.jpg".to_owned()),
        ("a".to_owned(), "/y.jpg".to_owned()),
        ("b".to_owned(), "/x.jpg".to_owned()),
    ];
    let groups = group_by_hash(&records);
    assert_eq!(groups.len(), 2);
    assert_eq!(groups.get("b").unwrap(), &vec!["/z.jpg".to_owned(), "/x.jpg".to_owned()]);
    let kept = groups.keep_duplicates();
    assert_eq!(kept.len(), 1);
    assert_eq!(kept.get("b").unwrap(), &vec!["/x.jpg".to_owned(), "/z.jpg".to_owned()]);
}

#[test]
fn paths_sort_by_components() {
    let sorted = sort_paths(&vec![
        "b/a".to_owned(),
        "a-b".to_owned(),
        "a/b".to_owned(),
        "a".to_owned(),
    ]);
    assert_eq!(
        sorted,
        vec!["a".to_owned(), "a/b".to_owned(), "a-b".to_owned(), "b/a".to_owned()]
    );
    let mut groups = DuplicateGroups::new();
    groups.push_path("h".to_owned(), "p".to_owned());
    groups.push_path("h".to_owned(), "q".to_owned());
    assert_eq!(groups.get("h").unwrap().len(), 2);
}

#[test]
fn index_build_counts_rows_and_commits_every_five_thousand() {
    let mut build = IndexBuild::new();
    build.begin_root();
    build.visit_directory();
    assert!(build.visit_file("/photos/a.JPG"));
    assert!(!build.visit_file("/photos/notes.txt"));
    assert!(!build.record_row(true, true));
    assert!(!build.record_row(false, true));
    assert!(!build.record_row(true, false));
    assert_eq!(build.progress.roots_started, 1);
    assert_eq!(build.progress.directories_visited, 1);
    assert_eq!(build.progress.files_visited, 2);
    assert_eq!(build.progress.media_files_found, 2);
    assert_eq!(build.progress.hashes_reused, 1);
    assert_eq!(build.pending_inserts, 2);
    let mut commits = 0;
    for _ in 0..(INSERT_COMMIT_INTERVAL - 2) {
        if build.record_row(true, false) {
            commits += 1;
        }
    }
    assert_eq!(commits, 1);
    assert_eq!(build.pending_inserts, 0);
    let mut reports = 0;
    for _ in 0..50 {
        if build.record_hashed() {
            reports += 1;
        }
    }
    assert_eq!(reports, 2);
    build.finish(7);
    assert_eq!(build.progress.duplicate_groups, 7);
    assert_eq!(build.progress.files_hashed, 50);
}

#[test]
fn indexed_files_are_forgotten_kept_or_hashed() {
    let indexed = FileFingerprint { size: 10, modified_ns: 5, created_ns: 1 };
    let changed = FileFingerprint { size: 11, modified_ns: 5, created_ns: 1 };
    assert_eq!(indexed_file_step(None, indexed, true), IndexedFileStep::Forget);
    assert_eq!(indexed_file_step(Some(changed), indexed, false), IndexedFileStep::Forget);
    assert_eq!(indexed_file_step(Some(indexed), indexed, true), IndexedFileStep::Keep);
    assert_eq!(indexed_file_step(Some(indexed), indexed, false), IndexedFileStep::Hash);
}

fn scan_contents(files: &[(&str, &[u8])]) -> DuplicateGroups {
    let mut scanner = DuplicateScanner::start(&vec!["/media".to_owned()]).unwrap();
    scanner.begin_root();
    for (path, contents) in files {
        if scanner.visit_file((*path).to_owned()) == FileVisit::Media {
            scanner.record_size((*path).to_owned(), contents.len() as u64);
        }
    }
    for path in scanner.hash_candidates() {
        let contents = files.iter().find(|(p, _)| *p == path).unwrap().1;
        scanner.record_hash(path, Some(file_hash(contents)));
    }
    scanner.finish().0
}

#[test]
fn same_size_files_with_different_content_are_not_duplicates() {
    let groups = scan_contents(&[("/media/a.jpg", b"abcd"), ("/media/b.jpg", b"abce")]);
    assert!(groups.is_empty());
    let groups = scan_contents(&[("/media/a.jpg", b"abcd"), ("/media/sub/b.jpg", b"abcd")]);
    assert_eq!(groups.len(), 1);
}

#[test]
fn known_video_and_audio_are_scanned_and_unknown_files_ignored() {
    let groups = scan_contents(&[
        ("/media/a.mp4", b"video"),
        ("/media/b.MP4", b"video"),
        ("/media/c.mp3", b"sound"),
        ("/media/d.flac", b"sound"),
        ("/media/e.txt", b"notes"),
        ("/media/f.bin", b"notes"),
    ]);
    assert_eq!(groups.len(), 2);
    for group in groups.groups() {
        assert!(!group
            .paths
            .iter()
            .any(|p| p.ends_with(".txt") || p.ends_with(".bin")));
    }
}

#[test]
fn overlapping_locations_count_a_file_once() {
    let mut scanner =
        DuplicateScanner::start(&vec!["/media".to_owned(), "/media/sub".to_owned()]).unwrap();
    scanner.begin_root();
    assert_eq!(scanner.visit_file("/media/sub/a.jpg".to_owned()), FileVisit::Media);
    scanner.begin_root();
    assert_eq!(scanner.visit_file("/media/sub/a.jpg".to_owned()), FileVisit::Repeated);
    assert_eq!(scanner.progress().media_files_found, 1);
    assert_eq!(scanner.progress().files_visited, 2);
}

#[test]
fn hashed_files_are_stored_forgotten_or_stop_the_scan() {
    let indexed = FileFingerprint { size: 10, modified_ns: 5, created_ns: 1 };
    let changed = FileFingerprint { size: 10, modified_ns: 6, created_ns: 1 };
    assert_eq!(hashed_file_step(HashOutcome::Hashed, Some(indexed), indexed), HashedFileStep::StoreHash);
    assert_eq!(hashed_file_step(HashOutcome::Hashed, Some(changed), indexed), HashedFileStep::Forget);
    assert_eq!(hashed_file_step(HashOutcome::Hashed, None, indexed), HashedFileStep::Forget);
    assert_eq!(hashed_file_step(HashOutcome::Unreadable, Some(indexed), indexed), HashedFileStep::Forget);
    assert_eq!(hashed_file_step(HashOutcome::Cancelled, Some(indexed), indexed), HashedFileStep::Stop);
}
