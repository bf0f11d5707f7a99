use media_sift::groups::DuplicateGroups;
use media_sift::review::Review;
use media_sift::session::MediaSiftApp;
use media_sift::workspace::ScanState;

fn sample_groups() -> DuplicateGroups {
    DuplicateGroups::from_entries(vec![
        (
            "first".to_owned(),
            vec!["A/one.jpg".to_owned(), "B/one.jpg".to_owned()],
        ),
        (
            "second".to_owned(),
            vec![
                "C/two.mp4".to_owned(),
                "D/two.mp4".to_owned(),
                "E/two.mp4".to_owned(),
            ],
        ),
    ])
}

fn sample_review() -> Review {
    Review::new(sample_groups(), Vec::new())
}

#[test]
fn state_review_metrics_distinguish_files_from_extra_copies() {
    let review = sample_review();
    assert_eq!(review.group_count(), 2);
    assert_eq!(review.total_files(), 5);
    assert_eq!(review.extra_copies(), 3);
}

#[test]
fn state_keep_first_selects_every_extra_copy_for_action() {
    let mut review = sample_review();
    review.keep_first_in_each_group();
    assert!(review.every_group_has_keeper());
    assert_eq!(review.action_count(), 3);
}

#[test]
fn state_keep_all_is_the_safe_default() {
    let mut review = sample_review();
    review.keep_all();
    assert!(review.every_group_has_keeper());
    assert_eq!(review.action_count(), 0);
}

#[test]
fn toggling_the_last_keeper_blocks_actions_until_repaired() {
    let mut review = sample_review();
    let paths = review.groups().get("first").unwrap().clone();

    review.set_kept("first", &paths[0], false);
    review.set_kept("first", &paths[1], false);
    assert!(!review.every_group_has_keeper());
    assert!(review.selected_paths().is_err());

    review.set_kept("first", &paths[0], true);
    assert!(review.every_group_has_keeper());
    assert_eq!(review.selected_paths().unwrap(), vec![paths[1].clone()]);
}

#[test]
fn source_preference_keeps_matching_paths_without_dense_keep_state() {
    let mut review = sample_review();
    review.keep_first_in_each_group();

    review.keep_from_root("B", false);
    assert!(review.is_kept("B/one.jpg"));
    assert_eq!(review.action_count(), 2);

    review.keep_from_root("C", true);
    assert!(review.is_kept("C/two.mp4"));
    assert!(!review.is_kept("A/one.jpg"));
    assert!(!review.every_group_has_keeper());
}

#[test]
fn large_reviews_start_sparse_and_have_bounded_pages() {
    let groups = DuplicateGroups::from_entries(
        (0..55_298)
            .map(|index| {
                (
                    format!("group-{index:05}"),
                    vec![format!("A/{index}.jpg"), format!("B/{index}.jpg")],
                )
            })
            .collect(),
    );
    let review = Review::new(groups, Vec::new());

    assert_eq!(review.total_files(), 110_596);
    assert_eq!(review.extra_copies(), 55_298);
    assert_eq!(review.action_count(), 0);
    assert!(review.selected_for_action().is_empty());
    assert_eq!(review.page_count(50), 1_106);
    assert_eq!(review.page_bounds(0, 50), 0..50);
    assert_eq!(review.page_bounds(1_105, 50), 55_250..55_298);
    assert_eq!(review.page_bounds(usize::MAX, 50), 55_250..55_298);
}

#[test]
fn organizer_folder_opening_is_opt_in() {
    let app = MediaSiftApp::initial();
    assert!(!app.open_sort_folder_when_finished);
    assert!(!app.open_prefix_folder_when_finished);
}

#[test]
fn duplicate_scan_starts_idle_without_selected_folders() {
    let app = MediaSiftApp::initial();
    assert_eq!(app.scan_state, ScanState::Idle);
    assert!(app.selected_scan_roots.is_empty());
    assert!(app.scan_cancel_token.is_none());
}

#[test]
fn undoing_a_selection_restores_the_review() {
    let mut review = sample_review();
    review.set_kept("second", &"D/two.mp4".to_owned(), false);
    assert_eq!(review.action_count(), 1);
    review.set_kept("second", &"D/two.mp4".to_owned(), true);
    assert_eq!(review.action_count(), 0);
    assert!(review.every_group_has_keeper());
    assert_eq!(review.selected_paths().unwrap(), Vec::<String>::new());
}

#[test]
fn empty_reviews_have_no_pages() {
    let review = Review::new(DuplicateGroups::new(), Vec::new());
    assert!(review.is_empty());
    assert_eq!(review.page_count(10), 0);
    assert_eq!(review.page_bounds(3, 10), 0..0);
}

#[test]
fn try_new_accepts_countable_groups() {
    let review = Review::try_new(sample_groups(), vec!["/media".to_owned()]).unwrap();
    assert_eq!(review.roots(), &vec!["/media".to_owned()]);
    assert_eq!(review.total_files(), 5);
}

#[test]
fn bulk_choices_count_no_missing_keeper_even_for_an_empty_group() {
    let groups = DuplicateGroups::from_entries(vec![
        ("empty".to_owned(), Vec::new()),
        ("full".to_owned(), vec!["A/one.jpg".to_owned(), "B/one.jpg".to_owned()]),
    ]);
    let mut review = Review::new(groups, Vec::new());
    assert!(review.every_group_has_keeper());
    review.keep_first_in_each_group();
    assert!(review.every_group_has_keeper());
    review.keep_all();
    assert!(review.every_group_has_keeper());
    review.keep_from_root("A", false);
    assert!(!review.every_group_has_keeper());
}

#[test]
fn keep_first_selects_the_tails_in_group_order() {
    let mut review = sample_review();
    review.keep_first_in_each_group();
    assert_eq!(
        review.selected_paths().unwrap(),
        vec!["B/one.jpg".to_owned(), "D/two.mp4".to_owned(), "E/two.mp4".to_owned()]
    );
}

#[test]
fn a_change_named_under_another_group_is_accepted() {
    let mut review = sample_review();
    review.set_kept("first", &"C/two.mp4".to_owned(), false);
    assert!(!review.is_kept("C/two.mp4"));
    assert!(review.every_group_has_keeper());
    review.set_kept("second", &"D/two.mp4".to_owned(), false);
    review.set_kept("second", &"E/two.mp4".to_owned(), false);
    assert!(!review.every_group_has_keeper());
}
