use media_sift::groups::DuplicateGroups;
use media_sift::keepset::KeepSetReview;

fn sample_review() -> KeepSetReview {
    KeepSetReview::new(DuplicateGroups::from_entries(vec![
        (
            "first".to_owned(),
            vec!["A/one.jpg".to_owned(), "B/one.jpg".to_owned()],
        ),
        (
            "second".to_owned(),
            vec![
                "C/two.mp4".to_owned(),
                "D/two.mp4".to_owned(),
                "E/two.mp4".to_owned(),
            ],
        ),
    ]))
}

#[test]
fn main_review_metrics_distinguish_files_from_extra_copies() {
    let review = sample_review();
    assert_eq!(review.group_count(), 2);
    assert_eq!(review.total_files(), 5);
    assert_eq!(review.extra_copies(), 3);
}

#[test]
fn main_keep_first_selects_every_extra_copy_for_action() {
    let mut review = sample_review();
    review.keep_first_in_each_group();
    assert!(review.every_group_has_keeper());
    assert_eq!(review.kept_count(), 2);
    assert_eq!(review.action_count(), 3);
}

#[test]
fn main_keep_all_is_the_safe_default() {
    let mut review = sample_review();
    review.keep_all();
    assert!(review.every_group_has_keeper());
    assert_eq!(review.action_count(), 0);
}

#[test]
fn nothing_kept_leaves_every_group_without_keeper() {
    let review = sample_review();
    assert!(!review.every_group_has_keeper());
    assert_eq!(review.kept_count(), 0);
    assert_eq!(review.action_count(), 5);
}
