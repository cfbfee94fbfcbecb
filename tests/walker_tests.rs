use find_duplicate::walker::{is_skipped_path, QUEUE_CAPACITY};

#[test]
fn hidden_and_lock_files_under_root_are_skipped() {
    assert!(is_skipped_path("/data/root/.hidden"));
    assert!(is_skipped_path("/data/root/#lockfile"));
    assert!(!is_skipped_path("/data/root/a.txt"));
    assert!(!is_skipped_path("/data/root"));
}

#[test]
fn files_in_hidden_directory_are_skipped() {
    assert!(is_skipped_path("/data/root/.git/config"));
    assert!(is_skipped_path("/data/#tmp/sub/file"));
}

#[test]
fn markers_inside_a_name_do_not_skip() {
    assert!(!is_skipped_path("/data/a.b/c#d"));
    assert!(!is_skipped_path(""));
    assert!(!is_skipped_path("/"));
    assert!(is_skipped_path("/."));
}

#[test]
fn queue_holds_one_hundred_files() {
    assert_eq!(QUEUE_CAPACITY, 100);
}
