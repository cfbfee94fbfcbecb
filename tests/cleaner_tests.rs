use find_duplicate::cleaner::{collect_patterns, is_ignored, matches_any, path_to_parts, reconstruct_path};

#[test]
fn patterns_follow_enabled_kinds() {
    assert_eq!(collect_patterns(true, true, true), vec!["*.org~", "*.html~", ".DS_Store"]);
    assert_eq!(collect_patterns(false, true, false), vec!["*.html~"]);
    assert!(collect_patterns(false, false, false).is_empty());
}

#[test]
fn ignored_directories() {
    assert!(is_ignored(".git"));
    assert!(is_ignored("node_modules"));
    assert!(is_ignored("target"));
    assert!(is_ignored("dist"));
    assert!(is_ignored("build"));
    assert!(!is_ignored("src"));
    assert!(!is_ignored("targets"));
    assert!(!is_ignored(""));
}

#[test]
fn names_match_wildcard_patterns() {
    let p = collect_patterns(true, true, true);
    assert!(matches_any("notes.org~", &p));
    assert!(matches_any("index.html~", &p));
    assert!(matches_any(".DS_Store", &p));
    assert!(!matches_any("notes.org", &p));
    assert!(!matches_any("x.DS_Store", &p));
    assert!(matches_any("a1", &vec!["a?"]));
    assert!(!matches_any("a", &vec!["a?"]));
    assert!(!matches_any("anything", &Vec::new()));
}

#[test]
fn breadcrumb_parts_rebuild_the_path() {
    let parts: Vec<String> = ["/", "home", "zhaogj", "Download"].iter().map(|s| s.to_string()).collect();
    assert_eq!(reconstruct_path(&parts), "/home/zhaogj/Download");
    let rel: Vec<String> = ["a/", "b", "/c", "d"].iter().map(|s| s.to_string()).collect();
    assert_eq!(reconstruct_path(&rel), "/c/d");
    let joined: Vec<String> = ["a/", "b"].iter().map(|s| s.to_string()).collect();
    assert_eq!(reconstruct_path(&joined), "a/b");
    assert_eq!(reconstruct_path(&Vec::new()), "");
}

#[test]
fn path_to_parts_test() {
    let actual = path_to_parts("/home/zhaogj/Download");
    let expected = vec!["/", "home", "zhaogj", "Download"];
    assert_eq!(actual, expected, "路径拆分结果与预期不符");
}

#[test]
fn path_parts_skip_empty_and_current_segments() {
    assert_eq!(path_to_parts("a/./b//c/"), vec!["a", "b", "c"]);
    assert_eq!(path_to_parts("./x"), vec![".", "x"]);
    assert_eq!(path_to_parts("."), vec!["."]);
    assert_eq!(path_to_parts("/./a/../b"), vec!["/", "a", "..", "b"]);
    assert_eq!(path_to_parts("/"), vec!["/"]);
    assert!(path_to_parts("").is_empty());
}

#[test]
fn parts_of_a_path_rebuild_it() {
    let p = "/home/zhaogj/Download";
    assert_eq!(reconstruct_path(&path_to_parts(p)), p);
}
