use zip_source::aggregate::{filter_valid_files, merge_ignored};

fn strings(items: &[&str]) -> Vec<String> {
    items.iter().map(|s| s.to_string()).collect()
}

fn tree() -> Vec<String> {
    strings(&[
        "/repo/src/main.rs",
        "/repo/target/debug/app",
        "/repo/.git/config",
        "/repo/.gitignore",
        "/repo/notes.log",
        "/repo/README.md",
    ])
}

#[test]
fn ignored_and_metadata_paths_are_left_out() {
    let ignored = vec![strings(&["/repo/target/debug/app"]), strings(&["/repo/notes.log"])];
    assert_eq!(
        filter_valid_files("/repo", &tree(), &ignored, false),
        strings(&["/repo/src/main.rs", "/repo/.gitignore", "/repo/README.md"])
    );
}

#[test]
fn nothing_ignored_keeps_every_file() {
    let all = strings(&["/repo/src/main.rs", "/repo/.gitignore", "/repo/README.md"]);
    assert_eq!(filter_valid_files("/repo", &all, &Vec::new(), false), all);
    assert_eq!(filter_valid_files("/repo", &all, &vec![Vec::new(), Vec::new()], false), all);
}

#[test]
fn metadata_is_excluded_without_being_reported() {
    let all = strings(&["/repo/.git/HEAD", "/repo/.git/objects/00/ff", "/repo/a.rs"]);
    assert_eq!(filter_valid_files("/repo", &all, &Vec::new(), false), strings(&["/repo/a.rs"]));
}

#[test]
fn a_path_reported_twice_is_ignored_once() {
    let all = strings(&["/repo/a.rs", "/repo/b.rs"]);
    let ignored = vec![strings(&["/repo/a.rs"]), strings(&["/repo/a.rs", "/repo/a.rs"])];
    assert_eq!(filter_valid_files("/repo", &all, &ignored, false), strings(&["/repo/b.rs"]));
}

#[test]
fn reported_paths_outside_the_list_change_nothing() {
    let all = strings(&["/repo/a.rs"]);
    let ignored = vec![strings(&["/elsewhere/a.rs", "a.rs"])];
    assert_eq!(filter_valid_files("/repo", &all, &ignored, false), all);
}

#[test]
fn arrival_order_of_the_answers_does_not_matter() {
    let answers = vec![
        strings(&["/repo/target/debug/app"]),
        strings(&[]),
        strings(&["/repo/notes.log", "/repo/README.md"]),
        strings(&["/repo/unknown"]),
    ];
    let expected = strings(&["/repo/src/main.rs", "/repo/.gitignore"]);
    let orders: [[usize; 4]; 6] =
        [[0, 1, 2, 3], [3, 2, 1, 0], [1, 0, 3, 2], [2, 3, 0, 1], [1, 2, 3, 0], [3, 0, 2, 1]];
    for order in orders {
        let shuffled: Vec<Vec<String>> = order.iter().map(|&k| answers[k].clone()).collect();
        let valid = filter_valid_files("/repo", &tree(), &shuffled, false);
        assert_eq!(valid, expected, "order {:?}", order);
    }
}

#[test]
fn empty_file_list_gives_an_empty_selection() {
    assert_eq!(
        filter_valid_files("/repo", &Vec::new(), &vec![strings(&["/repo/a.rs"])], false),
        Vec::<String>::new()
    );
}

#[test]
fn union_of_the_answers() {
    let answers =
        vec![strings(&["/repo/a", "/repo/b"]), strings(&[]), strings(&["/repo/b", "/repo/c"])];
    let ignored = merge_ignored(&answers);
    assert_eq!(ignored.len(), 3);
    assert!(ignored.contains("/repo/a"));
    assert!(ignored.contains("/repo/b"));
    assert!(ignored.contains("/repo/c"));
    assert!(!ignored.contains("/repo/d"));
    assert!(merge_ignored(&Vec::new()).is_empty());
}

#[test]
fn metadata_is_excluded_on_windows_too() {
    let all =
        strings(&["C:\\repo\\.git\\HEAD", "C:\\repo\\a.rs", "C:\\repo\\.gitignore"]);
    let ignored = vec![strings(&["C:\\repo\\a.rs"])];
    assert_eq!(
        filter_valid_files("C:\\repo", &all, &ignored, true),
        strings(&["C:\\repo\\.gitignore"])
    );
    assert_eq!(filter_valid_files("C:\\repo", &all, &ignored, false).len(), 2);
}
