use zip_source::archive::{
    archive_entries, entries_from, pretty_file_size, short_labels, ArchiveEntry, NoRelativePath,
};

fn strings(items: &[&str]) -> Vec<String> {
    items.iter().map(|s| s.to_string()).collect()
}

fn entry(source: &str, name: &str) -> ArchiveEntry {
    ArchiveEntry { source: source.to_string(), name: name.to_string() }
}

#[test]
fn entries_are_named_relative_to_the_base_directory() {
    let files = strings(&["/foo/bar/baz", "/foo/bar/src/main.rs"]);
    assert_eq!(
        archive_entries("/foo/bar", &files),
        Ok(vec![entry("/foo/bar/baz", "baz"), entry("/foo/bar/src/main.rs", "src/main.rs")])
    );
}

#[test]
fn a_file_outside_the_base_directory_is_named_through_its_parent() {
    assert_eq!(
        archive_entries("/foo/bar/baz", &strings(&["/foo/bar/quux"])),
        Ok(vec![entry("/foo/bar/quux", "../quux")])
    );
}

#[test]
fn a_file_without_a_relative_path_is_reported() {
    let files = strings(&["/foo/ok", "relative/file", "other/file"]);
    assert_eq!(
        archive_entries("/foo", &files),
        Err(NoRelativePath { path: String::from("relative/file") })
    );
}

#[test]
fn no_files_give_no_entries() {
    assert_eq!(archive_entries("/foo", &Vec::new()), Ok(Vec::new()));
}

#[test]
fn entries_pair_each_file_with_its_name() {
    let named = vec![
        (String::from("/r/a"), Some(String::from("a"))),
        (String::from("/r/d/b"), Some(String::from("d/b"))),
    ];
    assert_eq!(entries_from(&named), Ok(vec![entry("/r/a", "a"), entry("/r/d/b", "d/b")]));
    assert_eq!(entries_from(&Vec::new()), Ok(Vec::new()));
}

#[test]
fn the_first_file_without_a_name_is_reported() {
    let named = vec![
        (String::from("/r/a"), Some(String::from("a"))),
        (String::from("x"), None),
        (String::from("y"), None),
    ];
    assert_eq!(entries_from(&named), Err(NoRelativePath { path: String::from("x") }));
}

#[test]
fn binary_unit_labels_are_shortened() {
    assert_eq!(short_labels("1.51 KiB"), "1.51 KB");
    assert_eq!(short_labels("12 B"), "12 B");
    assert_eq!(short_labels("iBiB iiB iB"), "BB iB B");
    assert_eq!(short_labels(""), "");
    assert_eq!(short_labels("i"), "i");
}

#[test]
fn sizes_are_shown_with_short_units() {
    assert_eq!(pretty_file_size(0), "0 B");
    assert_eq!(pretty_file_size(512), "512 B");
    assert_eq!(pretty_file_size(1550), "1.51 KB");
    assert_eq!(pretty_file_size(5 * 1024 * 1024), "5.00 MB");
    assert_eq!(pretty_file_size(3 * 1024 * 1024 * 1024), "3.00 GB");
}
