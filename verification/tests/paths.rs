use zip_source::paths::{is_excluded_specially, is_separator_char, is_under_dir, vcs_dir_of};

fn chars(text: &str) -> Vec<char> {
    text.chars().collect()
}

#[test]
fn metadata_directory_of_a_tree() {
    assert_eq!(vcs_dir_of("/repo", false), chars("/repo/.git"));
    assert_eq!(vcs_dir_of("/repo/", false), chars("/repo/.git"));
    assert_eq!(vcs_dir_of("/", false), chars("/.git"));
    assert_eq!(vcs_dir_of(".", false), chars("./.git"));
    assert_eq!(vcs_dir_of("", false), chars(".git"));
}

#[test]
fn metadata_directory_of_a_tree_on_windows() {
    assert_eq!(vcs_dir_of("C:\\repo", true), chars("C:\\repo\\.git"));
    assert_eq!(vcs_dir_of("C:\\repo\\", true), chars("C:\\repo\\.git"));
    assert_eq!(vcs_dir_of("C:/repo/", true), chars("C:/repo/.git"));
    assert_eq!(vcs_dir_of("C:/repo", true), chars("C:/repo\\.git"));
    assert_eq!(vcs_dir_of("C:", true), chars("C:.git"));
    assert_eq!(vcs_dir_of("", true), chars(".git"));
}

#[test]
fn backslash_is_an_ordinary_character_on_posix() {
    assert_eq!(vcs_dir_of("/repo\\", false), chars("/repo\\/.git"));
    assert_eq!(vcs_dir_of("C:", false), chars("C:/.git"));
    assert!(!is_excluded_specially("/repo", "/repo/.git\\config", false));
    assert!(!is_under_dir(&chars("/a/b"), "/a\\b/c", false));
}

#[test]
fn paths_below_the_metadata_directory_are_excluded() {
    assert!(is_excluded_specially("/repo", "/repo/.git", false));
    assert!(is_excluded_specially("/repo", "/repo/.git/config", false));
    assert!(is_excluded_specially("/repo", "/repo/.git/objects/ab/cdef", false));
    assert!(is_excluded_specially("/repo/", "/repo/.git/HEAD", false));
    assert!(is_excluded_specially(".", "./.git/HEAD", false));
}

#[test]
fn names_that_only_begin_like_the_metadata_directory_are_kept() {
    assert!(!is_excluded_specially("/repo", "/repo/.gitignore", false));
    assert!(!is_excluded_specially("/repo", "/repo/.github/workflows/ci.yml", false));
    assert!(!is_excluded_specially("/repo", "/repo/.gi", false));
}

#[test]
fn a_metadata_directory_elsewhere_in_the_tree_is_kept() {
    assert!(!is_excluded_specially("/repo", "/repo/vendor/.git/config", false));
    assert!(!is_excluded_specially("/repo", "/other/.git/config", false));
    assert!(!is_excluded_specially("/repo", "/repo/src/main.rs", false));
}

#[test]
fn containment_ends_at_a_component() {
    assert!(is_under_dir(&chars("/a/b"), "/a/b", false));
    assert!(is_under_dir(&chars("/a/b"), "/a/b/c", false));
    assert!(!is_under_dir(&chars("/a/b"), "/a/bc", false));
    assert!(!is_under_dir(&chars("/a/b"), "/a", false));
    assert!(is_under_dir(&chars("/"), "/a", false));
    assert!(is_under_dir(&chars(""), "a", false));
}

#[test]
fn metadata_is_excluded_on_windows() {
    assert!(is_excluded_specially("C:\\repo", "C:\\repo\\.git", true));
    assert!(is_excluded_specially("C:\\repo", "C:\\repo\\.git\\config", true));
    assert!(is_excluded_specially("C:\\repo", "C:\\repo\\.git/config", true));
    assert!(is_excluded_specially("C:/repo", "C:\\repo\\.git\\HEAD", true));
    assert!(is_excluded_specially("C:\\repo", "C:/repo/.git/HEAD", true));
    assert!(!is_excluded_specially("C:\\repo", "C:\\repo\\.gitignore", true));
    assert!(!is_excluded_specially("C:\\repo", "C:\\repo\\src\\.git\\x", true));
    assert!(!is_excluded_specially("C:\\repo", "D:\\repo\\.git\\x", true));
}

#[test]
fn separators_of_each_platform() {
    assert!(is_separator_char('/', false));
    assert!(!is_separator_char('\\', false));
    assert!(is_separator_char('/', true));
    assert!(is_separator_char('\\', true));
    assert!(!is_separator_char(':', true));
}
