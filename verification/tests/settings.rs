use zip_source::settings::{
    choose_base_dir, choose_zip_name, default_zip_name, get_settings, settings_from, Settings,
    SettingsError,
};

fn strings(items: &[&str]) -> Vec<String> {
    items.iter().map(|s| s.to_string()).collect()
}

fn settings(base_dir: &str, zip_path: &str) -> Settings {
    Settings { base_dir: base_dir.to_string(), zip_path: zip_path.to_string(), max_workers: 9 }
}

#[test]
fn base_directory_is_the_first_argument() {
    assert_eq!(
        choose_base_dir(&strings(&["/repo", "out.zip"]), Some(String::from("/cwd"))),
        Some(String::from("/repo"))
    );
    assert_eq!(choose_base_dir(&strings(&["/repo"]), None), Some(String::from("/repo")));
}

#[test]
fn base_directory_falls_back_to_the_current_directory() {
    assert_eq!(
        choose_base_dir(&Vec::new(), Some(String::from("/cwd"))),
        Some(String::from("/cwd"))
    );
    assert_eq!(choose_base_dir(&Vec::new(), None), None);
}

#[test]
fn default_archive_name_is_made_from_the_directory_name() {
    assert_eq!(default_zip_name("project"), "project (Source Code).zip");
    assert_eq!(default_zip_name(""), " (Source Code).zip");
}

#[test]
fn archive_name_is_the_second_argument() {
    assert_eq!(
        choose_zip_name(&strings(&["/repo", "out.zip"]), Some(String::from("repo"))),
        Some(String::from("out.zip"))
    );
    assert_eq!(
        choose_zip_name(&strings(&["/repo", "out.zip"]), None),
        Some(String::from("out.zip"))
    );
}

#[test]
fn archive_name_falls_back_to_the_default() {
    assert_eq!(
        choose_zip_name(&strings(&["/repo"]), Some(String::from("repo"))),
        Some(String::from("repo (Source Code).zip"))
    );
    assert_eq!(choose_zip_name(&strings(&["/repo"]), None), None);
    assert_eq!(choose_zip_name(&Vec::new(), None), None);
}

#[test]
fn settings_for_a_known_directory_name() {
    assert_eq!(
        settings_from(&strings(&["/repo"]), None, Some(String::from("repo"))),
        Ok(settings("/repo", "/repo/repo (Source Code).zip"))
    );
    assert_eq!(
        settings_from(&Vec::new(), Some(String::from("/cwd/x")), Some(String::from("x"))),
        Ok(settings("/cwd/x", "/cwd/x/x (Source Code).zip"))
    );
    assert_eq!(
        settings_from(&strings(&["/repo", "/tmp/out.zip"]), None, None),
        Ok(settings("/repo", "/tmp/out.zip"))
    );
}

#[test]
fn settings_without_a_directory_or_a_name() {
    assert_eq!(settings_from(&Vec::new(), None, None), Err(SettingsError::NoBaseDirectory));
    assert_eq!(
        settings_from(&Vec::new(), None, Some(String::from("x"))),
        Err(SettingsError::NoBaseDirectory)
    );
    assert_eq!(
        settings_from(&strings(&["/repo"]), None, None),
        Err(SettingsError::NoZipName)
    );
}

#[test]
fn archive_is_written_into_the_base_directory() {
    assert_eq!(
        get_settings(&strings(&["/repo", "out.zip"]), Some(String::from("/cwd"))),
        Ok(settings("/repo", "/repo/out.zip"))
    );
    assert_eq!(
        get_settings(&strings(&["/repo", "/tmp/out.zip"]), None),
        Ok(settings("/repo", "/tmp/out.zip"))
    );
}

#[test]
fn archive_is_named_after_the_directory() {
    assert_eq!(
        get_settings(&strings(&["/home/me/project"]), None),
        Ok(settings("/home/me/project", "/home/me/project/project (Source Code).zip"))
    );
    assert_eq!(
        get_settings(&Vec::new(), Some(String::from("/home/me/other"))),
        Ok(settings("/home/me/other", "/home/me/other/other (Source Code).zip"))
    );
}

#[test]
fn settings_fail_without_a_directory() {
    assert_eq!(get_settings(&Vec::new(), None), Err(SettingsError::NoBaseDirectory));
}

#[test]
fn settings_fail_for_a_directory_without_a_name() {
    assert_eq!(get_settings(&strings(&["/"]), None), Err(SettingsError::NoZipName));
    assert_eq!(get_settings(&strings(&["/repo/.."]), None), Err(SettingsError::NoZipName));
    assert_eq!(
        get_settings(&strings(&["/", "out.zip"]), None),
        Ok(settings("/", "/out.zip"))
    );
}

#[test]
fn archive_name_is_joined_by_the_rules_for_paths() {
    assert_eq!(
        get_settings(&strings(&["/repo/", "out.zip"]), None),
        Ok(settings("/repo/", "/repo/out.zip"))
    );
    assert_eq!(
        get_settings(&strings(&["rel/dir", "sub/out.zip"]), None),
        Ok(settings("rel/dir", "rel/dir/sub/out.zip"))
    );
    assert_eq!(
        settings_from(&strings(&["", "out.zip"]), None, None),
        Ok(settings("", "out.zip"))
    );
}
