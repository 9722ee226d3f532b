//! What a run works on: the directory to archive and the archive to write.

use crate::pool::MAX_CONCURRENT_THREADS;
use std::path::Path;
use vstd::prelude::*;
use vstd::string::StringExecFns;

verus! {

/// The settings of one run.
#[derive(Debug, PartialEq, Eq)]
pub struct Settings {
    /// The root of the tree to archive.
    pub base_dir: String,
    /// Where the archive is written.
    pub zip_path: String,
    /// The largest number of ignore checks that may run at the same time.
    pub max_workers: usize,
}

/// The settings of one run, as a mathematical value.
pub struct SettingsView {
    pub base_dir: Seq<char>,
    pub zip_path: Seq<char>,
    pub max_workers: usize,
}

impl View for Settings {
    type V = SettingsView;

    open spec fn view(&self) -> SettingsView {
        SettingsView {
            base_dir: self.base_dir@,
            zip_path: self.zip_path@,
            max_workers: self.max_workers,
        }
    }
}

/// Why no settings could be made.
#[derive(Debug, PartialEq, Eq)]
pub enum SettingsError {
    /// No directory was named and the current directory is not known.
    NoBaseDirectory,
    /// No archive name was given and the directory has no name of its own to
    /// make one from.
    NoZipName,
}

/// The first of `args`, or `fallback` where there is none.
pub open spec fn first_or(args: Seq<Seq<char>>, fallback: Option<Seq<char>>) -> Option<Seq<char>> {
    if args.len() > 0 {
        Some(args[0])
    } else {
        fallback
    }
}

/// The name of the archive for a directory called `dir_name`.
pub open spec fn default_zip_name_of(dir_name: Seq<char>) -> Seq<char> {
    dir_name + " (Source Code).zip"@
}

/// The name of the archive: the second of `args`, or the default name for
/// `dir_name` where there is no second argument.
pub open spec fn zip_name_of(args: Seq<Seq<char>>, dir_name: Option<Seq<char>>) -> Option<
    Seq<char>,
> {
    if args.len() > 1 {
        Some(args[1])
    } else {
        match dir_name {
            Some(name) => Some(default_zip_name_of(name)),
            None => None,
        }
    }
}

/// The settings that the arguments `args` ask for, given the name `dir_name`
/// of the directory to archive.
pub open spec fn settings_of(
    args: Seq<Seq<char>>,
    current_dir: Option<Seq<char>>,
    dir_name: Option<Seq<char>>,
) -> Result<SettingsView, SettingsError> {
    match first_or(args, current_dir) {
        None => Err(SettingsError::NoBaseDirectory),
        Some(base_dir) => match zip_name_of(args, dir_name) {
            None => Err(SettingsError::NoZipName),
            Some(zip_name) => Ok(
                SettingsView {
                    base_dir,
                    zip_path: joined_path(base_dir, zip_name),
                    max_workers: MAX_CONCURRENT_THREADS,
                },
            ),
        },
    }
}

/// The path `name` as seen from the directory `base`, as the path rules of the
/// platform join the two.
pub uninterp spec fn joined_path(base: Seq<char>, name: Seq<char>) -> Seq<char>;

/// The path `name` as seen from the directory `base`.
///
/// Trusted: the answer of `std::path::Path::join`, which reads nothing but the
/// text of the two paths, is given the name [`joined_path`]. The answer is put
/// together from pieces of the two paths and separators, and so is text like
/// them. Nothing is claimed about which pieces it holds.
#[verifier::external_body]
fn join_paths(base: &str, name: &str) -> (path: String)
    ensures
        path@ == joined_path(base@, name@),
{
    Path::new(base).join(name).to_string_lossy().into_owned()
}

/// The last component of `path` where that is a name, as the path rules of the
/// platform find it; `None` where they find none.
pub uninterp spec fn file_name(path: Seq<char>) -> Option<Seq<char>>;

/// The name of the directory to archive for the arguments `args`.
pub open spec fn dir_name_of(args: Seq<Seq<char>>, current_dir: Option<Seq<char>>) -> Option<
    Seq<char>,
> {
    match first_or(args, current_dir) {
        Some(dir) => file_name(dir),
        None => None,
    }
}

/// The last component of `path`, where it has one that is a name.
///
/// Trusted: the answer of `std::path::Path::file_name`, which reads nothing
/// but the text of the path, is given the name [`file_name`]. The component is
/// a piece of `path` and so is text like it. Nothing is claimed about which
/// piece it is.
#[verifier::external_body]
fn file_name_of(path: &str) -> (name: Option<String>)
    ensures
        name.deep_view() == file_name(path@),
{
    let name = Path::new(path).file_name()?;
    name.to_str().map(String::from)
}

/// The directory to archive: the first argument, or `current_dir` where no
/// argument is given. `None` where neither is there.
pub fn choose_base_dir(args: &Vec<String>, current_dir: Option<String>) -> (base_dir: Option<
    String,
>)
    ensures
        base_dir.deep_view() == first_or(args.deep_view(), current_dir.deep_view()),
{
    if args.len() > 0 {
        Some(args[0].clone())
    } else {
        current_dir
    }
}

/// The name of the archive for a directory called `dir_name`.
pub fn default_zip_name(dir_name: &str) -> (name: String)
    ensures
        name@ == default_zip_name_of(dir_name@),
{
    let mut name = dir_name.to_owned();
    name.append(" (Source Code).zip");
    name
}

/// The name of the archive: the second argument, or the default name for the
/// directory's own name `dir_name`. `None` where neither is there.
pub fn choose_zip_name(args: &Vec<String>, dir_name: Option<String>) -> (zip_name: Option<String>)
    ensures
        zip_name.deep_view() == zip_name_of(args.deep_view(), dir_name.deep_view()),
{
    if args.len() > 1 {
        Some(args[1].clone())
    } else {
        match dir_name {
            Some(name) => Some(default_zip_name(name.as_str())),
            None => None,
        }
    }
}

/// What came of making the settings, as a mathematical value.
pub open spec fn outcome_view(r: Result<Settings, SettingsError>) -> Result<
    SettingsView,
    SettingsError,
> {
    match r {
        Ok(settings) => Ok(settings@),
        Err(e) => Err(e),
    }
}

/// The settings for the arguments `args`, where the directory to archive is
/// called `dir_name`.
///
/// `args` are the arguments behind the program's name: the directory to
/// archive and the name of the archive, both optional. `current_dir` stands in
/// for a missing directory, the default name made from `dir_name` for a
/// missing archive name. The archive's path is its name as seen from the
/// directory, by the platform's path rules.
pub fn settings_from(
    args: &Vec<String>,
    current_dir: Option<String>,
    dir_name: Option<String>,
) -> (r: Result<Settings, SettingsError>)
    ensures
        outcome_view(r) == settings_of(
            args.deep_view(),
            current_dir.deep_view(),
            dir_name.deep_view(),
        ),
{
    let base_dir = match choose_base_dir(args, current_dir) {
        Some(dir) => dir,
        None => {
            return Err(SettingsError::NoBaseDirectory);
        },
    };
    let zip_name = match choose_zip_name(args, dir_name) {
        Some(name) => name,
        None => {
            return Err(SettingsError::NoZipName);
        },
    };
    let zip_path = join_paths(base_dir.as_str(), zip_name.as_str());
    Ok(Settings { base_dir, zip_path, max_workers: MAX_CONCURRENT_THREADS })
}

/// The settings for the arguments `args` of the program.
///
/// The directory to archive is the first argument, or `current_dir`. The
/// archive is named by the second argument, or after the directory, by the
/// name that the platform's path rules find in it.
pub fn get_settings(args: &Vec<String>, current_dir: Option<String>) -> (r: Result<
    Settings,
    SettingsError,
>)
    ensures
        outcome_view(r) == settings_of(
            args.deep_view(),
            current_dir.deep_view(),
            dir_name_of(args.deep_view(), current_dir.deep_view()),
        ),
{
    let dir_name = match choose_base_dir(args, current_dir.clone()) {
        Some(dir) => file_name_of(dir.as_str()),
        None => None,
    };
    settings_from(args, current_dir, dir_name)
}

} // verus!
