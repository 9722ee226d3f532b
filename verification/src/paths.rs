//! Paths as text.
//!
//! A path is a string of components with separators between them. On POSIX
//! systems the separator is `/`; on Windows `\` separates as well, and is the
//! one that is put in. Paths are compared character by character: nothing is
//! resolved on disk, and the rules below are those of normalized paths,
//! without doubled or trailing separators.

use crate::text::chars_of;
use vstd::prelude::*;

verus! {

/// The name of the version-control tool's metadata directory.
pub open spec fn vcs_dir_name() -> Seq<char> {
    seq!['.', 'g', 'i', 't']
}

/// `c` separates the components of a path.
pub open spec fn is_separator(c: char, windows: bool) -> bool {
    c == '/' || (windows && c == '\\')
}

/// The separator that is put between two components.
pub open spec fn main_separator(windows: bool) -> char {
    if windows {
        '\\'
    } else {
        '/'
    }
}

/// `path` begins with a drive: a letter and a colon.
pub open spec fn has_drive(path: Seq<char>) -> bool {
    &&& path.len() >= 2
    &&& ('a' <= path[0] <= 'z' || 'A' <= path[0] <= 'Z')
    &&& path[1] == ':'
}

/// Nothing needs to be put between `base` and a name below it: `base` ends in
/// a separator, or is a bare drive on Windows.
pub open spec fn ends_open(base: Seq<char>, windows: bool) -> bool {
    base.len() > 0 && (is_separator(base.last(), windows) || (windows && base.len() == 2
        && has_drive(base)))
}

/// `a` and `b` stand for the same thing in a path: they are the same
/// character, or both separate components.
pub open spec fn same_in_path(a: char, b: char, windows: bool) -> bool {
    a == b || (is_separator(a, windows) && is_separator(b, windows))
}

/// `path` begins with `dir`, whichever separators the two are written with.
pub open spec fn begins_with(path: Seq<char>, dir: Seq<char>, windows: bool) -> bool {
    &&& dir.len() <= path.len()
    &&& forall|i: int| 0 <= i < dir.len() ==> same_in_path(dir[i], #[trigger] path[i], windows)
}

/// `path` is the directory `dir` or lies below it: `path` begins with `dir`,
/// and `dir` ends where a component of `path` ends.
pub open spec fn is_under(dir: Seq<char>, path: Seq<char>, windows: bool) -> bool {
    &&& begins_with(path, dir, windows)
    &&& (dir.len() == 0 || is_separator(dir.last(), windows) || path.len() == dir.len()
        || is_separator(path[dir.len() as int], windows))
}

/// The metadata directory of the tree rooted at `base`: its name alone where
/// `base` is empty, else `base`, a separator where one is needed, and the
/// name.
pub open spec fn vcs_dir(base: Seq<char>, windows: bool) -> Seq<char> {
    if base.len() == 0 {
        vcs_dir_name()
    } else if ends_open(base, windows) {
        base + vcs_dir_name()
    } else {
        base.push(main_separator(windows)) + vcs_dir_name()
    }
}

/// `path` belongs to the version-control metadata of the tree rooted at
/// `base`, and is therefore never archived.
pub open spec fn excluded_specially(base: Seq<char>, path: Seq<char>, windows: bool) -> bool {
    is_under(vcs_dir(base, windows), path, windows)
}

/// Whether `c` separates the components of a path.
pub fn is_separator_char(c: char, windows: bool) -> (separates: bool)
    ensures
        separates == is_separator(c, windows),
{
    c == '/' || (windows && c == '\\')
}

/// Whether the characters begin with a drive.
fn begins_with_drive(chars: &Vec<char>) -> (drive: bool)
    ensures
        drive == has_drive(chars@),
{
    chars.len() >= 2 && (('a' <= chars[0] && chars[0] <= 'z') || ('A' <= chars[0] && chars[0]
        <= 'Z')) && chars[1] == ':'
}

/// Appends the characters of `name` to `path`.
fn append_chars(path: &mut Vec<char>, name: &Vec<char>)
    ensures
        final(path)@ == old(path)@ + name@,
{
    let mut i: usize = 0;
    while i < name.len()
        invariant
            i <= name.len(),
            path@ == old(path)@ + name@.subrange(0, i as int),
        decreases name.len() - i,
    {
        path.push(name[i]);
        i = i + 1;
    }
    assert(name@.subrange(0, name.len() as int) =~= name@);
}

/// The characters of the metadata directory of the tree rooted at
/// `current_dir`.
///
/// `windows` says whether the paths follow the rules of Windows or those of
/// POSIX systems.
pub fn vcs_dir_of(current_dir: &str, windows: bool) -> (dir: Vec<char>)
    ensures
        dir@ == vcs_dir(current_dir@, windows),
{
    let name = chars_of(".git");
    proof {
        reveal_strlit(".git");
        assert(".git"@ =~= vcs_dir_name());
    }
    let mut dir = chars_of(current_dir);
    if dir.len() == 0 {
        return name;
    }
    let open = is_separator_char(dir[dir.len() - 1], windows) || (windows && dir.len() == 2
        && begins_with_drive(&dir));
    if !open {
        dir.push(if windows {
            '\\'
        } else {
            '/'
        });
    }
    append_chars(&mut dir, &name);
    dir
}

/// Whether `path` is the directory `dir` or lies below it.
pub fn is_under_dir(dir: &Vec<char>, path: &str, windows: bool) -> (under: bool)
    ensures
        under == is_under(dir@, path@, windows),
{
    let chars = chars_of(path);
    if dir.len() > chars.len() {
        return false;
    }
    let mut i: usize = 0;
    while i < dir.len()
        invariant
            i <= dir.len() <= chars.len(),
            chars@ == path@,
            forall|k: int| 0 <= k < i ==> same_in_path(dir[k], #[trigger] chars[k], windows),
        decreases dir.len() - i,
    {
        let same = dir[i] == chars[i] || (is_separator_char(dir[i], windows) && is_separator_char(
            chars[i],
            windows,
        ));
        if !same {
            assert(!same_in_path(dir[i as int], chars[i as int], windows));
            return false;
        }
        i = i + 1;
    }
    dir.len() == 0 || is_separator_char(dir[dir.len() - 1], windows) || chars.len() == dir.len()
        || is_separator_char(chars[dir.len()], windows)
}

/// Whether `file_to_check` belongs to the version-control metadata of the tree
/// rooted at `current_dir`.
///
/// `windows` says whether the paths follow the rules of Windows or those of
/// POSIX systems.
pub fn is_excluded_specially(current_dir: &str, file_to_check: &str, windows: bool) -> (excluded:
    bool)
    ensures
        excluded == excluded_specially(current_dir@, file_to_check@, windows),
{
    let dir = vcs_dir_of(current_dir, windows);
    is_under_dir(&dir, file_to_check, windows)
}

/// On POSIX systems a path begins with a directory exactly if the directory's
/// text is a prefix of the path's.
pub proof fn lemma_begins_with_is_prefix(path: Seq<char>, dir: Seq<char>)
    ensures
        begins_with(path, dir, false) <==> dir.is_prefix_of(path),
{
    if begins_with(path, dir, false) {
        assert(dir =~= path.subrange(0, dir.len() as int));
    }
    if dir.is_prefix_of(path) {
        assert forall|i: int| 0 <= i < dir.len() implies same_in_path(
            dir[i],
            #[trigger] path[i],
            false,
        ) by {
            assert(path.subrange(0, dir.len() as int)[i] == path[i]);
        }
    }
}

/// The metadata directory itself and everything below it is excluded,
/// whichever separator leads below it.
pub proof fn lemma_vcs_tree_is_excluded(
    base: Seq<char>,
    separator: char,
    below: Seq<char>,
    windows: bool,
)
    requires
        is_separator(separator, windows),
    ensures
        excluded_specially(base, vcs_dir(base, windows), windows),
        excluded_specially(base, vcs_dir(base, windows).push(separator) + below, windows),
{
    let dir = vcs_dir(base, windows);
    let path = dir.push(separator) + below;
    assert(dir.len() > 0);
    assert(path[dir.len() as int] == separator);
    assert forall|i: int| 0 <= i < dir.len() implies same_in_path(
        dir[i],
        #[trigger] path[i],
        windows,
    ) by {}
}

/// A path that only begins like the metadata directory, without ending a
/// component there, is not excluded.
pub proof fn lemma_sibling_of_vcs_dir_is_kept(
    base: Seq<char>,
    c: char,
    rest: Seq<char>,
    windows: bool,
)
    requires
        !is_separator(c, windows),
    ensures
        !excluded_specially(base, vcs_dir(base, windows).push(c) + rest, windows),
{
    let dir = vcs_dir(base, windows);
    let path = dir.push(c) + rest;
    assert(path[dir.len() as int] == c);
    assert(dir.last() == 't');
}

} // verus!
