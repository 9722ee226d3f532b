//! What the archive needs to know of each selected file, and the size of the
//! finished archive as text.

use crate::text::{chars_of, push_char};
use size::{Size, Style};
use vstd::prelude::*;

verus! {

/// How strongly the archive's entries are compressed, on the scale of the
/// deflate method.
pub const COMPRESSION_LEVEL: i32 = 5;

/// One file of the archive: where its bytes are read from, and the name under
/// which the archive holds them.
#[derive(Debug, PartialEq, Eq)]
pub struct ArchiveEntry {
    pub source: String,
    pub name: String,
}

/// A selected file for which no path relative to the base directory exists.
#[derive(Debug, PartialEq, Eq)]
pub struct NoRelativePath {
    pub path: String,
}

/// The path that leads from the directory `base` to `path`, as the path rules
/// of the platform work it out; `None` where they find none.
pub uninterp spec fn relative_path(path: Seq<char>, base: Seq<char>) -> Option<Seq<char>>;

/// The path that leads from `base` to `path`.
///
/// Trusted: the answer of `pathdiff::diff_paths`, which reads nothing but the
/// text of the two paths, is given the name [`relative_path`]. The answer is
/// put together from components of the two paths and `..`, and so is text like
/// them. Nothing is claimed about when there is one, nor what it is.
#[verifier::external_body]
fn diff_paths(path: &str, base: &str) -> (relative: Option<String>)
    ensures
        relative.deep_view() == relative_path(path@, base@),
{
    let relative = pathdiff::diff_paths(path, base)?;
    relative.into_os_string().into_string().ok()
}

impl DeepView for ArchiveEntry {
    type V = (Seq<char>, Seq<char>);

    open spec fn deep_view(&self) -> (Seq<char>, Seq<char>) {
        (self.source@, self.name@)
    }
}

/// The place of the first file without a name, or the number of files where
/// every file has one.
pub open spec fn first_unnamed(named: Seq<(Seq<char>, Option<Seq<char>>)>) -> int
    decreases named.len(),
{
    if named.len() == 0 {
        0
    } else if named[0].1 is None {
        0
    } else {
        1 + first_unnamed(named.skip(1))
    }
}

/// The first file without a name is the first: every file before it has a
/// name, and it has none unless it is the end of the list.
pub proof fn lemma_first_unnamed(named: Seq<(Seq<char>, Option<Seq<char>>)>)
    ensures
        0 <= first_unnamed(named) <= named.len(),
        forall|j: int| 0 <= j < first_unnamed(named) ==> (#[trigger] named[j]).1 is Some,
        first_unnamed(named) < named.len() ==> named[first_unnamed(named)].1 is None,
    decreases named.len(),
{
    if named.len() > 0 && named[0].1 is Some {
        let later = named.skip(1);
        lemma_first_unnamed(later);
        assert forall|j: int| 0 <= j < first_unnamed(named) implies (#[trigger] named[j]).1
            is Some by {
            if j > 0 {
                assert(named[j] == later[j - 1]);
            }
        }
    }
}

/// Every file of `named` paired with the name found for it.
pub open spec fn with_names(named: Seq<(Seq<char>, Option<Seq<char>>)>) -> Seq<
    (Seq<char>, Seq<char>),
> {
    named.map_values(|pair: (Seq<char>, Option<Seq<char>>)| (pair.0, pair.1.unwrap()))
}

/// The archive entries for files whose names were looked up.
///
/// Every file comes with the name found for it. Where every file has a name,
/// the entries are the files with their names, in order; otherwise the first
/// file without a name is reported.
pub fn entries_from(named: &Vec<(String, Option<String>)>) -> (r: Result<
    Vec<ArchiveEntry>,
    NoRelativePath,
>)
    ensures
        match r {
            Ok(entries) => {
                &&& first_unnamed(named.deep_view()) == named.len()
                &&& entries.deep_view() == with_names(named.deep_view())
            },
            Err(e) => {
                &&& 0 <= first_unnamed(named.deep_view()) < named.len()
                &&& e.path@ == named[first_unnamed(named.deep_view())].0@
            },
        },
{
    let ghost all = named.deep_view();
    let mut entries: Vec<ArchiveEntry> = Vec::new();
    let mut i: usize = 0;
    assert(all.skip(0) =~= all);
    while i < named.len()
        invariant
            i <= named.len(),
            all == named.deep_view(),
            first_unnamed(all) == i + first_unnamed(all.skip(i as int)),
            entries.deep_view() == with_names(all.take(i as int)),
        decreases named.len() - i,
    {
        let ghost rest = all.skip(i as int);
        let ghost before = entries.deep_view();
        assert(rest[0] == all[i as int]);
        assert(rest.skip(1) =~= all.skip(i + 1));
        match &named[i].1 {
            None => {
                return Err(NoRelativePath { path: named[i].0.clone() });
            },
            Some(name) => {
                let entry = ArchiveEntry { source: named[i].0.clone(), name: name.clone() };
                entries.push(entry);
                assert(entries.deep_view() =~= before.push((entry.source@, entry.name@)));
                assert(with_names(all.take(i + 1)) =~= with_names(all.take(i as int)).push(
                    (entry.source@, entry.name@),
                ));
            },
        }
        i = i + 1;
    }
    assert(all.take(named.len() as int) =~= all);
    Ok(entries)
}

/// Every file of `files` with its path relative to `base`, where it has one.
pub open spec fn named_from(files: Seq<Seq<char>>, base: Seq<char>) -> Seq<
    (Seq<char>, Option<Seq<char>>),
> {
    files.map_values(|file: Seq<char>| (file, relative_path(file, base)))
}

/// The archive entries for `files`, each named by its path relative to
/// `base_dir`.
///
/// Where every file has a relative path, the entries are the files with those
/// paths as names, in order. Otherwise the first file that has none is
/// reported.
pub fn archive_entries(base_dir: &str, files: &Vec<String>) -> (r: Result<
    Vec<ArchiveEntry>,
    NoRelativePath,
>)
    ensures
        match r {
            Ok(entries) => {
                &&& first_unnamed(named_from(files.deep_view(), base_dir@)) == files.len()
                &&& entries.deep_view() == with_names(named_from(files.deep_view(), base_dir@))
                &&& entries.len() == files.len()
                &&& forall|i: int|
                    0 <= i < files.len() ==> (#[trigger] entries[i]).source@ == files[i]@
                        && relative_path(files[i]@, base_dir@) == Some(entries[i].name@)
            },
            Err(e) => {
                let at = first_unnamed(named_from(files.deep_view(), base_dir@));
                &&& 0 <= at < files.len()
                &&& e.path@ == files[at]@
                &&& relative_path(files[at]@, base_dir@) is None
                &&& forall|j: int|
                    0 <= j < at ==> relative_path((#[trigger] files[j])@, base_dir@) is Some
            },
        },
{
    let ghost expected = named_from(files.deep_view(), base_dir@);
    let mut named: Vec<(String, Option<String>)> = Vec::new();
    let mut i: usize = 0;
    while i < files.len()
        invariant
            i <= files.len(),
            named.len() == i,
            expected == named_from(files.deep_view(), base_dir@),
            forall|k: int| 0 <= k < i ==> (#[trigger] named.deep_view()[k]) == expected[k],
        decreases files.len() - i,
    {
        let relative = diff_paths(files[i].as_str(), base_dir);
        let ghost before = named.deep_view();
        let ghost pair = (files[i as int]@, relative.deep_view());
        named.push((files[i].clone(), relative));
        assert(named.deep_view() =~= before.push(pair));
        assert(expected[i as int] == pair);
        i = i + 1;
    }
    assert(named.deep_view() =~= expected);
    let r = entries_from(&named);
    proof {
        let at = first_unnamed(expected);
        lemma_first_unnamed(expected);
        if r is Err {
            assert(named.deep_view()[at].0 == named[at].0@);
            assert(expected[at].0 == files[at]@);
            assert forall|j: int| 0 <= j < at implies relative_path(
                (#[trigger] files[j])@,
                base_dir@,
            ) is Some by {
                assert(expected[j].1 is Some);
            }
        } else {
            let entries = r->Ok_0;
            assert(entries.deep_view().len() == expected.len());
            assert forall|i: int| 0 <= i < files.len() implies (#[trigger] entries[i]).source@
                == files[i]@ && relative_path(files[i]@, base_dir@) == Some(entries[i].name@) by {
                assert(entries.deep_view()[i] == with_names(expected)[i]);
                assert(expected[i].1 is Some);
            }
        }
    }
    r
}

/// The text in which the size formatter states `bytes` with abbreviated binary
/// units, such as `1.51 KiB`.
pub uninterp spec fn abbreviated_size(bytes: u64) -> Seq<char>;

/// `bytes` as a size with an abbreviated binary unit.
///
/// Trusted: the text that `size::Size::from_bytes` and the formatter it hands
/// out give for `bytes` in `size::Style::Abbreviated` depends on `bytes` alone
/// and is given the name [`abbreviated_size`]. Nothing is claimed about the
/// digits or the unit in it.
#[verifier::external_body]
fn format_abbreviated(bytes: u64) -> (text: String)
    ensures
        text@ == abbreviated_size(bytes),
{
    Size::from_bytes(bytes).format().with_style(Style::Abbreviated).to_string()
}

/// `text` with every `iB` replaced by `B`, from left to right: the binary unit
/// labels `KiB`, `MiB`, ... become `KB`, `MB`, ...
pub open spec fn with_short_labels(text: Seq<char>) -> Seq<char>
    decreases text.len(),
{
    if text.len() == 0 {
        text
    } else if text.len() >= 2 && text[0] == 'i' && text[1] == 'B' {
        seq!['B'] + with_short_labels(text.skip(2))
    } else {
        seq![text[0]] + with_short_labels(text.skip(1))
    }
}

/// `text` with every `iB` replaced by `B`.
pub fn short_labels(text: &str) -> (short: String)
    ensures
        short@ == with_short_labels(text@),
{
    let chars = chars_of(text);
    let mut short = String::new();
    let mut i: usize = 0;
    assert(chars@.skip(0) =~= chars@);
    assert(short@ + with_short_labels(chars@) =~= with_short_labels(chars@));
    while i < chars.len()
        invariant
            i <= chars.len(),
            chars@ == text@,
            short@ + with_short_labels(chars@.skip(i as int)) == with_short_labels(chars@),
        decreases chars.len() - i,
    {
        let ghost before = short@;
        let ghost rest = chars@.skip(i as int);
        assert(rest[0] == chars[i as int]);
        if chars[i] == 'i' && i + 1 < chars.len() && chars[i + 1] == 'B' {
            assert(rest[1] == chars[i + 1]);
            assert(rest.skip(2) =~= chars@.skip(i + 2));
            push_char(&mut short, 'B');
            assert(before + (seq!['B'] + with_short_labels(rest.skip(2))) =~= before.push('B')
                + with_short_labels(rest.skip(2)));
            i = i + 2;
        } else {
            assert(rest.skip(1) =~= chars@.skip(i + 1));
            push_char(&mut short, chars[i]);
            assert(before + (seq![rest[0]] + with_short_labels(rest.skip(1))) =~= before.push(
                rest[0],
            ) + with_short_labels(rest.skip(1)));
            i = i + 1;
        }
    }
    assert(short@ + Seq::<char>::empty() =~= short@);
    short
}

/// The size `bytes` for display: a number and a unit, such as `1.51 KB`.
pub fn pretty_file_size(bytes: u64) -> (text: String)
    ensures
        text@ == with_short_labels(abbreviated_size(bytes)),
{
    let text = format_abbreviated(bytes);
    short_labels(text.as_str())
}

} // verus!
