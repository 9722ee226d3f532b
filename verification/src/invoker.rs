//! The ignore check for one batch: the command line that asks the
//! version-control tool, and the reading of what it prints.

use crate::chars::{decode, unescape, DecodeFailure, UnescapeError};
use crate::text::{chars_of, lemma_position_of, position_of, string_of, trimmed, trimmed_range};
use vstd::prelude::*;

verus! {

/// A process to start: the program, its arguments in order, and the directory
/// it runs in.
#[derive(Debug, PartialEq, Eq)]
pub struct CommandLine {
    pub program: String,
    pub args: Vec<String>,
    pub current_dir: String,
}

/// The command interpreter that starts the tool.
pub open spec fn shell_program(windows: bool) -> Seq<char> {
    if windows {
        "cmd"@
    } else {
        "sh"@
    }
}

/// The flag that makes the command interpreter run what follows it.
pub open spec fn shell_flag(windows: bool) -> Seq<char> {
    if windows {
        "/C"@
    } else {
        "-c"@
    }
}

/// The script that a POSIX shell runs: the tool with its subcommand, applied
/// to every argument that follows the script's own name.
pub open spec fn posix_script() -> Seq<char> {
    "git check-ignore \"$@\""@
}

/// The arguments of the ignore check for `files`.
///
/// The Windows command interpreter runs the arguments behind its flag as one
/// command, so the tool, its subcommand and the paths follow the flag. A POSIX
/// shell runs only the first argument behind its flag, as a script, and hands
/// the rest to it: the script, then the name it runs under, then the paths.
pub open spec fn check_ignore_args(windows: bool, files: Seq<Seq<char>>) -> Seq<Seq<char>> {
    if windows {
        seq![shell_flag(windows), "git"@, "check-ignore"@] + files
    } else {
        seq![shell_flag(windows), posix_script(), "git"@] + files
    }
}

/// The command that asks the version-control tool which of `files` it ignores.
///
/// The tool runs once, in `current_dir`, on all of `files`. `windows` says
/// whether the command is for the Windows command interpreter or for a POSIX
/// shell.
pub fn build_check_ignore_command(
    current_dir: &str,
    files: &Vec<String>,
    windows: bool,
) -> (command: CommandLine)
    ensures
        command.program@ == shell_program(windows),
        command.args.deep_view() == check_ignore_args(windows, files.deep_view()),
        command.current_dir@ == current_dir@,
{
    let program = if windows {
        "cmd"
    } else {
        "sh"
    };
    let mut args: Vec<String> = Vec::new();
    if windows {
        args.push("/C".to_owned());
        args.push("git".to_owned());
        args.push("check-ignore".to_owned());
    } else {
        args.push("-c".to_owned());
        args.push("git check-ignore \"$@\"".to_owned());
        args.push("git".to_owned());
    }
    let ghost head = args.deep_view();
    assert(head + files.deep_view() =~= check_ignore_args(windows, files.deep_view()));
    let mut i: usize = 0;
    while i < files.len()
        invariant
            i <= files.len(),
            args.deep_view() == head + files.deep_view().subrange(0, i as int),
        decreases files.len() - i,
    {
        let ghost before = args.deep_view();
        args.push(files[i].clone());
        assert(args.deep_view() =~= before.push(files[i as int]@));
        assert(files.deep_view().subrange(0, i + 1) =~= files.deep_view().subrange(
            0,
            i as int,
        ).push(files[i as int]@));
        i = i + 1;
    }
    assert(files.deep_view().subrange(0, files.len() as int) =~= files.deep_view());
    CommandLine { program: program.to_owned(), args, current_dir: current_dir.to_owned() }
}

/// The lines of `s` from `from` on: the pieces between line feeds. Text that
/// ends in a line feed has an empty last line, and empty text is one empty
/// line.
pub open spec fn lines_from(s: Seq<char>, from: int) -> Seq<Seq<char>>
    decreases s.len() - from,
{
    let end = position_of(s, '\n', from);
    if from < 0 || end >= s.len() {
        seq![s.subrange(from, s.len() as int)]
    } else {
        proof {
            lemma_position_of(s, '\n', from);
        }
        seq![s.subrange(from, end)] + lines_from(s, end + 1)
    }
}

/// The lines of `s`.
pub open spec fn split_lines(s: Seq<char>) -> Seq<Seq<char>> {
    lines_from(s, 0)
}

/// The place of the first line that does not decode, or the number of lines
/// where every line decodes.
pub open spec fn first_bad_line(lines: Seq<Seq<char>>) -> int
    decreases lines.len(),
{
    if lines.len() == 0 || decode(lines[0]) is Err {
        0
    } else {
        1 + first_bad_line(lines.skip(1))
    }
}

/// What a line that decodes stands for.
pub open spec fn decoded_text(line: Seq<char>) -> Seq<char> {
    decode(line)->Ok_0
}

/// `text` can be a path: it is not empty.
pub open spec fn is_path(text: Seq<char>) -> bool {
    text.len() > 0
}

/// The paths that lines which all decode report: every line decoded, in
/// order, without those that stand for no path. An empty line is one of those.
pub open spec fn paths_in(lines: Seq<Seq<char>>) -> Seq<Seq<char>> {
    lines.map_values(|line: Seq<char>| decoded_text(line)).filter(
        |text: Seq<char>| is_path(text),
    )
}

/// The paths that the lines report, or the failure of the first line that
/// does not decode.
pub open spec fn decode_lines(lines: Seq<Seq<char>>) -> Result<Seq<Seq<char>>, DecodeFailure> {
    let bad = first_bad_line(lines);
    if 0 <= bad < lines.len() {
        Err(decode(lines[bad])->Err_0)
    } else {
        Ok(paths_in(lines))
    }
}

/// The paths that the tool's output `output` reports as ignored: the output
/// without the white space around it, cut into lines, each line decoded.
/// Output that holds nothing but white space reports no path.
pub open spec fn ignored_paths(output: Seq<char>) -> Result<Seq<Seq<char>>, DecodeFailure> {
    decode_lines(split_lines(trimmed(output)))
}

/// The first line that does not decode is the first: every line before it
/// decodes, and it does not unless it is the end of the lines.
pub proof fn lemma_first_bad_line(lines: Seq<Seq<char>>)
    ensures
        0 <= first_bad_line(lines) <= lines.len(),
        forall|j: int| 0 <= j < first_bad_line(lines) ==> (#[trigger] decode(lines[j])) is Ok,
        first_bad_line(lines) < lines.len() ==> decode(lines[first_bad_line(lines)]) is Err,
    decreases lines.len(),
{
    if lines.len() > 0 && decode(lines[0]) is Ok {
        let later = lines.skip(1);
        lemma_first_bad_line(later);
        assert forall|j: int| 0 <= j < first_bad_line(lines) implies (#[trigger] decode(
            lines[j],
        )) is Ok by {
            if j > 0 {
                assert(lines[j] == later[j - 1]);
            }
        }
        if first_bad_line(later) < later.len() {
            assert(lines[first_bad_line(lines)] == later[first_bad_line(later)]);
        }
    }
}

/// A line that does not decode, behind lines that all do, is the first bad
/// line; where all lines decode there is none.
pub proof fn lemma_first_bad_line_is(lines: Seq<Seq<char>>, k: int)
    requires
        0 <= k <= lines.len(),
        forall|j: int| 0 <= j < k ==> (#[trigger] decode(lines[j])) is Ok,
        k < lines.len() ==> decode(lines[k]) is Err,
    ensures
        first_bad_line(lines) == k,
{
    lemma_first_bad_line(lines);
    let bad = first_bad_line(lines);
    if bad < k {
        assert(decode(lines[bad]) is Ok);
    } else if bad > k {
        assert(decode(lines[k]) is Ok);
    }
}

/// One line more adds its path to the paths, if it stands for one.
pub proof fn lemma_paths_of_one_line_more(lines: Seq<Seq<char>>, k: int)
    requires
        0 <= k < lines.len(),
    ensures
        paths_in(lines.take(k + 1)) == if is_path(decoded_text(lines[k])) {
            paths_in(lines.take(k)).push(decoded_text(lines[k]))
        } else {
            paths_in(lines.take(k))
        },
{
    let texts = lines.take(k).map_values(|line: Seq<char>| decoded_text(line));
    let more = lines.take(k + 1).map_values(|line: Seq<char>| decoded_text(line));
    assert(more =~= texts.push(decoded_text(lines[k])));
    texts.lemma_filter_push(decoded_text(lines[k]), |text: Seq<char>| is_path(text));
}

/// No reported path is empty, and every reported path is what some line
/// stands for.
pub proof fn lemma_paths_come_from_lines(lines: Seq<Seq<char>>)
    ensures
        forall|k: int|
            0 <= k < paths_in(lines).len() ==> (#[trigger] paths_in(lines)[k]).len() > 0,
        forall|path: Seq<char>|
            paths_in(lines).contains(path) <==> is_path(path) && exists|j: int|
                0 <= j < lines.len() && path == decoded_text(#[trigger] lines[j]),
        paths_in(lines).len() <= lines.len(),
{
    let texts = lines.map_values(|line: Seq<char>| decoded_text(line));
    let keep = |text: Seq<char>| is_path(text);
    let paths = texts.filter(keep);
    texts.lemma_filter_len(keep);
    assert forall|k: int| 0 <= k < paths.len() implies (#[trigger] paths[k]).len() > 0 by {
        texts.lemma_filter_pred(keep, k);
    }
    assert forall|path: Seq<char>|
        paths.contains(path) <==> is_path(path) && exists|j: int|
            0 <= j < lines.len() && path == decoded_text(#[trigger] lines[j]) by {
        if paths.contains(path) {
            let k = choose|k: int| 0 <= k < paths.len() && paths[k] == path;
            texts.lemma_filter_pred(keep, k);
            texts.lemma_filter_contains_rev(keep, path);
            let j = choose|j: int| 0 <= j < texts.len() && texts[j] == path;
            assert(path == decoded_text(lines[j]));
        }
        if is_path(path) && exists|j: int|
            0 <= j < lines.len() && path == decoded_text(#[trigger] lines[j]) {
            let j = choose|j: int|
                0 <= j < lines.len() && path == decoded_text(#[trigger] lines[j]);
            assert(texts[j] == path);
            texts.lemma_filter_contains(keep, j);
        }
    }
}

/// The lines of `chars[start..end]`.
fn lines_of(chars: &Vec<char>, start: usize, end: usize) -> (lines: Vec<String>)
    requires
        start <= end <= chars.len(),
    ensures
        lines.deep_view() == split_lines(chars@.subrange(start as int, end as int)),
{
    let ghost body = chars@.subrange(start as int, end as int);
    let mut lines: Vec<String> = Vec::new();
    let mut from: usize = start;
    assert(lines.deep_view() =~= Seq::<Seq<char>>::empty());
    loop
        invariant_except_break
            split_lines(body) == lines.deep_view() + lines_from(body, from - start),
        invariant
            start <= from <= end <= chars.len(),
            body == chars@.subrange(start as int, end as int),
        ensures
            lines.deep_view() == split_lines(body),
        decreases end - from,
    {
        let mut stop: usize = from;
        while stop < end && chars[stop] != '\n'
            invariant
                start <= from <= stop <= end <= chars.len(),
                body == chars@.subrange(start as int, end as int),
                position_of(body, '\n', stop - start) == position_of(body, '\n', from - start),
            decreases end - stop,
        {
            stop = stop + 1;
        }
        let line = string_of(chars, from, stop);
        let ghost before = lines.deep_view();
        let ghost rest = lines_from(body, from - start);
        assert(line@ =~= body.subrange(from - start, stop - start));
        lines.push(line);
        assert(lines.deep_view() =~= before.push(line@));
        if stop >= end {
            assert(rest =~= seq![line@]);
            assert(before + rest =~= before.push(line@));
            break ;
        }
        proof {
            let tail = lines_from(body, stop + 1 - start);
            assert(rest == seq![line@] + tail);
            assert(before + (seq![line@] + tail) =~= before.push(line@) + tail);
        }
        from = stop + 1;
    }
    lines
}

/// The paths that a listing reports, one line for each path.
///
/// Every line is a path, quoted and escaped as [`unescape`] reads it. A line
/// that stands for no path, such as an empty line, reports none, so an empty
/// listing reports no path at all. A line that does not decode fails the whole
/// listing, with the error of the first such line.
pub fn parse_lines(listing: &str) -> (r: Result<Vec<String>, UnescapeError>)
    ensures
        match r {
            Ok(paths) => decode_lines(split_lines(listing@)) == Ok::<
                Seq<Seq<char>>,
                DecodeFailure,
            >(paths.deep_view()),
            Err(e) => decode_lines(split_lines(listing@)) == Err::<Seq<Seq<char>>, DecodeFailure>(
                e@,
            ),
        },
        listing@.len() == 0 ==> r is Ok && r->Ok_0.len() == 0,
        r matches Ok(paths) ==> forall|k: int|
            0 <= k < paths.len() ==> (#[trigger] paths[k])@.len() > 0,
{
    let chars = chars_of(listing);
    let lines = lines_of(&chars, 0, chars.len());
    assert(chars@.subrange(0, chars.len() as int) =~= listing@);
    let ghost all = lines.deep_view();
    let mut paths: Vec<String> = Vec::new();
    let mut k: usize = 0;
    assert(paths.deep_view() =~= paths_in(all.take(0))) by {
        lemma_paths_come_from_lines(all.take(0));
    }
    while k < lines.len()
        invariant
            k <= lines.len(),
            all == lines.deep_view(),
            all == split_lines(listing@),
            forall|j: int| 0 <= j < k ==> (#[trigger] decode(all[j])) is Ok,
            paths.deep_view() == paths_in(all.take(k as int)),
        decreases lines.len() - k,
    {
        let ghost before = paths.deep_view();
        proof {
            lemma_paths_of_one_line_more(all, k as int);
        }
        match unescape(lines[k].as_str()) {
            Err(e) => {
                proof {
                    lemma_first_bad_line_is(all, k as int);
                    lemma_empty_listing_reports_nothing(listing@);
                }
                return Err(e);
            },
            Ok(path) => {
                if !path.as_str().is_empty() {
                    paths.push(path);
                    assert(paths.deep_view() =~= before.push(path@));
                }
            },
        }
        k = k + 1;
    }
    proof {
        assert(all.take(lines.len() as int) =~= all);
        lemma_first_bad_line_is(all, lines.len() as int);
        lemma_paths_come_from_lines(all);
        lemma_empty_listing_reports_nothing(listing@);
        assert forall|j: int| 0 <= j < paths.len() implies (#[trigger] paths[j])@.len() > 0 by {
            assert(paths.deep_view()[j] == paths[j]@);
        }
    }
    Ok(paths)
}

/// An empty listing reports no path.
pub proof fn lemma_empty_listing_reports_nothing(listing: Seq<char>)
    ensures
        listing.len() == 0 ==> decode_lines(split_lines(listing)) == Ok::<
            Seq<Seq<char>>,
            DecodeFailure,
        >(Seq::empty()),
{
    if listing.len() == 0 {
        let lines = split_lines(listing);
        assert(listing.subrange(0, 0) =~= listing);
        assert(lines =~= seq![listing]);
        assert(decode(listing) == Ok::<Seq<char>, DecodeFailure>(Seq::empty()));
        assert(lines.skip(1) =~= Seq::<Seq<char>>::empty());
        assert(first_bad_line(lines.skip(1)) == 0);
        assert(first_bad_line(lines) == 1);
        lemma_paths_come_from_lines(lines);
        let paths = paths_in(lines);
        if paths.len() > 0 {
            assert(paths.contains(paths[0]));
            let j = choose|j: int|
                0 <= j < lines.len() && paths[0] == decoded_text(#[trigger] lines[j]);
            assert(lines[j] == listing);
        }
        assert(paths =~= Seq::<Seq<char>>::empty());
    }
}

/// The paths that the tool's output reports as ignored.
///
/// The output is taken without the white space around it and read as a
/// listing, one line for each path, as [`parse_lines`] does. Output that holds
/// nothing but white space reports no path.
pub fn parse_ignored_output(output: &str) -> (r: Result<Vec<String>, UnescapeError>)
    ensures
        match r {
            Ok(paths) => ignored_paths(output@) == Ok::<Seq<Seq<char>>, DecodeFailure>(
                paths.deep_view(),
            ),
            Err(e) => ignored_paths(output@) == Err::<Seq<Seq<char>>, DecodeFailure>(e@),
        },
        trimmed(output@).len() == 0 ==> r is Ok && r->Ok_0.len() == 0,
        r matches Ok(paths) ==> forall|k: int|
            0 <= k < paths.len() ==> (#[trigger] paths[k])@.len() > 0,
{
    let chars = chars_of(output);
    let (start, end) = trimmed_range(&chars);
    let listing = string_of(&chars, start, end);
    parse_lines(listing.as_str())
}

/// The lines put together again, with a line feed between each two.
pub open spec fn join_lines(lines: Seq<Seq<char>>) -> Seq<char>
    decreases lines.len(),
{
    if lines.len() == 0 {
        Seq::empty()
    } else if lines.len() == 1 {
        lines[0]
    } else {
        lines[0] + seq!['\n'] + join_lines(lines.skip(1))
    }
}

/// Text always has a first line, and no line holds a line feed.
pub proof fn lemma_lines_hold_no_line_feed(s: Seq<char>, from: int)
    requires
        0 <= from <= s.len(),
    ensures
        lines_from(s, from).len() >= 1,
        forall|k: int, j: int|
            0 <= k < lines_from(s, from).len() && 0 <= j < lines_from(s, from)[k].len()
                ==> #[trigger] lines_from(s, from)[k][j] != '\n',
    decreases s.len() - from,
{
    let end = position_of(s, '\n', from);
    let lines = lines_from(s, from);
    lemma_position_of(s, '\n', from);
    if end < s.len() {
        lemma_lines_hold_no_line_feed(s, end + 1);
        let later = lines_from(s, end + 1);
        assert forall|k: int, j: int|
            0 <= k < lines.len() && 0 <= j < lines[k].len() implies #[trigger] lines[k][j]
            != '\n' by {
            if k > 0 {
                assert(lines[k] == later[k - 1]);
            }
        }
    }
}

/// Cutting text into lines loses nothing but the line feeds: the lines, joined
/// by line feeds, are the text again.
pub proof fn lemma_lines_join_to_text(s: Seq<char>, from: int)
    requires
        0 <= from <= s.len(),
    ensures
        join_lines(lines_from(s, from)) == s.skip(from),
    decreases s.len() - from,
{
    let end = position_of(s, '\n', from);
    let lines = lines_from(s, from);
    lemma_position_of(s, '\n', from);
    if end >= s.len() {
        assert(s.subrange(from, s.len() as int) =~= s.skip(from));
    } else {
        lemma_lines_join_to_text(s, end + 1);
        lemma_lines_hold_no_line_feed(s, end + 1);
        assert(lines.skip(1) =~= lines_from(s, end + 1));
        assert(s.subrange(from, end) + seq!['\n'] + s.skip(end + 1) =~= s.skip(from));
    }
}

} // verus!
