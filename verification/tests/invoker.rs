use zip_source::chars::{ParseUnicodeError, UnescapeError};
use zip_source::invoker::{
    build_check_ignore_command, parse_ignored_output, parse_lines, CommandLine,
};

fn strings(items: &[&str]) -> Vec<String> {
    items.iter().map(|s| s.to_string()).collect()
}

#[test]
fn command_for_a_posix_shell() {
    let files = strings(&["/repo/a.rs", "/repo/b c.rs"]);
    assert_eq!(
        build_check_ignore_command("/repo", &files, false),
        CommandLine {
            program: String::from("sh"),
            args: strings(&[
                "-c",
                "git check-ignore \"$@\"",
                "git",
                "/repo/a.rs",
                "/repo/b c.rs"
            ]),
            current_dir: String::from("/repo"),
        }
    );
}

#[test]
fn posix_shell_gets_one_script_and_the_paths_as_its_arguments() {
    let files = strings(&["/repo/$HOME", "/repo/it's; rm"]);
    let command = build_check_ignore_command("/repo", &files, false);
    assert_eq!(command.args.len(), 3 + files.len());
    assert_eq!(command.args[1], "git check-ignore \"$@\"");
    assert_eq!(command.args[2], "git");
    assert_eq!(&command.args[3..], &files[..]);
}

#[test]
fn command_for_windows() {
    let files = strings(&["C:/repo/a.rs"]);
    assert_eq!(
        build_check_ignore_command("C:/repo", &files, true),
        CommandLine {
            program: String::from("cmd"),
            args: strings(&["/C", "git", "check-ignore", "C:/repo/a.rs"]),
            current_dir: String::from("C:/repo"),
        }
    );
}

#[test]
fn command_for_an_empty_batch() {
    let posix = build_check_ignore_command("/repo", &Vec::new(), false);
    assert_eq!(posix.args, strings(&["-c", "git check-ignore \"$@\"", "git"]));
    let windows = build_check_ignore_command("/repo", &Vec::new(), true);
    assert_eq!(windows.args, strings(&["/C", "git", "check-ignore"]));
}

#[test]
fn every_line_is_one_path() {
    assert_eq!(
        parse_ignored_output("/repo/target\n/repo/a.log\n"),
        Ok(strings(&["/repo/target", "/repo/a.log"]))
    );
}

#[test]
fn white_space_around_the_output_is_dropped() {
    assert_eq!(
        parse_ignored_output("\n  /repo/target\n/repo/a.log \t\r\n\n"),
        Ok(strings(&["/repo/target", "/repo/a.log"]))
    );
}

#[test]
fn white_space_inside_a_line_is_kept() {
    assert_eq!(
        parse_ignored_output("/repo/a \n /repo/b"),
        Ok(strings(&["/repo/a ", " /repo/b"]))
    );
}

#[test]
fn empty_lines_report_no_path() {
    assert_eq!(
        parse_ignored_output("/repo/a\n\n\n/repo/b"),
        Ok(strings(&["/repo/a", "/repo/b"]))
    );
    assert_eq!(parse_lines("\n/repo/a\n\n"), Ok(strings(&["/repo/a"])));
}

#[test]
fn lines_that_stand_for_nothing_report_no_path() {
    assert_eq!(parse_lines("''\n/repo/a\n\"\"\n'"), Ok(strings(&["/repo/a"])));
}

#[test]
fn quoted_lines_are_decoded() {
    assert_eq!(
        parse_ignored_output("\"/repo/tab\\there\"\n'/repo/it is'\n\"/repo/\\u{65b9}\"\n"),
        Ok(strings(&["/repo/tab\there", "/repo/it is", "/repo/\u{65b9}"]))
    );
}

#[test]
fn empty_output_reports_no_path() {
    assert_eq!(parse_ignored_output(""), Ok(Vec::new()));
    assert_eq!(parse_ignored_output(" \n \t\n"), Ok(Vec::new()));
    assert_eq!(parse_lines(""), Ok(Vec::new()));
    assert_eq!(parse_lines("\n\n"), Ok(Vec::new()));
}

#[test]
fn a_listing_is_read_as_it_stands() {
    assert_eq!(parse_lines(" /repo/a \n/repo/b"), Ok(strings(&[" /repo/a ", "/repo/b"])));
    assert_eq!(parse_lines("/repo/a\r\n/repo/b"), Ok(strings(&["/repo/a\r", "/repo/b"])));
}

#[test]
fn a_line_that_does_not_decode_fails_the_batch() {
    assert_eq!(
        parse_ignored_output("/repo/ok\n\"/repo/\\q\"\n/repo/later"),
        Err(UnescapeError::InvalidEscape {
            escape: String::from("\\q"),
            index: 8,
            string: String::from("\"/repo/\\q\""),
        })
    );
}

#[test]
fn the_first_bad_line_decides_the_error() {
    assert_eq!(
        parse_ignored_output("\"\\u\"\n\"\\q\""),
        Err(UnescapeError::InvalidUnicode {
            source: ParseUnicodeError::BraceNotFound,
            index: 2,
            string: String::from("\"\\u\""),
        })
    );
    assert_eq!(
        parse_lines("\n/repo/a\n\"\\"),
        Err(UnescapeError::InvalidEscape {
            escape: String::from("\\"),
            index: 1,
            string: String::from("\"\\"),
        })
    );
}
