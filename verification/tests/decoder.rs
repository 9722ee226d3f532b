use zip_source::chars::{parse_unicode, unescape, ParseUnicodeError, UnescapeError};

fn ok(input: &str) -> String {
    match unescape(input) {
        Ok(text) => text,
        Err(e) => panic!("{:?} does not decode: {:?}", input, e),
    }
}

#[test]
fn text_without_quotes_is_unchanged() {
    assert_eq!(ok("src/main.rs"), "src/main.rs");
    assert_eq!(ok(""), "");
    assert_eq!(ok("with space and $dollar"), "with space and $dollar");
}

#[test]
fn backslash_outside_quotes_is_an_ordinary_character() {
    assert_eq!(ok("a\\nb"), "a\\nb");
    assert_eq!(ok("trailing\\"), "trailing\\");
}

#[test]
fn quote_marks_are_dropped() {
    assert_eq!(ok("'a b'"), "a b");
    assert_eq!(ok("\"a b\""), "a b");
    assert_eq!(ok("x'y'z\"w\"v"), "xyzwv");
}

#[test]
fn single_quotes_keep_backslashes() {
    assert_eq!(ok("a'\\n'b"), "a\\nb");
    assert_eq!(ok("'\\u{48}'"), "\\u{48}");
    assert_eq!(ok("'\\'"), "\\");
}

#[test]
fn single_quotes_keep_double_quotes_and_the_other_way_round() {
    assert_eq!(ok("'say \"hi\"'"), "say \"hi\"");
    assert_eq!(ok("\"it's\""), "it's");
}

#[test]
fn every_simple_escape_names_its_character() {
    let table: [(char, char); 15] = [
        ('a', '\u{07}'),
        ('b', '\u{08}'),
        ('v', '\u{0B}'),
        ('f', '\u{0C}'),
        ('n', '\n'),
        ('r', '\r'),
        ('t', '\t'),
        ('e', '\u{1B}'),
        ('E', '\u{1B}'),
        ('\\', '\\'),
        ('\'', '\''),
        ('"', '"'),
        ('$', '$'),
        ('`', '`'),
        (' ', ' '),
    ];
    for (x, c) in table {
        let token = format!("\"\\{}\"", x);
        assert_eq!(ok(&token), c.to_string(), "escape of {:?}", x);
        let in_context = format!("pre\"lead\\{}trail\"post", x);
        assert_eq!(ok(&in_context), format!("prelead{}trailpost", c), "escape of {:?}", x);
    }
}

#[test]
fn unicode_escape_names_a_character() {
    assert_eq!(ok("\"\\u{48}\""), "H");
    assert_eq!(ok("\"\\u{65b9}\""), "\u{65b9}");
    assert_eq!(ok("\"\\u{10FFFF}\""), "\u{10FFFF}");
    assert_eq!(ok("\"a\\u{0}b\""), "a\u{0}b");
    assert_eq!(ok("\"\\u{000000000048}\""), "H");
}

#[test]
fn unicode_escape_takes_a_plus_sign_and_either_case() {
    assert_eq!(ok("\"\\u{+48}\""), "H");
    assert_eq!(ok("\"\\u{e9}\\u{E9}\""), "\u{e9}\u{e9}");
}

#[test]
fn unicode_escape_without_closing_brace_runs_to_the_end() {
    assert_eq!(ok("\"\\u{48"), "H");
}

#[test]
fn scan_goes_on_behind_the_closing_brace() {
    assert_eq!(ok("\"\\u{48}i\\u{21}\" there"), "Hi! there");
}

#[test]
fn unterminated_quotes_are_accepted() {
    assert_eq!(ok("'abc"), "abc");
    assert_eq!(ok("\"abc"), "abc");
}

#[test]
fn invalid_escape_is_reported_with_its_place() {
    assert_eq!(
        unescape("\"\\q\""),
        Err(UnescapeError::InvalidEscape {
            escape: String::from("\\q"),
            index: 2,
            string: String::from("\"\\q\""),
        })
    );
    assert_eq!(
        unescape("ab\"cd\\xef\""),
        Err(UnescapeError::InvalidEscape {
            escape: String::from("\\x"),
            index: 6,
            string: String::from("ab\"cd\\xef\""),
        })
    );
}

#[test]
fn index_counts_characters_not_bytes() {
    assert_eq!(
        unescape("\u{65b9}\"\\q"),
        Err(UnescapeError::InvalidEscape {
            escape: String::from("\\q"),
            index: 3,
            string: String::from("\u{65b9}\"\\q"),
        })
    );
}

#[test]
fn backslash_at_the_end_is_an_invalid_escape() {
    assert_eq!(
        unescape("\"abc\\"),
        Err(UnescapeError::InvalidEscape {
            escape: String::from("\\"),
            index: 4,
            string: String::from("\"abc\\"),
        })
    );
}

#[test]
fn first_malformed_escape_wins() {
    assert_eq!(
        unescape("\"\\q\\z\""),
        Err(UnescapeError::InvalidEscape {
            escape: String::from("\\q"),
            index: 2,
            string: String::from("\"\\q\\z\""),
        })
    );
}

#[test]
fn unicode_escape_needs_an_opening_brace() {
    assert_eq!(
        unescape("\"\\u48\""),
        Err(UnescapeError::InvalidUnicode {
            source: ParseUnicodeError::BraceNotFound,
            index: 2,
            string: String::from("\"\\u48\""),
        })
    );
    assert_eq!(
        unescape("\"\\u"),
        Err(UnescapeError::InvalidUnicode {
            source: ParseUnicodeError::BraceNotFound,
            index: 2,
            string: String::from("\"\\u"),
        })
    );
}

#[test]
fn unicode_escape_needs_hexadecimal_digits() {
    for body in ["xyz", "", "+", "-48", " 48", "4_8", "100000000", "0x48"] {
        let input = format!("\"\\u{{{}}}\"", body);
        let source = u32::from_str_radix(body, 16).unwrap_err();
        assert_eq!(
            unescape(&input),
            Err(UnescapeError::InvalidUnicode {
                source: ParseUnicodeError::ParseHexFailed { source, string: String::from(body) },
                index: 2,
                string: input.clone(),
            }),
            "digits {:?}",
            body
        );
    }
}

#[test]
fn unicode_escape_needs_a_scalar_value() {
    let cases =
        [("D800", 0xD800u32), ("dfff", 0xDFFF), ("110000", 0x110000), ("FFFFFFFF", 0xFFFF_FFFF)];
    for (body, value) in cases {
        let input = format!("\"\\u{{{}}}\"", body);
        assert_eq!(
            unescape(&input),
            Err(UnescapeError::InvalidUnicode {
                source: ParseUnicodeError::ParseUnicodeFailed { value },
                index: 2,
                string: input.clone(),
            }),
            "digits {:?}",
            body
        );
    }
    assert_eq!(ok("\"\\u{D7FF}\\u{E000}\""), "\u{D7FF}\u{E000}");
}

#[test]
fn parse_unicode_returns_the_place_behind_the_escape() {
    let chars: Vec<char> = "\\u{48}x".chars().collect();
    assert_eq!(parse_unicode(&chars, 2), Ok(('H', 6)));
    let open: Vec<char> = "{21".chars().collect();
    assert_eq!(parse_unicode(&open, 0), Ok(('!', 3)));
    assert_eq!(parse_unicode(&open, 1), Err(ParseUnicodeError::BraceNotFound));
    assert_eq!(parse_unicode(&open, 3), Err(ParseUnicodeError::BraceNotFound));
}
