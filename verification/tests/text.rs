use zip_source::text::{chars_of, find_char, string_of, trimmed_range};

#[test]
fn characters_of_a_string() {
    assert_eq!(chars_of("a\u{65b9}b"), vec!['a', '\u{65b9}', 'b']);
    assert_eq!(chars_of(""), Vec::<char>::new());
}

#[test]
fn string_of_a_range_of_characters() {
    let chars = chars_of("hello world");
    assert_eq!(string_of(&chars, 0, 5), "hello");
    assert_eq!(string_of(&chars, 6, 11), "world");
    assert_eq!(string_of(&chars, 3, 3), "");
}

#[test]
fn first_occurrence_from_a_place_on() {
    let chars = chars_of("a}b}c");
    assert_eq!(find_char(&chars, '}', 0), 1);
    assert_eq!(find_char(&chars, '}', 1), 1);
    assert_eq!(find_char(&chars, '}', 2), 3);
    assert_eq!(find_char(&chars, '}', 4), 5);
    assert_eq!(find_char(&chars, '}', 5), 5);
    assert_eq!(find_char(&chars, '}', 9), 9);
    assert_eq!(find_char(&chars, 'x', 0), 5);
}

#[test]
fn bounds_of_the_text_without_surrounding_white_space() {
    assert_eq!(trimmed_range(&chars_of("  ab c \n")), (2, 6));
    assert_eq!(trimmed_range(&chars_of("abc")), (0, 3));
    assert_eq!(trimmed_range(&chars_of("\u{A0}x\u{3000}")), (1, 2));
    let (start, end) = trimmed_range(&chars_of(" \t\n"));
    assert_eq!(start, end);
    assert_eq!(trimmed_range(&chars_of("")), (0, 0));
}

#[test]
fn every_kind_of_white_space_is_trimmed() {
    let spaces = [
        '\u{9}', '\u{A}', '\u{B}', '\u{C}', '\u{D}', ' ', '\u{85}', '\u{A0}', '\u{1680}',
        '\u{2000}', '\u{2001}', '\u{2002}', '\u{2003}', '\u{2004}', '\u{2005}', '\u{2006}',
        '\u{2007}', '\u{2008}', '\u{2009}', '\u{200A}', '\u{2028}', '\u{2029}', '\u{202F}',
        '\u{205F}', '\u{3000}',
    ];
    for c in spaces {
        let text = format!("{}a{}", c, c);
        assert_eq!(trimmed_range(&chars_of(&text)), (1, 2), "U+{:04X}", c as u32);
    }
    for c in ['\u{200B}', '\u{180E}', '\u{FEFF}', '_'] {
        let text = format!("{}a{}", c, c);
        assert_eq!(trimmed_range(&chars_of(&text)), (0, 3), "U+{:04X}", c as u32);
    }
}
