//! Decoding of the quoted, escaped text in which the ignore check reports paths.
//!
//! The decoder is a scanner with three states. Outside quotes every character
//! but the two quote marks stands for itself. Between single quotes everything
//! but the closing quote stands for itself. Between double quotes a backslash
//! starts an escape sequence. [`decode`] is the mathematical statement of the
//! result, [`unescape`] computes it in one pass.

use crate::chars_laws::{
    lemma_decoded_text_is_no_longer, lemma_failure_names_escape, names_escape_of,
};
use crate::text::{
    chars_of, find_char, lemma_position_of, position_of, push_char, string_of,
};
use std::num::ParseIntError;
use vstd::prelude::*;

verus! {

/// The error of the standard library's integer parsing, carried through unread.
#[verifier::external_type_specification]
#[verifier::external_body]
pub struct ExParseIntError(std::num::ParseIntError);

/// Error type of [`unescape`].
#[derive(Debug, PartialEq)]
pub enum UnescapeError {
    /// A backslash between double quotes is followed by a character that starts
    /// no escape sequence, or by nothing. `index` counts characters of `string`.
    InvalidEscape { escape: String, index: usize, string: String },
    /// A `\u` escape does not name a character. `index` is the place of the `u`.
    InvalidUnicode { source: ParseUnicodeError, index: usize, string: String },
}

/// Source error type of [`UnescapeError::InvalidUnicode`].
#[derive(Debug, PartialEq)]
pub enum ParseUnicodeError {
    /// The `u` is not followed by `{`.
    BraceNotFound,
    /// The text between the braces is no hexadecimal number that fits 32 bits.
    ParseHexFailed { source: ParseIntError, string: String },
    /// The number between the braces is no Unicode scalar value.
    ParseUnicodeFailed { value: u32 },
}

/// What a [`ParseUnicodeError`] says, as a mathematical value.
pub enum UnicodeFailure {
    BraceNotFound,
    ParseHexFailed { string: Seq<char> },
    ParseUnicodeFailed { value: u32 },
}

/// What an [`UnescapeError`] says, as a mathematical value.
pub enum DecodeFailure {
    InvalidEscape { escape: Seq<char>, index: nat, string: Seq<char> },
    InvalidUnicode { source: UnicodeFailure, index: nat, string: Seq<char> },
}

impl View for ParseUnicodeError {
    type V = UnicodeFailure;

    open spec fn view(&self) -> UnicodeFailure {
        match self {
            ParseUnicodeError::BraceNotFound => UnicodeFailure::BraceNotFound,
            ParseUnicodeError::ParseHexFailed { source, string } => UnicodeFailure::ParseHexFailed {
                string: string@,
            },
            ParseUnicodeError::ParseUnicodeFailed { value } => UnicodeFailure::ParseUnicodeFailed {
                value: *value,
            },
        }
    }
}

impl View for UnescapeError {
    type V = DecodeFailure;

    open spec fn view(&self) -> DecodeFailure {
        match self {
            UnescapeError::InvalidEscape { escape, index, string } => DecodeFailure::InvalidEscape {
                escape: escape@,
                index: *index as nat,
                string: string@,
            },
            UnescapeError::InvalidUnicode { source, index, string } => {
                DecodeFailure::InvalidUnicode {
                    source: source@,
                    index: *index as nat,
                    string: string@,
                }
            },
        }
    }
}

/// Where the scanner stands relative to quotes.
#[derive(Clone, Copy, Debug)]
pub enum QuoteState {
    Plain,
    SingleQuoted,
    DoubleQuoted,
}

/// The character that the escape sequence backslash-`c` stands for, for every
/// escape but `\u`.
pub open spec fn simple_escape(c: char) -> Option<char> {
    match c {
        'a' => Some('\u{07}'),
        'b' => Some('\u{08}'),
        'v' => Some('\u{0B}'),
        'f' => Some('\u{0C}'),
        'n' => Some('\n'),
        'r' => Some('\r'),
        't' => Some('\t'),
        'e' => Some('\u{1B}'),
        'E' => Some('\u{1B}'),
        '\\' => Some('\\'),
        '\'' => Some('\''),
        '"' => Some('"'),
        '$' => Some('$'),
        '`' => Some('`'),
        ' ' => Some(' '),
        _ => None,
    }
}

/// The value of one hexadecimal digit, of either case.
pub open spec fn hex_digit_value(c: char) -> Option<nat> {
    if '0' <= c <= '9' {
        Some((c as nat - '0' as nat) as nat)
    } else if 'a' <= c <= 'f' {
        Some((c as nat - 'a' as nat + 10) as nat)
    } else if 'A' <= c <= 'F' {
        Some((c as nat - 'A' as nat + 10) as nat)
    } else {
        None
    }
}

/// Every character of `digits` is a hexadecimal digit.
pub open spec fn all_hex_digits(digits: Seq<char>) -> bool {
    forall|i: int| 0 <= i < digits.len() ==> (#[trigger] hex_digit_value(digits[i])) is Some
}

/// The number that the hexadecimal digits spell, most significant digit first.
pub open spec fn hex_number(digits: Seq<char>) -> nat
    decreases digits.len(),
{
    if digits.len() == 0 {
        0
    } else {
        16 * hex_number(digits.drop_last()) + hex_digit_value(digits.last()).unwrap()
    }
}

/// `text` without the one plus sign that may lead it.
pub open spec fn without_plus_sign(text: Seq<char>) -> Seq<char> {
    if text.len() > 0 && text[0] == '+' {
        text.skip(1)
    } else {
        text
    }
}

/// `text` is a hexadecimal number of at most 32 bits: an optional plus sign,
/// then at least one digit and nothing else.
pub open spec fn is_hex_u32(text: Seq<char>) -> bool {
    let digits = without_plus_sign(text);
    &&& digits.len() > 0
    &&& all_hex_digits(digits)
    &&& hex_number(digits) <= u32::MAX
}

/// `v` is a Unicode scalar value: a code point that is no surrogate.
pub open spec fn is_scalar_value(v: nat) -> bool {
    v <= 0xD7FF || 0xE000 <= v <= 0x10FFFF
}

/// The place of the first `}` at or after `from`, or the end of `s` where there
/// is none.
pub open spec fn closing_brace(s: Seq<char>, from: int) -> int {
    position_of(s, '}', from)
}

/// The character that the escape `\u{...}` names, and the place behind it.
///
/// `at` is the place just behind the `u`. The digits run up to the next `}`,
/// or to the end of `s` where no `}` follows.
pub open spec fn unicode_escape(s: Seq<char>, at: int) -> Result<(char, int), UnicodeFailure> {
    if at >= s.len() || s[at] != '{' {
        Err(UnicodeFailure::BraceNotFound)
    } else {
        let close = closing_brace(s, at + 1);
        let digits = s.subrange(at + 1, close);
        let next = if close < s.len() {
            close + 1
        } else {
            close
        };
        if !is_hex_u32(digits) {
            Err(UnicodeFailure::ParseHexFailed { string: digits })
        } else {
            let value = hex_number(without_plus_sign(digits));
            if is_scalar_value(value) {
                Ok((value as char, next))
            } else {
                Err(UnicodeFailure::ParseUnicodeFailed { value: value as u32 })
            }
        }
    }
}

/// What the scanner does with the input at one place.
pub enum Step {
    /// One character of output; the scan goes on at `next` in `state`.
    Emit { c: char, next: int, state: QuoteState },
    /// No output; the scan goes on at `next` in `state`.
    Skip { next: int, state: QuoteState },
    /// The input is malformed here.
    Fail { failure: DecodeFailure },
}

/// The step at a backslash between double quotes, which stands at `i`.
pub open spec fn escape_step(s: Seq<char>, i: int) -> Step {
    if i + 1 >= s.len() {
        Step::Fail {
            failure: DecodeFailure::InvalidEscape {
                escape: seq!['\\'],
                index: i as nat,
                string: s,
            },
        }
    } else if s[i + 1] == 'u' {
        match unicode_escape(s, i + 2) {
            Ok((c, next)) => Step::Emit { c, next, state: QuoteState::DoubleQuoted },
            Err(source) => Step::Fail {
                failure: DecodeFailure::InvalidUnicode { source, index: (i + 1) as nat, string: s },
            },
        }
    } else {
        match simple_escape(s[i + 1]) {
            Some(c) => Step::Emit { c, next: i + 2, state: QuoteState::DoubleQuoted },
            None => Step::Fail {
                failure: DecodeFailure::InvalidEscape {
                    escape: seq!['\\', s[i + 1]],
                    index: (i + 1) as nat,
                    string: s,
                },
            },
        }
    }
}

/// The step of the scanner that stands at `i` in state `state`.
pub open spec fn step(s: Seq<char>, i: int, state: QuoteState) -> Step
    recommends
        0 <= i < s.len(),
{
    let c = s[i];
    match state {
        QuoteState::Plain => if c == '\'' {
            Step::Skip { next: i + 1, state: QuoteState::SingleQuoted }
        } else if c == '"' {
            Step::Skip { next: i + 1, state: QuoteState::DoubleQuoted }
        } else {
            Step::Emit { c, next: i + 1, state: QuoteState::Plain }
        },
        QuoteState::SingleQuoted => if c == '\'' {
            Step::Skip { next: i + 1, state: QuoteState::Plain }
        } else {
            Step::Emit { c, next: i + 1, state: QuoteState::SingleQuoted }
        },
        QuoteState::DoubleQuoted => if c == '"' {
            Step::Skip { next: i + 1, state: QuoteState::Plain }
        } else if c == '\\' {
            escape_step(s, i)
        } else {
            Step::Emit { c, next: i + 1, state: QuoteState::DoubleQuoted }
        },
    }
}

/// `rest` with `prefix` put before its text; a failure stays as it is.
pub open spec fn with_prefix(prefix: Seq<char>, rest: Result<Seq<char>, DecodeFailure>) -> Result<
    Seq<char>,
    DecodeFailure,
> {
    match rest {
        Ok(text) => Ok(prefix + text),
        Err(failure) => Err(failure),
    }
}

/// Every step moves forward and stays inside the text.
pub proof fn lemma_step_advances(s: Seq<char>, i: int, state: QuoteState)
    requires
        0 <= i < s.len(),
    ensures
        step(s, i, state) matches Step::Emit { next, .. } ==> i < next <= s.len(),
        step(s, i, state) matches Step::Skip { next, .. } ==> i < next <= s.len(),
{
    if i + 2 < s.len() && s[i + 2] == '{' {
        lemma_position_of(s, '}', i + 3);
    }
}

/// What the text from `i` on decodes to, for a scanner in state `state` there.
pub open spec fn decode_from(s: Seq<char>, i: int, state: QuoteState) -> Result<
    Seq<char>,
    DecodeFailure,
>
    decreases s.len() - i,
{
    if i < 0 || i >= s.len() {
        Ok(Seq::empty())
    } else {
        proof {
            lemma_step_advances(s, i, state);
        }
        match step(s, i, state) {
            Step::Emit { c, next, state } => with_prefix(seq![c], decode_from(s, next, state)),
            Step::Skip { next, state } => decode_from(s, next, state),
            Step::Fail { failure } => Err(failure),
        }
    }
}

/// The literal text that `s` stands for, or the first malformed escape in it.
pub open spec fn decode(s: Seq<char>) -> Result<Seq<char>, DecodeFailure> {
    decode_from(s, 0, QuoteState::Plain)
}

/// Reads `text` as a hexadecimal number of at most 32 bits.
///
/// Trusted: `u32::from_str_radix` with radix 16 is taken to accept exactly an
/// optional plus sign followed by one or more hexadecimal digits of either case
/// whose number fits 32 bits, and to return that number.
#[verifier::external_body]
fn parse_hex_u32(text: &str) -> (r: Result<u32, ParseIntError>)
    ensures
        r is Ok <==> is_hex_u32(text@),
        r matches Ok(value) ==> value == hex_number(without_plus_sign(text@)),
{
    u32::from_str_radix(text, 16)
}

/// The character with code point `value`.
///
/// Trusted: `char::from_u32` is taken to return the character exactly for the
/// Unicode scalar values, and nothing for every other number.
#[verifier::external_body]
fn char_from_u32(value: u32) -> (r: Option<char>)
    ensures
        r is Some <==> is_scalar_value(value as nat),
        r matches Some(c) ==> c == value as char,
{
    char::from_u32(value)
}

/// The character named by the `\u{...}` escape whose `u` stands just before
/// `at`, together with the place where the scan goes on.
pub fn parse_unicode(chars: &Vec<char>, at: usize) -> (r: Result<(char, usize), ParseUnicodeError>)
    ensures
        match r {
            Ok((c, next)) => unicode_escape(chars@, at as int) == Ok::<
                (char, int),
                UnicodeFailure,
            >((c, next as int)) && at < next <= chars.len(),
            Err(e) => unicode_escape(chars@, at as int) == Err::<(char, int), UnicodeFailure>(e@),
        },
{
    if at >= chars.len() || chars[at] != '{' {
        return Err(ParseUnicodeError::BraceNotFound);
    }
    let close = find_char(chars, '}', at + 1);
    let digits = string_of(chars, at + 1, close);
    let next: usize = if close < chars.len() {
        close + 1
    } else {
        close
    };
    match parse_hex_u32(digits.as_str()) {
        Err(source) => Err(ParseUnicodeError::ParseHexFailed { source, string: digits }),
        Ok(value) => match char_from_u32(value) {
            Some(c) => Ok((c, next)),
            None => Err(ParseUnicodeError::ParseUnicodeFailed { value }),
        },
    }
}

/// The character that backslash-`c` stands for, where it is a simple escape.
fn simple_escape_of(c: char) -> (r: Option<char>)
    ensures
        r == simple_escape(c),
{
    match c {
        'a' => Some('\u{07}'),
        'b' => Some('\u{08}'),
        'v' => Some('\u{0B}'),
        'f' => Some('\u{0C}'),
        'n' => Some('\n'),
        'r' => Some('\r'),
        't' => Some('\t'),
        'e' | 'E' => Some('\u{1B}'),
        '\\' => Some('\\'),
        '\'' => Some('\''),
        '"' => Some('"'),
        '$' => Some('$'),
        '`' => Some('`'),
        ' ' => Some(' '),
        _ => None,
    }
}

/// The whole input as a string, for an error to carry.
fn whole_text(chars: &Vec<char>) -> (text: String)
    ensures
        text@ == chars@,
{
    let text = string_of(chars, 0, chars.len());
    assert(chars@.subrange(0, chars.len() as int) =~= chars@);
    text
}

/// Reads the escape sequence whose backslash stands at `i`, between double
/// quotes.
fn scan_escape(chars: &Vec<char>, i: usize) -> (r: Result<(char, usize), UnescapeError>)
    requires
        i < chars.len(),
    ensures
        match r {
            Ok((c, next)) => escape_step(chars@, i as int) == (Step::Emit {
                c,
                next: next as int,
                state: QuoteState::DoubleQuoted,
            }) && i < next <= chars.len(),
            Err(e) => escape_step(chars@, i as int) == (Step::Fail { failure: e@ }),
        },
{
    if i + 1 >= chars.len() {
        let mut escape = String::new();
        push_char(&mut escape, '\\');
        assert(escape@ =~= seq!['\\']);
        return Err(UnescapeError::InvalidEscape { escape, index: i, string: whole_text(chars) });
    }
    let c2 = chars[i + 1];
    if c2 == 'u' {
        match parse_unicode(chars, i + 2) {
            Ok((c, next)) => Ok((c, next)),
            Err(source) => Err(
                UnescapeError::InvalidUnicode { source, index: i + 1, string: whole_text(chars) },
            ),
        }
    } else {
        match simple_escape_of(c2) {
            Some(c) => Ok((c, i + 2)),
            None => {
                let mut escape = String::new();
                push_char(&mut escape, '\\');
                push_char(&mut escape, c2);
                assert(escape@ =~= seq!['\\', c2]);
                let string = whole_text(chars);
                Err(UnescapeError::InvalidEscape { escape, index: i + 1, string })
            },
        }
    }
}

/// The literal text that the quoted, escaped text `s` stands for.
///
/// Quote marks that open or close a run are dropped, escape sequences between
/// double quotes are replaced by the characters they name, and everything else
/// is kept. The first malformed escape sequence ends the scan with an error
/// that names it, its place and the whole input.
pub fn unescape(s: &str) -> (r: Result<String, UnescapeError>)
    ensures
        match r {
            Ok(text) => decode(s@) == Ok::<Seq<char>, DecodeFailure>(text@),
            Err(e) => decode(s@) == Err::<Seq<char>, DecodeFailure>(e@),
        },
        r matches Ok(text) ==> text@.len() <= s@.len(),
        r matches Err(e) ==> names_escape_of(e@, s@),
{
    proof {
        lemma_decoded_text_is_no_longer(s@, 0, QuoteState::Plain);
        lemma_failure_names_escape(s@, 0, QuoteState::Plain);
    }
    let chars = chars_of(s);
    let mut res = String::new();
    let mut state = QuoteState::Plain;
    let mut i: usize = 0;
    assert(with_prefix(res@, decode(s@)) == decode(s@)) by {
        match decode(s@) {
            Ok(text) => assert(res@ + text =~= text),
            Err(_) => {},
        }
    }
    while i < chars.len()
        invariant
            i <= chars.len(),
            chars@ == s@,
            decode(s@) == with_prefix(res@, decode_from(chars@, i as int, state)),
        decreases chars.len() - i,
    {
        let c = chars[i];
        let ghost before = res@;
        let ghost rest = decode_from(chars@, i as int, state);
        let mut emit: Option<char> = Some(c);
        let mut next: usize = i + 1;
        match state {
            QuoteState::Plain => {
                if c == '\'' {
                    emit = None;
                    state = QuoteState::SingleQuoted;
                } else if c == '"' {
                    emit = None;
                    state = QuoteState::DoubleQuoted;
                }
            },
            QuoteState::SingleQuoted => {
                if c == '\'' {
                    emit = None;
                    state = QuoteState::Plain;
                }
            },
            QuoteState::DoubleQuoted => {
                if c == '"' {
                    emit = None;
                    state = QuoteState::Plain;
                } else if c == '\\' {
                    match scan_escape(&chars, i) {
                        Ok((escaped, behind)) => {
                            emit = Some(escaped);
                            next = behind;
                        },
                        Err(e) => {
                            return Err(e);
                        },
                    }
                }
            },
        }
        match emit {
            Some(out) => {
                push_char(&mut res, out);
                proof {
                    let tail = decode_from(chars@, next as int, state);
                    assert(rest == with_prefix(seq![out], tail));
                    match tail {
                        Ok(text) => assert(before + (seq![out] + text) =~= before.push(out) + text),
                        Err(_) => {},
                    }
                }
            },
            None => {},
        }
        i = next;
    }
    proof {
        assert(res@ + Seq::<char>::empty() =~= res@);
    }
    Ok(res)
}

} // verus!
