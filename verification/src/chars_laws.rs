//! Laws of the decoder: what [`decode`] yields on text of a known shape.

use crate::chars::{
    decode, decode_from, hex_digit_value, hex_number, is_hex_u32, is_scalar_value,
    lemma_step_advances, simple_escape, step, unicode_escape, with_prefix, without_plus_sign,
    DecodeFailure, QuoteState, Step, UnicodeFailure,
};
use crate::text::lemma_position_of_is;
use vstd::prelude::*;

verus! {

/// In state `state` the scanner copies `c` to the output and stays in that
/// state.
pub open spec fn copied_in(state: QuoteState, c: char) -> bool {
    match state {
        QuoteState::Plain => c != '\'' && c != '"',
        QuoteState::SingleQuoted => c != '\'',
        QuoteState::DoubleQuoted => c != '"' && c != '\\',
    }
}

/// Every character of `text` is copied in state `state`.
pub open spec fn all_copied_in(state: QuoteState, text: Seq<char>) -> bool {
    forall|k: int| 0 <= k < text.len() ==> copied_in(state, #[trigger] text[k])
}

/// `inner` between single quotes.
pub open spec fn single_quoted(inner: Seq<char>) -> Seq<char> {
    seq!['\''] + inner + seq!['\'']
}

/// `inner` between double quotes.
pub open spec fn double_quoted(inner: Seq<char>) -> Seq<char> {
    seq!['"'] + inner + seq!['"']
}

/// The escape sequence backslash-`x`.
pub open spec fn escape_text(x: char) -> Seq<char> {
    seq!['\\', x]
}

/// The escape sequence `\u{digits}`.
pub open spec fn unicode_escape_text(digits: Seq<char>) -> Seq<char> {
    seq!['\\', 'u', '{'] + digits + seq!['}']
}

/// The text between the quote marks of a quoted section lies in the whole
/// text right behind the opening mark.
proof fn lemma_inner_of_quoted_section(
    before: Seq<char>,
    quote: char,
    inner: Seq<char>,
    after: Seq<char>,
)
    ensures
        ({
            let s = before + (seq![quote] + inner + seq![quote]) + after;
            let from = before.len() as int + 1;
            s.subrange(from, from + inner.len()) == inner
        }),
{
    let s = before + (seq![quote] + inner + seq![quote]) + after;
    let from = before.len() as int + 1;
    assert(s.subrange(from, from + inner.len()) =~= inner);
}

/// Where a stretch of `s` is made of three pieces, the middle piece lies in
/// `s` right behind the first.
proof fn lemma_middle_piece(
    s: Seq<char>,
    from: int,
    lead: Seq<char>,
    middle: Seq<char>,
    trail: Seq<char>,
)
    requires
        0 <= from,
        from + lead.len() + middle.len() + trail.len() <= s.len(),
        s.subrange(from, from + lead.len() + middle.len() + trail.len()) == lead + middle + trail,
    ensures
        s.subrange(from, from + lead.len()) == lead,
        s.subrange(from + lead.len(), from + lead.len() + middle.len()) == middle,
        s.subrange(
            from + lead.len() + middle.len(),
            from + lead.len() + middle.len() + trail.len(),
        ) == trail,
{
    let whole = lead + middle + trail;
    let n = whole.len() as int;
    let a = lead.len() as int;
    let b = a + middle.len();
    assert forall|k: int| 0 <= k < n implies s[from + k] == whole[k] by {
        assert(s.subrange(from, from + n)[k] == s[from + k]);
    }
    assert(s.subrange(from, from + a) =~= lead) by {
        assert forall|k: int| 0 <= k < a implies s.subrange(from, from + a)[k] == lead[k] by {
            assert(whole[k] == lead[k]);
        }
    }
    assert(s.subrange(from + a, from + b) =~= middle) by {
        assert forall|k: int| 0 <= k < b - a implies s.subrange(from + a, from + b)[k]
            == middle[k] by {
            assert(whole[a + k] == middle[k]);
        }
    }
    assert(s.subrange(from + b, from + n) =~= trail) by {
        assert forall|k: int| 0 <= k < n - b implies s.subrange(from + b, from + n)[k]
            == trail[k] by {
            assert(whole[b + k] == trail[k]);
        }
    }
}

/// Putting two prefixes before a result, one after the other, puts their
/// concatenation before it.
proof fn lemma_with_prefix_twice(
    first: Seq<char>,
    second: Seq<char>,
    rest: Result<Seq<char>, DecodeFailure>,
)
    ensures
        with_prefix(first, with_prefix(second, rest)) == with_prefix(first + second, rest),
{
    match rest {
        Ok(text) => assert(first + (second + text) =~= (first + second) + text),
        Err(_) => {},
    }
}

/// A run of characters that the current state copies comes out unchanged, and
/// the scan goes on behind it in the same state.
pub proof fn lemma_copied_run(s: Seq<char>, i: int, n: nat, state: QuoteState)
    requires
        0 <= i,
        i + n <= s.len(),
        all_copied_in(state, s.subrange(i, i + n)),
    ensures
        decode_from(s, i, state) == with_prefix(
            s.subrange(i, i + n),
            decode_from(s, i + n, state),
        ),
    decreases n,
{
    let run = s.subrange(i, i + n);
    let behind = decode_from(s, i + n, state);
    if n == 0 {
        match behind {
            Ok(text) => assert(run + text =~= text),
            Err(_) => {},
        }
    } else {
        let shorter = s.subrange(i + 1, i + n);
        assert forall|k: int| 0 <= k < shorter.len() implies copied_in(
            state,
            #[trigger] shorter[k],
        ) by {
            assert(shorter[k] == run[k + 1]);
        }
        lemma_copied_run(s, i + 1, (n - 1) as nat, state);
        assert(copied_in(state, run[0]));
        assert(run[0] == s[i]);
        assert(decode_from(s, i, state) == with_prefix(seq![s[i]], decode_from(s, i + 1, state)));
        lemma_with_prefix_twice(seq![s[i]], shorter, behind);
        assert(seq![s[i]] + shorter =~= run);
    }
}

/// A simple escape sequence at `i`, between double quotes, stands for its
/// character, and the scan goes on behind it: what precedes and what follows
/// in `s` plays no part.
pub proof fn lemma_simple_escape_at(s: Seq<char>, i: int)
    requires
        0 <= i,
        i + 1 < s.len(),
        s[i] == '\\',
        simple_escape(s[i + 1]) is Some,
    ensures
        decode_from(s, i, QuoteState::DoubleQuoted) == with_prefix(
            seq![simple_escape(s[i + 1]).unwrap()],
            decode_from(s, i + 2, QuoteState::DoubleQuoted),
        ),
{
}

/// No character of a hexadecimal number is a closing brace.
proof fn lemma_hex_text_has_no_brace(text: Seq<char>, k: int)
    requires
        is_hex_u32(text),
        0 <= k < text.len(),
    ensures
        text[k] != '}',
{
    if text[0] == '+' {
        if k > 0 {
            assert(without_plus_sign(text)[k - 1] == text[k]);
            assert(hex_digit_value(without_plus_sign(text)[k - 1]) is Some);
        }
    } else {
        assert(hex_digit_value(without_plus_sign(text)[k]) is Some);
    }
}

/// A Unicode escape sequence at `i`, between double quotes, stands for the
/// character whose code point its digits spell, and the scan goes on behind
/// its closing brace.
pub proof fn lemma_unicode_escape_at(s: Seq<char>, i: int, digits: Seq<char>)
    requires
        0 <= i,
        i + 4 + digits.len() <= s.len(),
        s.subrange(i, i + 4 + digits.len()) == unicode_escape_text(digits),
        is_hex_u32(digits),
        is_scalar_value(hex_number(without_plus_sign(digits))),
    ensures
        decode_from(s, i, QuoteState::DoubleQuoted) == with_prefix(
            seq![hex_number(without_plus_sign(digits)) as char],
            decode_from(s, i + 4 + digits.len(), QuoteState::DoubleQuoted),
        ),
{
    let escape = unicode_escape_text(digits);
    let brace = i + 3 + digits.len();
    assert forall|k: int| 0 <= k < escape.len() implies s[i + k] == escape[k] by {
        assert(s.subrange(i, i + 4 + digits.len())[k] == s[i + k]);
    }
    assert(s[i] == escape[0]);
    assert(s[i + 1] == escape[1]);
    assert(s[i + 2] == escape[2]);
    assert(s[brace] == escape[3 + digits.len() as int]);
    assert forall|k: int| i + 3 <= k < brace implies s[k] != '}' by {
        assert(s[k] == escape[k - i]);
        assert(escape[k - i] == digits[k - i - 3]);
        lemma_hex_text_has_no_brace(digits, k - i - 3);
    }
    lemma_position_of_is(s, '}', i + 3, brace);
    assert(s.subrange(i + 3, brace) =~= digits) by {
        assert forall|k: int| 0 <= k < digits.len() implies s.subrange(i + 3, brace)[k]
            == digits[k] by {
            assert(s[i + 3 + k] == escape[3 + k]);
        }
    }
}

/// Text without quote marks decodes to itself. Backslashes outside quotes are
/// ordinary characters, so text with neither quote marks nor backslashes is a
/// fixed point of decoding too.
pub proof fn lemma_unquoted_text_decodes_to_itself(s: Seq<char>)
    requires
        forall|k: int| 0 <= k < s.len() ==> s[k] != '\'' && s[k] != '"',
    ensures
        decode(s) == Ok::<Seq<char>, DecodeFailure>(s),
{
    assert(s.subrange(0, s.len() as int) =~= s);
    lemma_copied_run(s, 0, s.len(), QuoteState::Plain);
    assert(s + Seq::<char>::empty() =~= s);
}

/// How a quoted section inside unquoted text decodes, given how the scan runs
/// through the text between the quote marks.
proof fn lemma_quoted_section(
    before: Seq<char>,
    quote: char,
    inner: Seq<char>,
    out: Seq<char>,
    after: Seq<char>,
)
    requires
        quote == '\'' || quote == '"',
        all_copied_in(QuoteState::Plain, before),
        all_copied_in(QuoteState::Plain, after),
        ({
            let s = before + (seq![quote] + inner + seq![quote]) + after;
            let state = if quote == '"' {
                QuoteState::DoubleQuoted
            } else {
                QuoteState::SingleQuoted
            };
            decode_from(s, before.len() as int + 1, state) == with_prefix(
                out,
                decode_from(s, before.len() as int + 1 + inner.len(), state),
            )
        }),
    ensures
        decode(before + (seq![quote] + inner + seq![quote]) + after) == Ok::<
            Seq<char>,
            DecodeFailure,
        >(before + out + after),
{
    let s = before + (seq![quote] + inner + seq![quote]) + after;
    let state = if quote == '"' {
        QuoteState::DoubleQuoted
    } else {
        QuoteState::SingleQuoted
    };
    let open = before.len() as int;
    let close = open + 1 + inner.len();
    assert(s.subrange(0, open) =~= before);
    assert(s.subrange(close + 1, s.len() as int) =~= after);
    assert(s[open] == quote);
    assert(s[close] == quote);
    lemma_copied_run(s, 0, before.len(), QuoteState::Plain);
    assert(decode_from(s, open, QuoteState::Plain) == decode_from(s, open + 1, state));
    assert(decode_from(s, close, state) == decode_from(s, close + 1, QuoteState::Plain));
    lemma_copied_run(s, close + 1, after.len(), QuoteState::Plain);
    assert(decode_from(s, s.len() as int, QuoteState::Plain) == Ok::<Seq<char>, DecodeFailure>(
        Seq::empty(),
    ));
    assert(after + Seq::<char>::empty() =~= after);
    lemma_with_prefix_twice(out, after, Ok(Seq::empty()));
    lemma_with_prefix_twice(before, out + after, Ok(Seq::empty()));
    assert(before + (out + after) =~= before + out + after);
    assert(before + out + after + Seq::<char>::empty() =~= before + out + after);
}

/// A single-quoted run stands for the text between its quote marks, backslashes
/// included: only the two marks are dropped.
pub proof fn lemma_single_quoted_run_is_literal(
    before: Seq<char>,
    inner: Seq<char>,
    after: Seq<char>,
)
    requires
        all_copied_in(QuoteState::Plain, before),
        all_copied_in(QuoteState::SingleQuoted, inner),
        all_copied_in(QuoteState::Plain, after),
    ensures
        decode(before + single_quoted(inner) + after) == Ok::<Seq<char>, DecodeFailure>(
            before + inner + after,
        ),
{
    let s = before + single_quoted(inner) + after;
    lemma_inner_of_quoted_section(before, '\'', inner, after);
    lemma_copied_run(s, before.len() as int + 1, inner.len(), QuoteState::SingleQuoted);
    lemma_quoted_section(before, '\'', inner, inner, after);
}

/// How the scan runs through `lead`, one escape sequence `escape` that stands
/// for `c`, and `trail`, between double quotes.
proof fn lemma_escape_between_copied_runs(
    s: Seq<char>,
    i: int,
    lead: Seq<char>,
    escape: Seq<char>,
    c: char,
    trail: Seq<char>,
)
    requires
        0 <= i,
        i + lead.len() + escape.len() + trail.len() <= s.len(),
        s.subrange(i, i + lead.len() + escape.len() + trail.len()) == lead + escape + trail,
        all_copied_in(QuoteState::DoubleQuoted, lead),
        all_copied_in(QuoteState::DoubleQuoted, trail),
        decode_from(s, i + lead.len(), QuoteState::DoubleQuoted) == with_prefix(
            seq![c],
            decode_from(s, i + lead.len() + escape.len(), QuoteState::DoubleQuoted),
        ),
    ensures
        decode_from(s, i, QuoteState::DoubleQuoted) == with_prefix(
            lead + seq![c] + trail,
            decode_from(s, i + lead.len() + escape.len() + trail.len(), QuoteState::DoubleQuoted),
        ),
{
    let behind: int = i + lead.len() + escape.len();
    let rest = decode_from(s, behind + trail.len(), QuoteState::DoubleQuoted);
    lemma_middle_piece(s, i, lead, escape, trail);
    lemma_copied_run(s, i, lead.len(), QuoteState::DoubleQuoted);
    lemma_copied_run(s, behind, trail.len(), QuoteState::DoubleQuoted);
    lemma_with_prefix_twice(seq![c], trail, rest);
    lemma_with_prefix_twice(lead, seq![c] + trail, rest);
    assert(lead + (seq![c] + trail) =~= lead + seq![c] + trail);
}

/// Between double quotes the escape backslash-`x` stands for exactly the
/// character that [`simple_escape`] gives, whatever stands around it: literal
/// text inside the same quotes before and after it, and unquoted text outside.
pub proof fn lemma_simple_escape_in_any_context(
    before: Seq<char>,
    lead: Seq<char>,
    x: char,
    trail: Seq<char>,
    after: Seq<char>,
)
    requires
        simple_escape(x) is Some,
        all_copied_in(QuoteState::Plain, before),
        all_copied_in(QuoteState::DoubleQuoted, lead),
        all_copied_in(QuoteState::DoubleQuoted, trail),
        all_copied_in(QuoteState::Plain, after),
    ensures
        decode(before + double_quoted(lead + escape_text(x) + trail) + after) == Ok::<
            Seq<char>,
            DecodeFailure,
        >(before + (lead + seq![simple_escape(x).unwrap()] + trail) + after),
{
    let c = simple_escape(x).unwrap();
    let escape = escape_text(x);
    let inner = lead + escape + trail;
    let s = before + double_quoted(inner) + after;
    let from: int = before.len() as int + 1;
    let at: int = from + lead.len();
    lemma_inner_of_quoted_section(before, '"', inner, after);
    lemma_middle_piece(s, from, lead, escape, trail);
    assert(s[at] == '\\' && s[at + 1] == x) by {
        assert(s.subrange(at, at + 2)[0] == escape[0]);
        assert(s.subrange(at, at + 2)[1] == escape[1]);
    }
    lemma_simple_escape_at(s, at);
    lemma_escape_between_copied_runs(s, from, lead, escape, c, trail);
    lemma_quoted_section(before, '"', inner, lead + seq![c] + trail, after);
}

/// Between double quotes the escape `\u{digits}` stands for the character whose
/// code point the hexadecimal digits spell, whatever stands around it.
pub proof fn lemma_unicode_escape_in_any_context(
    before: Seq<char>,
    lead: Seq<char>,
    digits: Seq<char>,
    trail: Seq<char>,
    after: Seq<char>,
)
    requires
        is_hex_u32(digits),
        is_scalar_value(hex_number(without_plus_sign(digits))),
        all_copied_in(QuoteState::Plain, before),
        all_copied_in(QuoteState::DoubleQuoted, lead),
        all_copied_in(QuoteState::DoubleQuoted, trail),
        all_copied_in(QuoteState::Plain, after),
    ensures
        decode(before + double_quoted(lead + unicode_escape_text(digits) + trail) + after) == Ok::<
            Seq<char>,
            DecodeFailure,
        >(before + (lead + seq![hex_number(without_plus_sign(digits)) as char] + trail) + after),
{
    let c = hex_number(without_plus_sign(digits)) as char;
    let escape = unicode_escape_text(digits);
    let inner = lead + escape + trail;
    let s = before + double_quoted(inner) + after;
    let from: int = before.len() as int + 1;
    let at: int = from + lead.len();
    lemma_inner_of_quoted_section(before, '"', inner, after);
    lemma_middle_piece(s, from, lead, escape, trail);
    lemma_unicode_escape_at(s, at, digits);
    lemma_escape_between_copied_runs(s, from, lead, escape, c, trail);
    lemma_quoted_section(before, '"', inner, lead + seq![c] + trail, after);
}

/// How the scan reaches a place between double quotes: through unquoted text,
/// the opening quote mark and text that is copied.
proof fn lemma_scan_into_double_quotes(s: Seq<char>, before: Seq<char>, lead: Seq<char>)
    requires
        (before + seq!['"'] + lead).is_prefix_of(s),
        all_copied_in(QuoteState::Plain, before),
        all_copied_in(QuoteState::DoubleQuoted, lead),
    ensures
        decode(s) == with_prefix(
            before + lead,
            decode_from(s, before.len() as int + 1 + lead.len(), QuoteState::DoubleQuoted),
        ),
{
    let head = before + seq!['"'] + lead;
    let open = before.len() as int;
    let at = open + 1 + lead.len();
    assert forall|k: int| 0 <= k < head.len() implies s[k] == head[k] by {
        assert(s.subrange(0, head.len() as int)[k] == s[k]);
    }
    assert(s.subrange(0, open) =~= before) by {
        assert forall|k: int| 0 <= k < open implies s.subrange(0, open)[k] == before[k] by {
            assert(head[k] == before[k]);
        }
    }
    assert(s.subrange(open + 1, at) =~= lead) by {
        assert forall|k: int| 0 <= k < lead.len() implies s.subrange(open + 1, at)[k]
            == lead[k] by {
            assert(head[open + 1 + k] == lead[k]);
        }
    }
    assert(s[open] == '"') by {
        assert(head[open] == '"');
    }
    lemma_copied_run(s, 0, before.len(), QuoteState::Plain);
    assert(decode_from(s, open, QuoteState::Plain) == decode_from(
        s,
        open + 1,
        QuoteState::DoubleQuoted,
    ));
    lemma_copied_run(s, open + 1, lead.len(), QuoteState::DoubleQuoted);
    lemma_with_prefix_twice(before, lead, decode_from(s, at, QuoteState::DoubleQuoted));
}

/// Between double quotes a backslash before a character that starts no escape
/// sequence fails the decoding, whatever follows: the failure cites the
/// backslash with that character, the place of that character and the whole
/// input.
pub proof fn lemma_invalid_escape_is_reported(
    before: Seq<char>,
    lead: Seq<char>,
    x: char,
    rest: Seq<char>,
)
    requires
        simple_escape(x) is None,
        x != 'u',
        all_copied_in(QuoteState::Plain, before),
        all_copied_in(QuoteState::DoubleQuoted, lead),
    ensures
        decode(before + seq!['"'] + lead + escape_text(x) + rest) == Err::<
            Seq<char>,
            DecodeFailure,
        >(
            DecodeFailure::InvalidEscape {
                escape: escape_text(x),
                index: (before.len() + lead.len() + 2) as nat,
                string: before + seq!['"'] + lead + escape_text(x) + rest,
            },
        ),
{
    let head = before + seq!['"'] + lead;
    let s = head + escape_text(x) + rest;
    let at = head.len() as int;
    assert(head =~= s.subrange(0, at));
    lemma_scan_into_double_quotes(s, before, lead);
    assert(s[at] == '\\');
    assert(s[at + 1] == x);
}

/// Between double quotes a backslash that ends the input fails the decoding:
/// the failure cites the backslash, its place and the whole input.
pub proof fn lemma_backslash_at_end_is_reported(before: Seq<char>, lead: Seq<char>)
    requires
        all_copied_in(QuoteState::Plain, before),
        all_copied_in(QuoteState::DoubleQuoted, lead),
    ensures
        decode(before + seq!['"'] + lead + seq!['\\']) == Err::<Seq<char>, DecodeFailure>(
            DecodeFailure::InvalidEscape {
                escape: seq!['\\'],
                index: (before.len() + lead.len() + 1) as nat,
                string: before + seq!['"'] + lead + seq!['\\'],
            },
        ),
{
    let head = before + seq!['"'] + lead;
    let s = head + seq!['\\'];
    let at = head.len() as int;
    assert(head =~= s.subrange(0, at));
    lemma_scan_into_double_quotes(s, before, lead);
    assert(s[at] == '\\');
}

/// `failure` names a malformed escape sequence of `s` and its place: it holds
/// `s` whole, its index is the place of the character behind the backslash (of
/// the backslash itself where `s` ends with it), and its escape is the text of
/// `s` there.
pub open spec fn names_escape_of(failure: DecodeFailure, s: Seq<char>) -> bool {
    match failure {
        DecodeFailure::InvalidEscape { escape, index, string } => {
            &&& string == s
            &&& index < s.len()
            &&& {
                ||| {
                    &&& index + 1 == s.len()
                    &&& s[index as int] == '\\'
                    &&& escape == seq!['\\']
                }
                ||| {
                    &&& index >= 1
                    &&& s[index - 1] == '\\'
                    &&& escape == seq!['\\', s[index as int]]
                    &&& s[index as int] != 'u'
                    &&& simple_escape(s[index as int]) is None
                }
            }
        },
        DecodeFailure::InvalidUnicode { source, index, string } => {
            &&& string == s
            &&& 1 <= index < s.len()
            &&& s[index - 1] == '\\'
            &&& s[index as int] == 'u'
            &&& unicode_escape(s, index as int + 1) == Err::<(char, int), UnicodeFailure>(source)
        },
    }
}

/// A failure of the decoder names an escape sequence of the input and the
/// place where it stands.
pub proof fn lemma_failure_names_escape(s: Seq<char>, i: int, state: QuoteState)
    requires
        0 <= i <= s.len(),
    ensures
        decode_from(s, i, state) matches Err(failure) ==> names_escape_of(failure, s),
    decreases s.len() - i,
{
    if i < s.len() {
        lemma_step_advances(s, i, state);
        match step(s, i, state) {
            Step::Emit { c, next, state } => {
                lemma_failure_names_escape(s, next, state);
            },
            Step::Skip { next, state } => {
                lemma_failure_names_escape(s, next, state);
            },
            Step::Fail { failure } => {},
        }
    }
}

/// Decoding never makes text longer.
pub proof fn lemma_decoded_text_is_no_longer(s: Seq<char>, i: int, state: QuoteState)
    requires
        0 <= i <= s.len(),
    ensures
        decode_from(s, i, state) matches Ok(text) ==> text.len() <= s.len() - i,
    decreases s.len() - i,
{
    if i < s.len() {
        lemma_step_advances(s, i, state);
        match step(s, i, state) {
            Step::Emit { c, next, state } => {
                lemma_decoded_text_is_no_longer(s, next, state);
            },
            Step::Skip { next, state } => {
                lemma_decoded_text_is_no_longer(s, next, state);
            },
            Step::Fail { failure } => {},
        }
    }
}

/// Escape sequences are read between double quotes only: text without a double
/// quote mark always decodes.
pub proof fn lemma_text_without_double_quotes_decodes(s: Seq<char>, i: int, state: QuoteState)
    requires
        0 <= i <= s.len(),
        forall|k: int| 0 <= k < s.len() ==> s[k] != '"',
        !(state is DoubleQuoted),
    ensures
        decode_from(s, i, state) is Ok,
    decreases s.len() - i,
{
    if i < s.len() {
        match step(s, i, state) {
            Step::Emit { c, next, state } => {
                lemma_text_without_double_quotes_decodes(s, next, state);
            },
            Step::Skip { next, state } => {
                lemma_text_without_double_quotes_decodes(s, next, state);
            },
            Step::Fail { failure } => {},
        }
    }
}

} // verus!
