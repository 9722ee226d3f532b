//! Moving between strings and sequences of characters.

use vstd::prelude::*;
use vstd::std_specs::iter::IteratorSpec;

verus! {

/// Appends one character to `text`.
///
/// Trusted: `String::push` is taken to add exactly `c` at the end and to leave
/// what was there unchanged.
#[verifier::external_body]
pub(crate) fn push_char(text: &mut String, c: char)
    ensures
        final(text)@ == old(text)@.push(c),
{
    text.push(c)
}

/// The characters of `s`, in order.
pub fn chars_of(s: &str) -> (v: Vec<char>)
    ensures
        v@ == s@,
{
    let mut v: Vec<char> = Vec::new();
    let mut it = s.chars();
    loop
        invariant
            it.obeys_prophetic_iter_laws(),
            it.decrease() is Some,
            v@ + it.remaining() == s@,
        ensures
            v@ == s@,
        decreases it.decrease()->0,
    {
        match it.next() {
            Some(c) => {
                v.push(c);
            },
            None => {
                break ;
            },
        }
    }
    v
}

/// The string made of the characters `chars[from..to]`.
pub fn string_of(chars: &Vec<char>, from: usize, to: usize) -> (text: String)
    requires
        from <= to <= chars.len(),
    ensures
        text@ == chars@.subrange(from as int, to as int),
{
    let mut text = String::new();
    let mut i: usize = from;
    while i < to
        invariant
            from <= i <= to <= chars.len(),
            text@ == chars@.subrange(from as int, i as int),
        decreases to - i,
    {
        push_char(&mut text, chars[i]);
        i = i + 1;
    }
    text
}

/// The place of the first `c` in `s` at or after `from`, or the end of `s`
/// where there is none; `from` itself where it lies behind the end.
pub open spec fn position_of(s: Seq<char>, c: char, from: int) -> int
    decreases s.len() - from,
{
    if from >= s.len() {
        from
    } else if s[from] == c {
        from
    } else {
        position_of(s, c, from + 1)
    }
}

/// [`position_of`] finds the first occurrence: nothing before it is `c`, and it
/// is `c` unless it is the end of the text.
pub proof fn lemma_position_of(s: Seq<char>, c: char, from: int)
    requires
        0 <= from <= s.len(),
    ensures
        from <= position_of(s, c, from) <= s.len(),
        forall|k: int| from <= k < position_of(s, c, from) ==> s[k] != c,
        position_of(s, c, from) < s.len() ==> s[position_of(s, c, from)] == c,
    decreases s.len() - from,
{
    if from < s.len() && s[from] != c {
        lemma_position_of(s, c, from + 1);
    }
}

/// A run without `c` that ends at a `c` or at the end of the text ends where
/// [`position_of`] says.
pub proof fn lemma_position_of_is(s: Seq<char>, c: char, from: int, at: int)
    requires
        0 <= from <= at <= s.len(),
        forall|k: int| from <= k < at ==> s[k] != c,
        at < s.len() ==> s[at] == c,
    ensures
        position_of(s, c, from) == at,
    decreases at - from,
{
    if from < at {
        lemma_position_of_is(s, c, from + 1, at);
    }
}

/// The place of the first `c` in `chars` at or after `from`, or the length of
/// `chars` where there is none; `from` itself where it lies behind the end.
pub fn find_char(chars: &Vec<char>, c: char, from: usize) -> (at: usize)
    ensures
        at == position_of(chars@, c, from as int),
        from <= at,
        from <= chars.len() ==> at <= chars.len(),
{
    let mut at: usize = from;
    while at < chars.len() && chars[at] != c
        invariant
            from <= at,
            from <= chars.len() ==> at <= chars.len(),
            position_of(chars@, c, at as int) == position_of(chars@, c, from as int),
        decreases chars.len() - at,
    {
        at = at + 1;
    }
    at
}

/// Whether `c` is white space in the sense of Unicode (`White_Space`).
pub uninterp spec fn is_whitespace(c: char) -> bool;

/// Whether `c` is white space.
///
/// Trusted: the answer of `char::is_whitespace`, which depends on the character
/// alone, is given the name [`is_whitespace`]. Nothing is claimed about which
/// characters it holds for.
#[verifier::external_body]
pub(crate) fn char_is_whitespace(c: char) -> (white: bool)
    ensures
        white == is_whitespace(c),
{
    c.is_whitespace()
}

/// `s` without the white space it begins with.
pub open spec fn trim_start(s: Seq<char>) -> Seq<char>
    decreases s.len(),
{
    if s.len() > 0 && is_whitespace(s[0]) {
        trim_start(s.skip(1))
    } else {
        s
    }
}

/// `s` without the white space it ends with.
pub open spec fn trim_end(s: Seq<char>) -> Seq<char>
    decreases s.len(),
{
    if s.len() > 0 && is_whitespace(s.last()) {
        trim_end(s.drop_last())
    } else {
        s
    }
}

/// `s` without the white space around it.
pub open spec fn trimmed(s: Seq<char>) -> Seq<char> {
    trim_end(trim_start(s))
}

/// The bounds of `chars` without the white space around it.
///
/// Everything before the first bound and from the second bound on is white
/// space; what lies between them neither begins nor ends with white space.
pub fn trimmed_range(chars: &Vec<char>) -> (range: (usize, usize))
    ensures
        range.0 <= range.1 <= chars.len(),
        chars@.subrange(range.0 as int, range.1 as int) == trimmed(chars@),
        forall|k: int| 0 <= k < range.0 ==> is_whitespace(#[trigger] chars[k]),
        forall|k: int| range.1 <= k < chars.len() ==> is_whitespace(#[trigger] chars[k]),
        range.0 < range.1 ==> !is_whitespace(chars[range.0 as int]) && !is_whitespace(
            chars[range.1 - 1],
        ),
{
    let mut start: usize = 0;
    assert(chars@.skip(0) =~= chars@);
    while start < chars.len() && char_is_whitespace(chars[start])
        invariant
            start <= chars.len(),
            trim_start(chars@.skip(start as int)) == trim_start(chars@),
            forall|k: int| 0 <= k < start ==> is_whitespace(#[trigger] chars[k]),
        decreases chars.len() - start,
    {
        assert(chars@.skip(start as int).skip(1) =~= chars@.skip(start + 1));
        start = start + 1;
    }
    let ghost body = chars@.skip(start as int);
    assert(body == trim_start(chars@));
    let mut end: usize = chars.len();
    assert(body =~= chars@.subrange(start as int, end as int));
    while end > start && char_is_whitespace(chars[end - 1])
        invariant
            start <= end <= chars.len(),
            start < chars.len() ==> !is_whitespace(chars[start as int]),
            trim_end(chars@.subrange(start as int, end as int)) == trim_end(body),
            forall|k: int| end <= k < chars.len() ==> is_whitespace(#[trigger] chars[k]),
        decreases end - start,
    {
        assert(chars@.subrange(start as int, end as int).drop_last() =~= chars@.subrange(
            start as int,
            end - 1,
        ));
        end = end - 1;
    }
    (start, end)
}

} // verus!
