//! The field scanners: each takes the input that is left and splits off one
//! piece of a `key=value` pair.

use vstd::prelude::*;
use vstd::utf8::*;
use vstd::string::*;
use crate::bytes::{
    find_mark, first_mark, is_hspace, lemma_first_mark, lemma_first_mark_extend, str_from_utf8,
    trimmed_len, Mark, NEWLINE, QUOTE, SPACE, TAB,
};
use crate::error::ParseErrorKind;

verus! {

/// `input` without the spaces and tabs at its start.
pub open spec fn without_leading_space(input: Seq<u8>) -> Seq<u8> {
    input.skip(first_mark(input, Mark::Filled, 0))
}

/// `input` without the spaces and tabs at its end.
pub open spec fn without_trailing_space(input: Seq<u8>) -> Seq<u8> {
    input.take(trimmed_len(input, input.len() as int))
}

/// `input` up to its first line feed, or all of it where it has none.
pub open spec fn first_line(input: Seq<u8>) -> Seq<u8> {
    input.take(first_mark(input, Mark::Newline, 0))
}

/// Returns a single line: the input up to its first line feed.
///
/// A line feed inside a quoted value ends the line like any other.
pub fn single_line<'a>(input: &'a [u8]) -> (line: &'a [u8])
    ensures
        line@ == first_line(input@),
{
    let n = find_mark(input, Mark::Newline, 0);
    &input[0..n]
}

/// Removes all spaces and tabs at the start of `input`. It does not remove
/// line feeds.
pub fn eat_space<'a>(input: &'a [u8]) -> (rest: &'a [u8])
    ensures
        rest@ == without_leading_space(input@),
{
    let n = find_mark(input, Mark::Filled, 0);
    &input[n..input.len()]
}

/// Same as [`eat_space`], but removes from the end of the input.
pub fn eat_space_end<'a>(input: &'a [u8]) -> (rest: &'a [u8])
    ensures
        rest@ == without_trailing_space(input@),
{
    let mut n: usize = input.len();
    while n > 0 && (input[n - 1] == SPACE || input[n - 1] == TAB)
        invariant
            n <= input@.len(),
            trimmed_len(input@, input@.len() as int) == trimmed_len(input@, n as int),
        decreases n,
    {
        n -= 1;
    }
    &input[0..n]
}

/// What the key scanner finds in `input`.
pub enum KeyScan {
    /// `input` holds no `=`: the key may not have arrived in full.
    Incomplete,
    /// The bytes before the first `=` are no UTF-8 text.
    Invalid,
    /// A key, and the input after the `=`.
    Key { key: Seq<u8>, rest: Seq<u8> },
}

/// The key at the start of `input`: all that stands before the first `=`,
/// without the spaces and tabs at its end.
pub open spec fn scan_key(input: Seq<u8>) -> KeyScan {
    let n = first_mark(input, Mark::Equals, 0);
    let key = without_trailing_space(input.take(n));
    if n == input.len() {
        KeyScan::Incomplete
    } else if !valid_utf8(key) {
        KeyScan::Invalid
    } else {
        KeyScan::Key { key, rest: input.skip(n + 1) }
    }
}

/// Parses a key, i.e. `key=`. Returns the input after the `=` and the key,
/// or `None` where `input` holds no `=` yet.
pub fn parse_key<'a>(input: &'a [u8]) -> (r: Result<Option<(&'a [u8], &'a str)>, ParseErrorKind>)
    ensures
        match scan_key(input@) {
            KeyScan::Incomplete => r == Ok::<_, ParseErrorKind>(None::<(&[u8], &str)>),
            KeyScan::Invalid => r == Err::<Option<(&[u8], &str)>, _>(
                ParseErrorKind::KeyInvalidUtf8,
            ),
            KeyScan::Key { key, rest } => r matches Ok(Some((i, k))) && i@ == rest
                && k.spec_bytes() == key && k@ == decode_utf8(key),
        },
{
    let n = find_mark(input, Mark::Equals, 0);
    if n == input.len() {
        return Ok(None);
    }
    let key_bytes = eat_space_end(&input[0..n]);
    let rest = &input[n + 1..input.len()];
    match str_from_utf8(key_bytes) {
        Some(key) => Ok(Some((rest, key))),
        None => Err(ParseErrorKind::KeyInvalidUtf8),
    }
}

/// The index of the quote that closes a quoted value, scanning from `from`
/// with `count` quotes seen so far; the length of `s` where none closes it.
///
/// A quote closes the value when a space or a line feed follows it and the
/// count of quotes, this one included, is even. Quotes inside a value are
/// thus allowed as long as they come in pairs.
pub open spec fn closing_quote(s: Seq<u8>, from: int, count: int) -> int
    decreases s.len() - from,
{
    if from >= s.len() {
        s.len() as int
    } else if s[from] == QUOTE {
        if from + 1 < s.len() && (s[from + 1] == SPACE || s[from + 1] == NEWLINE) && (count + 1)
            % 2 == 0 {
            from
        } else {
            closing_quote(s, from + 1, count + 1)
        }
    } else {
        closing_quote(s, from + 1, count)
    }
}

/// A value, and the input after it.
pub struct ValueScan {
    pub value: Seq<u8>,
    pub rest: Seq<u8>,
}

/// The bare value at the start of `input`: it runs to the first space, which
/// stays in the input, or to the end of the input. A tab or a line feed
/// does not end it.
pub open spec fn scan_naked_value(input: Seq<u8>) -> ValueScan {
    let n = first_mark(input, Mark::BareEnd, 0);
    ValueScan { value: input.take(n), rest: input.skip(n) }
}

/// The quoted value at the start of `input`, which begins with a quote: the
/// bytes between that quote and the closing one. Where no quote closes the
/// value, it is all that follows the opening quote.
pub open spec fn scan_quoted_value(input: Seq<u8>) -> ValueScan {
    let n = closing_quote(input, 1, 1);
    ValueScan {
        value: input.subrange(1, n),
        rest: if n == input.len() {
            Seq::empty()
        } else {
            input.skip(n + 1)
        },
    }
}

/// Whether the value at the start of `input` is a quoted one.
pub open spec fn starts_quoted(input: Seq<u8>) -> bool {
    let i = without_leading_space(input);
    i.len() > 0 && i[0] == QUOTE
}

/// The value at the start of `input`, after any spaces and tabs.
pub open spec fn scan_value(input: Seq<u8>) -> ValueScan {
    if starts_quoted(input) {
        scan_quoted_value(without_leading_space(input))
    } else {
        scan_naked_value(without_leading_space(input))
    }
}

/// `closing_quote` stays within the sequence.
pub proof fn lemma_closing_quote(s: Seq<u8>, from: int, count: int)
    requires
        0 <= from <= s.len(),
    ensures
        from <= closing_quote(s, from, count) <= s.len(),
        closing_quote(s, from, count) < s.len() ==> closing_quote(s, from, count) + 1 < s.len(),
    decreases s.len() - from,
{
    if from < s.len() {
        if s[from] == QUOTE {
            if from + 1 < s.len() && (s[from + 1] == SPACE || s[from + 1] == NEWLINE) && (count
                + 1) % 2 == 0 {
            } else {
                lemma_closing_quote(s, from + 1, count + 1);
            }
        } else {
            lemma_closing_quote(s, from + 1, count);
        }
    }
}

/// Returns `(remaining_input, value)`.
pub fn parse_value<'a>(input: &'a [u8]) -> (r: (&'a [u8], &'a [u8]))
    ensures
        r.0@ == scan_value(input@).rest,
        r.1@ == scan_value(input@).value,
{
    let input = eat_space(input);
    if input.len() > 0 && input[0] == QUOTE {
        parse_qouted_value(input)
    } else {
        parse_naked_value(input)
    }
}

/// See [`parse_value`], expects `input` to contain a quoted value, i.e. it
/// starts with `"`.
pub fn parse_qouted_value<'a>(input: &'a [u8]) -> (r: (&'a [u8], &'a [u8]))
    requires
        input@.len() > 0,
        input@[0] == QUOTE,
    ensures
        r.0@ == scan_quoted_value(input@).rest,
        r.1@ == scan_quoted_value(input@).value,
{
    let mut i: usize = 1;
    let mut even: bool = false;
    let ghost mut count: int = 1;
    while i < input.len()
        invariant_except_break
            closing_quote(input@, 1, 1) == closing_quote(input@, i as int, count),
        invariant
            1 <= i <= input@.len(),
            even == (count % 2 == 0),
        ensures
            i == closing_quote(input@, 1, 1),
        decreases input@.len() - i,
    {
        if input[i] == QUOTE {
            if !even && i + 1 < input.len() && (input[i + 1] == SPACE || input[i + 1] == NEWLINE) {
                break;
            }
            even = !even;
            proof {
                count = count + 1;
            }
        }
        i += 1;
    }
    let value = &input[1..i];
    if i == input.len() {
        (&input[i..i], value)
    } else {
        (&input[i + 1..input.len()], value)
    }
}

/// Parses a single value, expecting a space (` `) as value end.
pub fn parse_naked_value<'a>(input: &'a [u8]) -> (r: (&'a [u8], &'a [u8]))
    ensures
        r.0@ == scan_naked_value(input@).rest,
        r.1@ == scan_naked_value(input@).value,
{
    let n = find_mark(input, Mark::BareEnd, 0);
    (&input[n..input.len()], &input[0..n])
}

/// What is left after the spaces and tabs is a suffix of the input that
/// starts with neither.
pub proof fn lemma_without_leading_space(input: Seq<u8>)
    ensures
        without_leading_space(input).len() <= input.len(),
        without_leading_space(input) == input.skip(
            input.len() - without_leading_space(input).len(),
        ),
        without_leading_space(input).len() > 0 ==> !is_hspace(without_leading_space(input)[0]),
        without_leading_space(without_leading_space(input)) == without_leading_space(input),
{
    lemma_first_mark(input, Mark::Filled, 0);
    let rest = without_leading_space(input);
    lemma_first_mark(rest, Mark::Filled, 0);
    if rest.len() > 0 {
        assert(first_mark(rest, Mark::Filled, 0) == 0);
    }
    assert(rest.skip(0) =~= rest);
}

/// What is left after a key is a shorter suffix of the input.
pub proof fn lemma_scan_key(input: Seq<u8>)
    ensures
        scan_key(input) matches KeyScan::Key { key, rest } ==> rest.len() < input.len() && rest
            == input.skip(input.len() - rest.len()),
{
    lemma_first_mark(input, Mark::Equals, 0);
}

/// What is left after a value is a suffix of the input.
pub proof fn lemma_scan_value(input: Seq<u8>)
    ensures
        scan_value(input).rest.len() <= input.len(),
        scan_value(input).rest == input.skip(input.len() - scan_value(input).rest.len()),
{
    lemma_without_leading_space(input);
    let i = without_leading_space(input);
    let k = input.len() - i.len();
    if starts_quoted(input) {
        lemma_closing_quote(i, 1, 1);
        let n = closing_quote(i, 1, 1);
        if n == i.len() {
            assert(scan_value(input).rest =~= input.skip(input.len() as int));
        } else {
            assert(i.skip(n + 1) =~= input.skip(k + n + 1));
        }
    } else {
        lemma_first_mark(i, Mark::BareEnd, 0);
        let n = first_mark(i, Mark::BareEnd, 0);
        assert(i.skip(n) =~= input.skip(k + n));
    }
}

/// Where input that holds more than spaces and tabs grows at its end, what
/// is left after them grows by the same bytes.
pub proof fn lemma_without_leading_space_extend(input: Seq<u8>, more: Seq<u8>)
    requires
        without_leading_space(input).len() > 0,
    ensures
        without_leading_space(input + more) == without_leading_space(input) + more,
{
    lemma_first_mark(input, Mark::Filled, 0);
    lemma_first_mark_extend(input, more, Mark::Filled, 0);
    let n = first_mark(input, Mark::Filled, 0);
    assert((input + more).skip(n) =~= input.skip(n) + more);
}

/// A line that ends in the input is the same line where the input grows.
pub proof fn lemma_first_line_extend(input: Seq<u8>, more: Seq<u8>)
    requires
        first_line(input).len() < input.len(),
    ensures
        first_line(input + more) == first_line(input),
{
    lemma_first_mark(input, Mark::Newline, 0);
    lemma_first_mark_extend(input, more, Mark::Newline, 0);
    let n = first_mark(input, Mark::Newline, 0);
    assert((input + more).take(n) =~= input.take(n));
}

/// A key found in the input is the same key where the input grows, and what
/// is left after it grows by the same bytes.
pub proof fn lemma_scan_key_extend(input: Seq<u8>, more: Seq<u8>)
    requires
        scan_key(input) !is Incomplete,
    ensures
        scan_key(input) is Invalid ==> scan_key(input + more) is Invalid,
        scan_key(input) matches KeyScan::Key { key, rest } ==> scan_key(input + more)
            == (KeyScan::Key { key, rest: rest + more }),
{
    lemma_first_mark(input, Mark::Equals, 0);
    lemma_first_mark_extend(input, more, Mark::Equals, 0);
    let n = first_mark(input, Mark::Equals, 0);
    assert((input + more).take(n) =~= input.take(n));
    assert((input + more).skip(n + 1) =~= input.skip(n + 1) + more);
}

/// A closing quote found in the input is found at the same place where the
/// input grows.
pub proof fn lemma_closing_quote_extend(s: Seq<u8>, more: Seq<u8>, from: int, count: int)
    requires
        0 <= from <= s.len(),
        closing_quote(s, from, count) < s.len(),
    ensures
        closing_quote(s + more, from, count) == closing_quote(s, from, count),
    decreases s.len() - from,
{
    if from < s.len() {
        let w = s + more;
        assert(w[from] == s[from]);
        if s[from] == QUOTE {
            if from + 1 < s.len() && (s[from + 1] == SPACE || s[from + 1] == NEWLINE) && (count
                + 1) % 2 == 0 {
                assert(w[from + 1] == s[from + 1]);
            } else {
                if from + 1 < s.len() {
                    assert(w[from + 1] == s[from + 1]);
                }
                lemma_closing_quote_extend(s, more, from + 1, count + 1);
            }
        } else {
            lemma_closing_quote_extend(s, more, from + 1, count);
        }
    }
}

/// A value that ends before the input does is the same value where the
/// input grows, and what is left after it grows by the same bytes.
pub proof fn lemma_scan_value_extend(input: Seq<u8>, more: Seq<u8>)
    requires
        scan_value(input).rest.len() > 0,
    ensures
        scan_value(input + more).value == scan_value(input).value,
        scan_value(input + more).rest == scan_value(input).rest + more,
        starts_quoted(input + more) == starts_quoted(input),
{
    lemma_without_leading_space(input);
    let i = without_leading_space(input);
    if i.len() == 0 {
        lemma_first_mark(i, Mark::BareEnd, 0);
        assert(scan_value(input).rest.len() == 0);
    } else {
        lemma_without_leading_space_extend(input, more);
        let w = i + more;
        assert(w[0] == i[0]);
        if starts_quoted(input) {
            lemma_closing_quote(i, 1, 1);
            let n = closing_quote(i, 1, 1);
            lemma_closing_quote_extend(i, more, 1, 1);
            assert(w.subrange(1, n) =~= i.subrange(1, n));
            assert(w.skip(n + 1) =~= i.skip(n + 1) + more);
        } else {
            lemma_first_mark(i, Mark::BareEnd, 0);
            let n = first_mark(i, Mark::BareEnd, 0);
            lemma_first_mark_extend(i, more, Mark::BareEnd, 0);
            assert(w.take(n) =~= i.take(n));
            assert(w.skip(n) =~= i.skip(n) + more);
        }
    }
}

} // verus!
