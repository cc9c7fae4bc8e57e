//! Byte classes, and the places in a byte sequence where a class first or
//! last occurs.

use vstd::prelude::*;
use vstd::utf8::*;
use vstd::string::*;

verus! {

/// The byte of a space.
pub const SPACE: u8 = 0x20;

/// The byte of a horizontal tab.
pub const TAB: u8 = 0x09;

/// The byte of a line feed.
pub const NEWLINE: u8 = 0x0a;

/// The byte of `=`.
pub const EQUALS: u8 = 0x3d;

/// The byte of `"`.
pub const QUOTE: u8 = 0x22;

/// The byte of `:`.
pub const COLON: u8 = 0x3a;

/// The byte of `,`.
pub const COMMA: u8 = 0x2c;

/// A class of bytes that a scan stops at.
#[derive(Clone, Copy, Debug)]
pub enum Mark {
    /// Any byte but a space or a tab.
    Filled,
    /// The sign `=`.
    Equals,
    /// A space: what ends a bare value.
    BareEnd,
    /// A line feed.
    Newline,
    /// Any byte but a decimal digit.
    NoDigit,
    /// A comma.
    Comma,
}

/// Whether `b` is a space or a tab.
pub open spec fn is_hspace(b: u8) -> bool {
    b == SPACE || b == TAB
}

/// Whether `b` is a decimal digit.
pub open spec fn is_digit(b: u8) -> bool {
    0x30 <= b <= 0x39
}

/// Whether `b` belongs to the class `m`.
pub open spec fn marks(m: Mark, b: u8) -> bool {
    match m {
        Mark::Filled => !is_hspace(b),
        Mark::Equals => b == EQUALS,
        Mark::BareEnd => b == SPACE,
        Mark::Newline => b == NEWLINE,
        Mark::NoDigit => !is_digit(b),
        Mark::Comma => b == COMMA,
    }
}

/// The index of the first byte of class `m` at or after `from`, or the length
/// of `s` where there is none.
pub open spec fn first_mark(s: Seq<u8>, m: Mark, from: int) -> int
    decreases s.len() - from,
{
    if from >= s.len() {
        s.len() as int
    } else if marks(m, s[from]) {
        from
    } else {
        first_mark(s, m, from + 1)
    }
}

/// The length of `s[..n]` once the spaces and tabs at its end are cut off.
pub open spec fn trimmed_len(s: Seq<u8>, n: int) -> int
    decreases n,
{
    if n <= 0 {
        0
    } else if is_hspace(s[n - 1]) {
        trimmed_len(s, n - 1)
    } else {
        n
    }
}

/// `first_mark` is the one index that has no byte of the class before it and
/// either ends the sequence or holds a byte of the class.
pub proof fn lemma_first_mark(s: Seq<u8>, m: Mark, from: int)
    requires
        0 <= from <= s.len(),
    ensures
        from <= first_mark(s, m, from) <= s.len(),
        forall|j: int| from <= j < first_mark(s, m, from) ==> !marks(m, #[trigger] s[j]),
        first_mark(s, m, from) < s.len() ==> marks(m, s[first_mark(s, m, from)]),
    decreases s.len() - from,
{
    if from < s.len() && !marks(m, s[from]) {
        lemma_first_mark(s, m, from + 1);
    }
}

/// Any index with the properties of `first_mark` is `first_mark`.
pub proof fn lemma_first_mark_is(s: Seq<u8>, m: Mark, from: int, n: int)
    requires
        0 <= from <= n <= s.len(),
        forall|j: int| from <= j < n ==> !marks(m, #[trigger] s[j]),
        n < s.len() ==> marks(m, s[n]),
    ensures
        first_mark(s, m, from) == n,
    decreases n - from,
{
    if from < n {
        lemma_first_mark_is(s, m, from + 1, n);
    }
}

/// A mark found in `s` is found at the same place in `s + t`.
pub proof fn lemma_first_mark_extend(s: Seq<u8>, t: Seq<u8>, m: Mark, from: int)
    requires
        0 <= from <= s.len(),
        first_mark(s, m, from) < s.len(),
    ensures
        first_mark(s + t, m, from) == first_mark(s, m, from),
{
    lemma_first_mark(s, m, from);
    let n = first_mark(s, m, from);
    assert forall|j: int| from <= j < n implies !marks(m, #[trigger] (s + t)[j]) by {
        assert((s + t)[j] == s[j]);
    }
    assert((s + t)[n] == s[n]);
    lemma_first_mark_is(s + t, m, from, n);
}

/// Whether `b` belongs to the class `m`.
pub fn is_mark(m: Mark, b: u8) -> (r: bool)
    ensures
        r == marks(m, b),
{
    match m {
        Mark::Filled => b != SPACE && b != TAB,
        Mark::Equals => b == EQUALS,
        Mark::BareEnd => b == SPACE,
        Mark::Newline => b == NEWLINE,
        Mark::NoDigit => b < 0x30 || b > 0x39,
        Mark::Comma => b == COMMA,
    }
}

/// Finds the first byte of class `m` at or after `from`.
pub fn find_mark(input: &[u8], m: Mark, from: usize) -> (i: usize)
    requires
        from <= input@.len(),
    ensures
        i == first_mark(input@, m, from as int),
        from <= i <= input@.len(),
{
    let mut i: usize = from;
    while i < input.len() && !is_mark(m, input[i])
        invariant
            from <= i <= input@.len(),
            first_mark(input@, m, from as int) == first_mark(input@, m, i as int),
        decreases input@.len() - i,
    {
        i += 1;
    }
    i
}

/// Whether two byte strings are the same.
pub fn bytes_eq(a: &[u8], b: &[u8]) -> (r: bool)
    ensures
        r == (a@ == b@),
{
    if a.len() != b.len() {
        return false;
    }
    let mut i: usize = 0;
    while i < a.len()
        invariant
            i <= a@.len(),
            a@.len() == b@.len(),
            forall|j: int| 0 <= j < i ==> a@[j] == b@[j],
        decreases a@.len() - i,
    {
        if a[i] != b[i] {
            return false;
        }
        i += 1;
    }
    assert(a@ =~= b@);
    true
}

/// Whether `input` is the text `word`, byte for byte.
pub fn is_text(input: &[u8], word: &str) -> (r: bool)
    ensures
        r == (input@ == encode_utf8(word@)),
{
    bytes_eq(input, word.as_bytes())
}

/// Two texts with the same UTF-8 bytes are the same text.
pub proof fn lemma_same_bytes_same_text(a: Seq<char>, b: Seq<char>)
    ensures
        (encode_utf8(a) == encode_utf8(b)) <==> a == b,
{
    encode_utf8_decode_utf8(a);
    encode_utf8_decode_utf8(b);
}

/// Reads `bytes` as UTF-8 text.
///
/// Rests on `core::str::from_utf8`: it accepts exactly the well-formed UTF-8
/// byte strings, and the string slice it gives is those same bytes.
#[verifier::external_body]
pub(crate) fn str_from_utf8(bytes: &[u8]) -> (r: Option<&str>)
    ensures
        r is Some <==> valid_utf8(bytes@),
        r matches Some(s) ==> s.spec_bytes() == bytes@ && s@ == decode_utf8(bytes@),
{
    match core::str::from_utf8(bytes) {
        Ok(s) => Some(s),
        Err(_) => None,
    }
}

} // verus!
