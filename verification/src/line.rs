//! The line assembler: it takes the pairs of one line from the input and
//! fills a record with them.

use vstd::prelude::*;
use vstd::slice::slice_to_vec;
use vstd::utf8::*;
use vstd::string::*;
use crate::bytes::{
    first_mark, is_text, lemma_first_mark, lemma_first_mark_is, lemma_same_bytes_same_text,
    marks, Mark, NEWLINE,
};
use crate::error::{ErrorView, ParseError, ParseErrorKind};
use crate::level::{level_of, parse_log_level};
use crate::record::{empty_record, file_of, parse_file, parse_string, Record, RecordView};
use crate::scan::{
    eat_space, first_line, lemma_first_line_extend, lemma_scan_key, lemma_scan_key_extend,
    lemma_scan_value, lemma_scan_value_extend, lemma_without_leading_space,
    lemma_without_leading_space_extend, parse_key, parse_value, scan_key, scan_value,
    single_line, without_leading_space, KeyScan,
};
use crate::time::{parse_timestamp, timestamp_of};
use crate::value::{infer, Value};

verus! {

/// What a key means.
pub enum Field {
    /// `ts`: when the record was logged.
    Timestamp,
    /// `lvl`: how severe it is.
    Level,
    /// `msg`: the message.
    Message,
    /// `target`: what it is about.
    Target,
    /// `module`: the module that logged it.
    Module,
    /// `file`: the source file and line that logged it.
    File,
    /// Any other key: one of the key-value pairs.
    Other,
}

/// What the key `key` means.
pub open spec fn field_of(key: Seq<char>) -> Field {
    if key == "ts"@ {
        Field::Timestamp
    } else if key == "lvl"@ {
        Field::Level
    } else if key == "msg"@ {
        Field::Message
    } else if key == "target"@ {
        Field::Target
    } else if key == "module"@ {
        Field::Module
    } else if key == "file"@ {
        Field::File
    } else {
        Field::Other
    }
}

/// The record `record` once `key` has been given the value written by
/// `value`, or the error that `value` is for that key. A value given to a
/// key that has one already replaces it.
pub open spec fn assign(record: RecordView, key: Seq<char>, value: Seq<u8>) -> Result<
    RecordView,
    ParseErrorKind,
> {
    match field_of(key) {
        Field::Timestamp => match timestamp_of(value) {
            Some(timestamp) => Ok(RecordView { timestamp: Some(timestamp), ..record }),
            None => Err(ParseErrorKind::InvalidTimestamp),
        },
        Field::Level => match level_of(value) {
            Some(level) => Ok(RecordView { level, ..record }),
            None => Err(ParseErrorKind::InvalidLevel),
        },
        Field::File => match file_of(value) {
            Some(file) => Ok(RecordView { file: Some(file), ..record }),
            None => Err(ParseErrorKind::InvalidFile),
        },
        field => if !valid_utf8(value) {
            Err(ParseErrorKind::InvalidValue)
        } else {
            let text = decode_utf8(value);
            Ok(
                match field {
                    Field::Message => RecordView { msg: text, ..record },
                    Field::Target => RecordView { target: text, ..record },
                    Field::Module => RecordView { module: Some(text), ..record },
                    _ => RecordView {
                        key_values: record.key_values.insert(key, infer(text)),
                        ..record
                    },
                },
            )
        },
    }
}

/// What one line of input turns out to be.
pub enum LineView {
    /// A record: at least one key was given a value.
    Record(RecordView),
    /// Nothing but spaces and tabs.
    Blank,
    /// The input ends before the line does, and more may follow.
    Incomplete,
    /// A key or a value of the line is invalid.
    Bad(ErrorView),
}

/// One line of input, and the number of bytes of input that it takes up.
pub struct Scan {
    pub line: LineView,
    pub used: int,
}

/// The error of kind `kind` for the line at the start of `whole`. The line
/// runs to the first line feed, and is passed over together with it.
pub open spec fn bad_line(whole: Seq<u8>, kind: ParseErrorKind) -> Scan {
    let line = first_line(whole);
    Scan {
        line: LineView::Bad(ErrorView { line: Some(line), kind }),
        used: if line.len() < whole.len() {
            line.len() as int + 1
        } else {
            line.len() as int
        },
    }
}

/// The line at the start of `whole`, of which `input` is still to be read
/// and whose pairs so far have made `record`; `filled` says whether there
/// were any, and `eof` whether the input ends for good where `whole` ends.
///
/// After any spaces and tabs, the line ends at a line feed, which belongs
/// to it, or where the input ends. Else a key and its value follow. The
/// line is incomplete where the input holds no `=` for the key, or where
/// the value runs to the end of the input and more input may come.
pub open spec fn rest_of_line(
    whole: Seq<u8>,
    input: Seq<u8>,
    record: RecordView,
    filled: bool,
    eof: bool,
) -> Scan
    decreases input.len(),
{
    let start = without_leading_space(input);
    if start.len() == 0 || start[0] == NEWLINE {
        Scan {
            line: if filled {
                LineView::Record(record)
            } else {
                LineView::Blank
            },
            used: whole.len() - start.len() + if start.len() == 0 {
                0int
            } else {
                1int
            },
        }
    } else {
        match scan_key(start) {
            KeyScan::Incomplete => Scan { line: LineView::Incomplete, used: 0 },
            KeyScan::Invalid => bad_line(whole, ParseErrorKind::KeyInvalidUtf8),
            KeyScan::Key { key, rest } => {
                let value = scan_value(rest);
                if value.rest.len() == 0 && !eof {
                    Scan { line: LineView::Incomplete, used: 0 }
                } else {
                    match assign(record, decode_utf8(key), value.value) {
                        Err(kind) => bad_line(whole, kind),
                        Ok(record) => {
                            proof {
                                lemma_without_leading_space(input);
                                lemma_scan_key(start);
                                lemma_scan_value(rest);
                            }
                            rest_of_line(whole, value.rest, record, true, eof)
                        },
                    }
                }
            },
        }
    }
}

/// The line at the start of `input`.
pub open spec fn line_of(input: Seq<u8>, eof: bool) -> Scan {
    rest_of_line(input, input, empty_record(), false, eof)
}

/// What one line of input turns out to be.
#[derive(Debug)]
pub enum Line {
    /// A record: at least one key was given a value.
    Record(Record),
    /// Nothing but spaces and tabs.
    Blank,
    /// The input ends before the line does, and more may follow.
    Incomplete,
    /// A key or a value of the line is invalid.
    Bad(ParseError),
}

impl View for Line {
    type V = LineView;

    open spec fn view(&self) -> LineView {
        match self {
            Line::Record(record) => LineView::Record(record@),
            Line::Blank => LineView::Blank,
            Line::Incomplete => LineView::Incomplete,
            Line::Bad(error) => LineView::Bad(error@),
        }
    }
}

/// Makes the error of kind `kind` for the line at the start of `whole`, and
/// counts the bytes to pass over.
pub fn create_line_error(whole: &[u8], kind: ParseErrorKind) -> (r: (Line, usize))
    ensures
        r.0@ == bad_line(whole@, kind).line,
        r.1 == bad_line(whole@, kind).used,
{
    let line = single_line(whole);
    let used = if line.len() < whole.len() {
        line.len() + 1
    } else {
        line.len()
    };
    (Line::Bad(ParseError { line: Some(slice_to_vec(line)), kind }), used)
}

/// Gives `key` the value written by `value`. Where the value is invalid for
/// the key, the record stays as it is.
pub fn set_field(record: &mut Record, key: &str, value: &[u8]) -> (r: Result<(), ParseErrorKind>)
    ensures
        match assign(old(record)@, key@, value@) {
            Ok(assigned) => r is Ok && final(record)@ == assigned,
            Err(kind) => r == Err::<(), ParseErrorKind>(kind) && final(record)@ == old(record)@,
        },
{
    let name = key.as_bytes();
    proof {
        lemma_same_bytes_same_text(key@, "ts"@);
        lemma_same_bytes_same_text(key@, "lvl"@);
        lemma_same_bytes_same_text(key@, "msg"@);
        lemma_same_bytes_same_text(key@, "target"@);
        lemma_same_bytes_same_text(key@, "module"@);
        lemma_same_bytes_same_text(key@, "file"@);
    }
    if is_text(name, "ts") {
        match parse_timestamp(value) {
            Ok(timestamp) => {
                record.timestamp = Some(timestamp);
                Ok(())
            },
            Err(kind) => Err(kind),
        }
    } else if is_text(name, "lvl") {
        match parse_log_level(value) {
            Ok(level) => {
                record.level = level;
                Ok(())
            },
            Err(kind) => Err(kind),
        }
    } else if is_text(name, "msg") {
        match parse_string(value) {
            Ok(msg) => {
                record.msg = msg.to_owned();
                Ok(())
            },
            Err(kind) => Err(kind),
        }
    } else if is_text(name, "target") {
        match parse_string(value) {
            Ok(target) => {
                record.target = target.to_owned();
                Ok(())
            },
            Err(kind) => Err(kind),
        }
    } else if is_text(name, "module") {
        match parse_string(value) {
            Ok(module) => {
                record.module = Some(module.to_owned());
                Ok(())
            },
            Err(kind) => Err(kind),
        }
    } else if is_text(name, "file") {
        match parse_file(value) {
            Ok((file, line)) => {
                record.file = Some((file.to_owned(), line));
                Ok(())
            },
            Err(kind) => Err(kind),
        }
    } else {
        match parse_string(value) {
            Ok(text) => {
                record.key_values.insert(key.to_owned(), Value::from_str(text));
                Ok(())
            },
            Err(kind) => Err(kind),
        }
    }
}

/// Reads the line at the start of `whole`. Returns what it is and how many
/// bytes of `whole` it takes up, which is none for an incomplete line.
pub fn parse_line(whole: &[u8], hit_eof: bool) -> (r: (Line, usize))
    ensures
        r.0@ == line_of(whole@, hit_eof).line,
        r.1 == line_of(whole@, hit_eof).used,
        r.1 <= whole@.len(),
{
    let mut record = Record::empty();
    let mut record_is_empty = true;
    let mut input = whole;
    loop
        invariant
            input@.len() <= whole@.len(),
            line_of(whole@, hit_eof) == rest_of_line(
                whole@,
                input@,
                record@,
                !record_is_empty,
                hit_eof,
            ),
        decreases input@.len(),
    {
        proof {
            lemma_without_leading_space(input@);
        }
        input = eat_space(input);
        if input.len() == 0 || input[0] == NEWLINE {
            // Mark the line (line feed included) as parsed.
            let used = (whole.len() - input.len()) + if input.len() == 0 {
                0
            } else {
                1
            };
            if record_is_empty {
                return (Line::Blank, used);
            } else {
                return (Line::Record(record), used);
            }
        }
        proof {
            lemma_scan_key(input@);
        }
        let (rest, key) = match parse_key(input) {
            Ok(Some(found)) => found,
            Ok(None) => {
                return (Line::Incomplete, 0);
            },
            Err(kind) => {
                proof {
                    lemma_bad_line(whole@, kind);
                }
                return create_line_error(whole, kind);
            },
        };
        proof {
            lemma_scan_value(rest@);
            lemma_bad_line(whole@, ParseErrorKind::InvalidValue);
        }
        let (rest, value) = parse_value(rest);
        if rest.len() == 0 && !hit_eof {
            // More input may follow, and the value may go on in it.
            return (Line::Incomplete, 0);
        }
        match set_field(&mut record, key, value) {
            Ok(()) => {},
            Err(kind) => {
                proof {
                    lemma_bad_line(whole@, kind);
                }
                return create_line_error(whole, kind);
            },
        }
        // If we get to here we've assigned at least a single field so we
        // want to keep the record.
        record_is_empty = false;
        input = rest;
    }
}

/// A line takes up no more input than there is; an incomplete line takes
/// up none, and any other line at least one byte, unless there is none.
pub proof fn lemma_rest_of_line(
    whole: Seq<u8>,
    input: Seq<u8>,
    record: RecordView,
    filled: bool,
    eof: bool,
)
    requires
        input.len() <= whole.len(),
    ensures
        0 <= rest_of_line(whole, input, record, filled, eof).used <= whole.len(),
        rest_of_line(whole, input, record, filled, eof).line is Incomplete ==> rest_of_line(
            whole,
            input,
            record,
            filled,
            eof,
        ).used == 0,
        rest_of_line(whole, input, record, filled, eof).line !is Incomplete && whole.len() > 0
            ==> rest_of_line(whole, input, record, filled, eof).used > 0,
        rest_of_line(whole, input, record, filled, eof).line is Blank ==> !filled,
    decreases input.len(),
{
    lemma_without_leading_space(input);
    let start = without_leading_space(input);
    if start.len() == 0 || start[0] == NEWLINE {
    } else {
        lemma_bad_line(whole, ParseErrorKind::KeyInvalidUtf8);
        lemma_bad_line(whole, ParseErrorKind::InvalidValue);
        match scan_key(start) {
            KeyScan::Key { key, rest } => {
                lemma_scan_key(start);
                lemma_scan_value(rest);
                let value = scan_value(rest);
                match assign(record, decode_utf8(key), value.value) {
                    Err(kind) => {
                        lemma_bad_line(whole, kind);
                    },
                    Ok(assigned) => {
                        lemma_rest_of_line(whole, value.rest, assigned, true, eof);
                    },
                }
            },
            _ => {},
        }
    }
}

/// The line of an error stays within the input, and is not empty unless the
/// input is.
pub proof fn lemma_bad_line(whole: Seq<u8>, kind: ParseErrorKind)
    ensures
        0 <= bad_line(whole, kind).used <= whole.len(),
        whole.len() > 0 ==> bad_line(whole, kind).used > 0,
        bad_line(whole, kind).line is Bad,
{
    lemma_first_mark(whole, Mark::Newline, 0);
}

/// Whether the line `scan` at the start of `whole` is complete and ends
/// with a line feed.
pub open spec fn ends_at_newline(whole: Seq<u8>, scan: Scan) -> bool {
    &&& scan.line !is Incomplete
    &&& 1 <= scan.used <= whole.len()
    &&& whole[scan.used - 1] == NEWLINE
}

/// What becomes of a line when the input grows by `more`, for a line that
/// was not incomplete. An error stays an error of its kind. A line that
/// ended with a line feed stays as it is. A line that ended where the input
/// did goes on in `more`, with the record made so far.
pub proof fn lemma_rest_of_line_grow(
    whole: Seq<u8>,
    input: Seq<u8>,
    record: RecordView,
    filled: bool,
    more: Seq<u8>,
    eof: bool,
)
    requires
        input.len() <= whole.len(),
        input.len() > 0 || whole.len() == 0,
        input == whole.skip(whole.len() - input.len()),
        rest_of_line(whole, input, record, filled, false).line !is Incomplete,
    ensures
        ({
            let scan = rest_of_line(whole, input, record, filled, false);
            let grown = rest_of_line(whole + more, input + more, record, filled, eof);
            match scan.line {
                LineView::Bad(error) => grown == bad_line(whole + more, error.kind),
                LineView::Record(made) => if ends_at_newline(whole, scan) {
                    grown == scan
                } else {
                    grown == rest_of_line(whole + more, more, made, true, eof)
                },
                _ => if ends_at_newline(whole, scan) {
                    grown == scan
                } else {
                    !filled && grown == rest_of_line(whole + more, more, record, false, eof)
                },
            }
        }),
    decreases input.len(),
{
    let scan = rest_of_line(whole, input, record, filled, false);
    lemma_without_leading_space(input);
    lemma_without_leading_space(more);
    let start = without_leading_space(input);
    lemma_first_mark(input, Mark::Filled, 0);
    lemma_first_mark(more, Mark::Filled, 0);
    if start.len() == 0 {
        // All of `input` is spaces and tabs: the line goes on in `more`.
        if input.len() > 0 {
            assert(whole[whole.len() - 1] == input[input.len() - 1]);
            assert(!marks(Mark::Filled, input[input.len() - 1]));
        }
        let n = input.len() + first_mark(more, Mark::Filled, 0);
        assert forall|j: int| 0 <= j < n implies !marks(Mark::Filled, #[trigger] (input + more)[j]) by {
            if j < input.len() {
                assert((input + more)[j] == input[j]);
            } else {
                assert((input + more)[j] == more[j - input.len()]);
            }
        }
        if n < (input + more).len() {
            assert((input + more)[n] == more[n - input.len()]);
        }
        lemma_first_mark_is(input + more, Mark::Filled, 0, n);
        assert(without_leading_space(input + more) =~= without_leading_space(more));
    } else {
        lemma_without_leading_space_extend(input, more);
        assert((start + more)[0] == start[0]);
        assert(start[0] == whole[whole.len() - start.len()]);
        if start[0] == NEWLINE {
        } else {
            match scan_key(start) {
                KeyScan::Incomplete => {},
                KeyScan::Invalid => {
                    lemma_scan_key_extend(start, more);
                },
                KeyScan::Key { key, rest } => {
                    lemma_scan_key_extend(start, more);
                    lemma_scan_key(start);
                    lemma_scan_value(rest);
                    let value = scan_value(rest);
                    if value.rest.len() > 0 {
                        lemma_scan_value_extend(rest, more);
                        match assign(record, decode_utf8(key), value.value) {
                            Err(kind) => {},
                            Ok(assigned) => {
                                assert(value.rest =~= whole.skip(whole.len() - value.rest.len()))
                                    by {
                                    assert(start == whole.skip(whole.len() - start.len()));
                                    assert(rest == whole.skip(whole.len() - rest.len()));
                                }
                                lemma_rest_of_line(whole, value.rest, assigned, true, false);
                                lemma_rest_of_line_grow(
                                    whole,
                                    value.rest,
                                    assigned,
                                    true,
                                    more,
                                    eof,
                                );
                            },
                        }
                    }
                },
            }
        }
    }
}

/// What becomes of a line when input is put before it that belongs to the
/// line but holds none of its pairs: the line takes up that input too, and
/// where it is an error, it is the error of the longer line.
pub proof fn lemma_rest_of_line_shift(
    before: Seq<u8>,
    whole: Seq<u8>,
    input: Seq<u8>,
    record: RecordView,
    filled: bool,
    eof: bool,
)
    requires
        input.len() <= whole.len(),
    ensures
        ({
            let scan = rest_of_line(whole, input, record, filled, eof);
            let shifted = rest_of_line(before + whole, input, record, filled, eof);
            match scan.line {
                LineView::Bad(error) => shifted == bad_line(before + whole, error.kind),
                LineView::Incomplete => shifted == scan,
                _ => shifted.line == scan.line && shifted.used == scan.used + before.len(),
            }
        }),
    decreases input.len(),
{
    lemma_without_leading_space(input);
    let start = without_leading_space(input);
    if start.len() == 0 || start[0] == NEWLINE {
    } else {
        match scan_key(start) {
            KeyScan::Key { key, rest } => {
                lemma_scan_key(start);
                lemma_scan_value(rest);
                let value = scan_value(rest);
                if !(value.rest.len() == 0 && !eof) {
                    match assign(record, decode_utf8(key), value.value) {
                        Err(kind) => {},
                        Ok(assigned) => {
                            lemma_rest_of_line_shift(before, whole, value.rest, assigned, true, eof);
                        },
                    }
                }
            },
            _ => {},
        }
    }
}

/// A line that is complete and does not end with a line feed ends where
/// the input does.
pub proof fn lemma_open_line(
    whole: Seq<u8>,
    input: Seq<u8>,
    record: RecordView,
    filled: bool,
    eof: bool,
)
    requires
        input.len() <= whole.len(),
        input == whole.skip(whole.len() - input.len()),
        rest_of_line(whole, input, record, filled, eof).line !is Incomplete,
        !ends_at_newline(whole, rest_of_line(whole, input, record, filled, eof)),
    ensures
        rest_of_line(whole, input, record, filled, eof).used == whole.len(),
    decreases input.len(),
{
    lemma_without_leading_space(input);
    let start = without_leading_space(input);
    lemma_first_mark(whole, Mark::Newline, 0);
    if start.len() == 0 {
    } else {
        assert(start[0] == whole[whole.len() - start.len()]);
        if start[0] == NEWLINE {
        } else {
            match scan_key(start) {
                KeyScan::Key { key, rest } => {
                    lemma_scan_key(start);
                    lemma_scan_value(rest);
                    let value = scan_value(rest);
                    if !(value.rest.len() == 0 && !eof) {
                        match assign(record, decode_utf8(key), value.value) {
                            Err(kind) => {},
                            Ok(assigned) => {
                                assert(value.rest =~= whole.skip(whole.len() - value.rest.len()))
                                    by {
                                    assert(start == whole.skip(whole.len() - start.len()));
                                    assert(rest == whole.skip(whole.len() - rest.len()));
                                }
                                lemma_open_line(whole, value.rest, assigned, true, eof);
                            },
                        }
                    }
                },
                _ => {},
            }
        }
    }
}

/// In input that ends with a line feed and goes on, a line is incomplete or
/// ends with a line feed.
pub proof fn lemma_rest_of_line_closed(
    whole: Seq<u8>,
    input: Seq<u8>,
    record: RecordView,
    filled: bool,
)
    requires
        0 < input.len() <= whole.len(),
        input == whole.skip(whole.len() - input.len()),
        whole[whole.len() - 1] == NEWLINE,
    ensures
        rest_of_line(whole, input, record, filled, false).line is Incomplete || ends_at_newline(
            whole,
            rest_of_line(whole, input, record, filled, false),
        ),
    decreases input.len(),
{
    lemma_without_leading_space(input);
    let start = without_leading_space(input);
    lemma_first_mark(input, Mark::Filled, 0);
    lemma_first_mark(whole, Mark::Newline, 0);
    assert(whole[whole.len() - 1] == input[input.len() - 1]);
    if start.len() == 0 {
        assert(marks(Mark::Filled, input[input.len() - 1]));
    } else {
        assert(start[0] == whole[whole.len() - start.len()]);
        if start[0] == NEWLINE {
        } else {
            // The input holds a line feed, so the line of an error ends at one.
            assert(first_line(whole).len() < whole.len()) by {
                if first_line(whole).len() == whole.len() {
                    assert(!marks(
                        Mark::Newline,
                        whole[whole.len() - 1],
                    ));
                }
            }
            match scan_key(start) {
                KeyScan::Key { key, rest } => {
                    lemma_scan_key(start);
                    lemma_scan_value(rest);
                    let value = scan_value(rest);
                    if value.rest.len() > 0 {
                        match assign(record, decode_utf8(key), value.value) {
                            Err(kind) => {},
                            Ok(assigned) => {
                                assert(value.rest =~= whole.skip(whole.len() - value.rest.len()))
                                    by {
                                    assert(start == whole.skip(whole.len() - start.len()));
                                    assert(rest == whole.skip(whole.len() - rest.len()));
                                }
                                lemma_rest_of_line_closed(whole, value.rest, assigned, true);
                            },
                        }
                    }
                },
                _ => {},
            }
        }
    }
}

} // verus!
