//! What holds of a parser over a whole run: which records and errors it
//! hands out for the input that the reads bring.

use vstd::prelude::*;
use vstd::utf8::decode_utf8;
use crate::bytes::{lemma_first_mark, lemma_first_mark_is, marks, Mark, NEWLINE};
use crate::error::ErrorView;
use crate::line::{
    assign, bad_line, ends_at_newline, lemma_rest_of_line, lemma_rest_of_line_closed,
    lemma_open_line, lemma_rest_of_line_grow, lemma_rest_of_line_shift, line_of, rest_of_line,
    LineView,
};
use crate::parser::{initial, ParserView, StepView, INITIAL_CAPACITY};
use crate::record::{empty_record, RecordView};
use crate::scan::{
    first_line, lemma_first_line_extend, lemma_scan_key, lemma_scan_value,
    lemma_without_leading_space, scan_key, scan_value, without_leading_space, KeyScan,
};

verus! {

/// A record or the error in a line, as the parser hands them out.
pub type ItemView = Result<RecordView, ErrorView>;

/// The items that a parser in state `s` hands out when it is pulled until it
/// is done, while the reads bring `chunks`, one for each read, and after
/// them the end of the input. A chunk of no bytes is the end of the input
/// too.
pub open spec fn items(s: ParserView, chunks: Seq<Seq<u8>>) -> Seq<ItemView>
    decreases
        chunks.len() + if s.hit_eof {
            0int
        } else {
            1int
        },
        s.buf.len() - s.parsed,
    when s.wf()
{
    let (next, step) = s.step();
    match step {
        StepView::Done => Seq::empty(),
        StepView::Item(item) => {
            proof {
                lemma_step(s);
            }
            seq![item] + items(next, chunks)
        },
        StepView::Read(_) => {
            proof {
                lemma_step(s);
            }
            if chunks.len() == 0 {
                items(next.fill(Seq::empty()), chunks)
            } else {
                items(next.fill(chunks[0]), chunks.skip(1))
            }
        },
    }
}

/// A pull keeps the state one that a parser can be in. It drops no input
/// and changes neither what was read nor whether the input has ended. With
/// an item it passes over at least one byte, and it asks for input only
/// before the end of the input.
pub proof fn lemma_step(s: ParserView)
    requires
        s.wf(),
    ensures
        s.step().0.wf(),
        s.step().0.buf == s.buf,
        s.step().0.capacity == s.capacity,
        s.step().0.hit_eof == s.hit_eof,
        s.step().0.failed == s.failed,
        s.parsed <= s.step().0.parsed,
        s.step().1 is Item ==> s.parsed < s.step().0.parsed && !s.step().0.needs_read,
        s.step().1 is Read ==> !s.hit_eof && s.step().0.needs_read,
    decreases s.buf.len() - s.parsed,
{
    if !s.failed && !s.needs_read {
        let scan = line_of(s.rest(), s.hit_eof);
        lemma_rest_of_line(s.rest(), s.rest(), empty_record(), false, s.hit_eof);
        if scan.line is Blank && 0 < scan.used && s.parsed + scan.used < s.buf.len() {
            lemma_step(s.advance(scan.used));
        }
    }
}

/// After the end of the input, and with all input passed over, a parser
/// hands out nothing more: a pull finds it done and leaves it as it is.
pub proof fn lemma_end_of_stream(s: ParserView, chunks: Seq<Seq<u8>>)
    requires
        s.wf(),
        s.hit_eof,
        s.parsed == s.buf.len(),
    ensures
        s.step() == (s, StepView::Done),
        items(s, chunks) == Seq::<ItemView>::empty(),
{
    lemma_rest_of_line(s.rest(), s.rest(), empty_record(), false, true);
    assert(s.rest() =~= Seq::empty());
    if !s.failed {
        let scan = line_of(s.rest(), true);
        assert(s.advance(scan.used) == s);
    }
}

/// A parser that is done stays done: the next pull finds it done again and
/// leaves it as it is.
pub proof fn lemma_done_stays_done(s: ParserView)
    requires
        s.wf(),
        s.step().1 is Done,
    ensures
        s.step().0.step() == (s.step().0, StepView::Done),
    decreases s.buf.len() - s.parsed,
{
    lemma_step(s);
    if !s.failed {
        let scan = line_of(s.rest(), s.hit_eof);
        lemma_rest_of_line(s.rest(), s.rest(), empty_record(), false, s.hit_eof);
        let next = s.advance(scan.used);
        if scan.line is Blank {
            if 0 < scan.used && next.parsed < s.buf.len() {
                lemma_done_stays_done(next);
            } else {
                // All input is passed over, and it has ended.
                assert(next.rest() =~= Seq::empty());
                let again = line_of(next.rest(), true);
                assert(next.advance(again.used) == next);
            }
        }
    }
}

/// A line with an error is reported once, and the lines after it are read
/// as if it had not been there: the error holds the line up to its line
/// feed, the parser passes over the line and the line feed, and what it
/// hands out afterwards is what it hands out for the input after them.
pub proof fn lemma_error_recovery(s: ParserView, chunks: Seq<Seq<u8>>)
    requires
        s.wf(),
        !s.failed,
        !s.needs_read,
        line_of(s.rest(), s.hit_eof).line is Bad,
    ensures
        ({
            let scan = line_of(s.rest(), s.hit_eof);
            let line = first_line(s.rest());
            let after = s.advance(scan.used);
            &&& scan.line->Bad_0.line == Some(line)
            &&& scan.used == if line.len() < s.rest().len() {
                line.len() as int + 1
            } else {
                line.len() as int
            }
            &&& after.rest() == s.rest().skip(scan.used)
            &&& s.step() == (after, StepView::Item(Err(scan.line->Bad_0)))
            &&& items(s, chunks) == seq![Err(scan.line->Bad_0)] + items(after, chunks)
        }),
{
    let scan = line_of(s.rest(), s.hit_eof);
    lemma_rest_of_line(s.rest(), s.rest(), empty_record(), false, s.hit_eof);
    lemma_bad_is_bad_line(s.rest(), s.rest(), empty_record(), false, s.hit_eof);
    assert(s.advance(scan.used).rest() =~= s.rest().skip(scan.used));
}

/// The error of a line is the one that `bad_line` makes for the input.
proof fn lemma_bad_is_bad_line(
    whole: Seq<u8>,
    input: Seq<u8>,
    record: RecordView,
    filled: bool,
    eof: bool,
)
    requires
        rest_of_line(whole, input, record, filled, eof).line is Bad,
    ensures
        rest_of_line(whole, input, record, filled, eof) == bad_line(
            whole,
            rest_of_line(whole, input, record, filled, eof).line->Bad_0.kind,
        ),
    decreases input.len(),
{
    let start = without_leading_space(input);
    lemma_without_leading_space(input);
    if start.len() == 0 || start[0] == NEWLINE {
    } else {
        match scan_key(start) {
            KeyScan::Key { key, rest } => {
                lemma_scan_key(start);
                lemma_scan_value(rest);
                let value = scan_value(rest);
                match assign(record, decode_utf8(key), value.value) {
                    Ok(assigned) => {
                        if !(value.rest.len() == 0 && !eof) {
                            lemma_bad_is_bad_line(whole, value.rest, assigned, true, eof);
                        }
                    },
                    Err(_) => {},
                }
            },
            _ => {},
        }
    }
}

/// What a parser hands out depends on its state only by the input that is
/// not parsed yet, by whether it waits for input, and by whether the input
/// has ended or failed.
pub open spec fn alike(a: ParserView, b: ParserView) -> bool {
    &&& a.rest() == b.rest()
    &&& a.needs_read == b.needs_read
    &&& a.hit_eof == b.hit_eof
    &&& a.failed == b.failed
}

/// Two steps are alike where they differ at most in how much input they
/// ask for.
pub open spec fn alike_steps(a: StepView, b: StepView) -> bool {
    match a {
        StepView::Read(_) => b is Read,
        _ => a == b,
    }
}

/// Pulls on states that are alike hand out the same, and leave states that
/// are alike.
pub proof fn lemma_step_alike(a: ParserView, b: ParserView)
    requires
        a.wf(),
        b.wf(),
        alike(a, b),
    ensures
        alike(a.step().0, b.step().0),
        alike_steps(a.step().1, b.step().1),
    decreases a.buf.len() - a.parsed,
{
    if !a.failed && !a.needs_read {
        let scan = line_of(a.rest(), a.hit_eof);
        lemma_rest_of_line(a.rest(), a.rest(), empty_record(), false, a.hit_eof);
        let an = a.advance(scan.used);
        let bn = b.advance(scan.used);
        assert(an.rest() =~= a.rest().skip(scan.used));
        assert(bn.rest() =~= b.rest().skip(scan.used));
        assert(a.rest().len() == a.buf.len() - a.parsed);
        assert(b.rest().len() == b.buf.len() - b.parsed);
        if scan.line is Blank && 0 < scan.used && an.parsed < a.buf.len() {
            lemma_step_alike(an, bn);
        }
    }
}

/// Parsers in states that are alike hand out the same items.
pub proof fn lemma_items_alike(a: ParserView, b: ParserView, chunks: Seq<Seq<u8>>)
    requires
        a.wf(),
        b.wf(),
        alike(a, b),
    ensures
        items(a, chunks) == items(b, chunks),
    decreases
        chunks.len() + if a.hit_eof {
            0int
        } else {
            1int
        },
        a.buf.len() - a.parsed,
{
    lemma_step(a);
    lemma_step(b);
    lemma_step_alike(a, b);
    let (an, astep) = a.step();
    let (bn, bstep) = b.step();
    match astep {
        StepView::Done => {},
        StepView::Item(_) => {
            lemma_items_alike(an, bn, chunks);
        },
        StepView::Read(_) => {
            let chunk = if chunks.len() == 0 {
                Seq::empty()
            } else {
                chunks[0]
            };
            let rest = if chunks.len() == 0 {
                chunks
            } else {
                chunks.skip(1)
            };
            lemma_fill(an, chunk);
            lemma_fill(bn, chunk);
            lemma_items_alike(an.fill(chunk), bn.fill(chunk), rest);
        },
    }
}

/// Filling keeps the state one that a parser can be in, and puts the new
/// input behind the input that is not parsed yet.
pub proof fn lemma_fill(s: ParserView, bytes: Seq<u8>)
    requires
        s.wf(),
    ensures
        s.fill(bytes).wf(),
        s.fill(bytes).rest() == s.rest() + bytes,
{
    assert(s.fill(bytes).buf.skip(0) =~= s.fill(bytes).buf);
}

/// The state of a parser that has `rest` left to parse and does not wait
/// for input; `eof` says whether the input has ended.
pub open spec fn reading(rest: Seq<u8>, eof: bool) -> ParserView {
    ParserView {
        buf: rest,
        parsed: 0,
        capacity: if rest.len() <= INITIAL_CAPACITY {
            INITIAL_CAPACITY as int
        } else {
            rest.len() as int
        },
        needs_read: false,
        hit_eof: eof,
        failed: false,
    }
}

/// The items that a parser hands out that has `rest` left to parse, while
/// the reads bring `chunks`.
pub open spec fn run(rest: Seq<u8>, eof: bool, chunks: Seq<Seq<u8>>) -> Seq<ItemView> {
    items(reading(rest, eof), chunks)
}

/// The chunk that the next read brings: the first of `chunks`, or none
/// where there is none left.
pub open spec fn next_chunk(chunks: Seq<Seq<u8>>) -> Seq<u8> {
    if chunks.len() == 0 {
        Seq::empty()
    } else {
        chunks[0]
    }
}

/// The chunks that are left after the next read.
pub open spec fn later_chunks(chunks: Seq<Seq<u8>>) -> Seq<Seq<u8>> {
    if chunks.len() == 0 {
        chunks
    } else {
        chunks.skip(1)
    }
}

/// A run, one line on: a record or an error is handed out and the run goes
/// on behind the line; a blank line is passed over; at a line that is
/// incomplete the run ends if the input has ended, and else goes on with
/// what the next read brings.
pub proof fn lemma_run_line(rest: Seq<u8>, eof: bool, chunks: Seq<Seq<u8>>)
    ensures
        ({
            let scan = line_of(rest, eof);
            let behind = run(rest.skip(scan.used), eof, chunks);
            let more = next_chunk(chunks);
            match scan.line {
                LineView::Record(record) => run(rest, eof, chunks) == seq![Ok(record)] + behind,
                LineView::Bad(error) => run(rest, eof, chunks) == seq![Err(error)] + behind,
                LineView::Blank => if rest.len() > 0 {
                    run(rest, eof, chunks) == behind
                } else if eof {
                    run(rest, eof, chunks) == Seq::<ItemView>::empty()
                } else {
                    run(rest, eof, chunks) == run(more, more.len() == 0, later_chunks(chunks))
                },
                LineView::Incomplete => if eof {
                    run(rest, eof, chunks) == Seq::<ItemView>::empty()
                } else {
                    run(rest, eof, chunks) == run(
                        rest + more,
                        more.len() == 0,
                        later_chunks(chunks),
                    )
                },
            }
        }),
{
    let s = reading(rest, eof);
    let scan = line_of(rest, eof);
    assert(s.rest() =~= rest);
    lemma_step(s);
    lemma_rest_of_line(rest, rest, empty_record(), false, eof);
    let next = s.advance(scan.used);
    let behind = reading(rest.skip(scan.used), eof);
    assert(next.rest() =~= rest.skip(scan.used));
    assert(behind.rest() =~= rest.skip(scan.used));
    if scan.line is Record || scan.line is Bad {
        lemma_items_alike(next, behind, chunks);
    } else if scan.line is Blank && rest.len() > 0 {
        if next.parsed < s.buf.len() {
        } else {
            // The blank line is all that is left: a pull on the state behind
            // it comes to the same.
            assert(next.rest() =~= Seq::empty());
            lemma_rest_of_line(next.rest(), next.rest(), empty_record(), false, eof);
            assert(next.advance(line_of(next.rest(), eof).used) == next);
        }
        assert(s.step() == next.step());
        lemma_items_alike(next, behind, chunks);
    } else if !eof {
        let more = next_chunk(chunks);
        let waiting = s.step().0;
        assert(waiting.rest() =~= rest);
        lemma_fill(waiting, more);
        if scan.line is Blank {
            assert(rest + more =~= more);
        }
        lemma_items_alike(
            waiting.fill(more),
            reading(rest + more, more.len() == 0),
            later_chunks(chunks),
        );
    }
}

/// Whether a line ends where `input` starts: after any spaces and tabs,
/// `input` ends or a line feed follows.
pub open spec fn ends_line(input: Seq<u8>) -> bool {
    let next = without_leading_space(input);
    next.len() == 0 || next[0] == NEWLINE
}

/// Whether the line at the start of `input` is no error, neither as long
/// as more input may come nor once the input has ended.
pub open spec fn no_error_ahead(input: Seq<u8>) -> bool {
    &&& line_of(input, false).line !is Bad
    &&& line_of(input, false).line is Incomplete ==> line_of(input, true).line !is Bad
}

/// Whether reading `first` and then `second` cuts no line in a way that
/// shows. A read may end anywhere in a key or a value, and behind any line
/// feed that ends a line. Where it ends elsewhere, the parser takes the
/// end of what it has read for the end of the line, and that shows
///
/// - behind a pair, unless the line ends there anyway: `a=1 b=2`, read as
///   `a=1 ` and `b=2`, makes two records;
/// - in a line with an error, unless the line feed is all that is missing:
///   the error holds the line as far as it was read;
/// - in the spaces and tabs before the first key of a line with an error:
///   the error holds the line without them.
pub open spec fn keeps_lines(first: Seq<u8>, second: Seq<u8>) -> bool
    decreases first.len(),
{
    let scan = line_of(first, false);
    if first.len() == 0 || scan.line is Incomplete {
        true
    } else if ends_at_newline(first, scan) {
        keeps_lines(first.skip(scan.used), second)
    } else {
        match scan.line {
            LineView::Record(_) => ends_line(second),
            LineView::Bad(_) => second.len() > 0 && second[0] == NEWLINE,
            _ => no_error_ahead(first + second),
        }
    }
}

/// Input that ends with a line feed cuts no line, whatever follows.
pub proof fn lemma_newline_keeps_lines(first: Seq<u8>, second: Seq<u8>)
    requires
        first.len() > 0 ==> first[first.len() - 1] == NEWLINE,
    ensures
        keeps_lines(first, second),
    decreases first.len(),
{
    if first.len() > 0 {
        assert(first.skip(0) =~= first);
        lemma_rest_of_line_closed(first, first, empty_record(), false);
        let scan = line_of(first, false);
        if scan.line !is Incomplete {
            lemma_newline_keeps_lines(first.skip(scan.used), second);
        }
    }
}

/// Spaces and tabs before a line that is no error change nothing in what
/// the parser hands out from there on, once all input has been read.
proof fn lemma_run_behind_blanks(blanks: Seq<u8>, input: Seq<u8>, eof: bool)
    requires
        line_of(blanks, false).line is Blank,
        !ends_at_newline(blanks, line_of(blanks, false)),
        input.len() > 0,
        line_of(blanks + input, eof).line !is Bad,
        !eof && line_of(blanks + input, false).line is Incomplete ==> line_of(
            blanks + input,
            true,
        ).line !is Bad,
    ensures
        run(blanks + input, eof, Seq::empty()) == run(input, eof, Seq::empty()),
    decreases
        (if eof {
            0int
        } else {
            1int
        }),
{
    let none = Seq::<Seq<u8>>::empty();
    let whole = blanks + input;
    assert(blanks.skip(0) =~= blanks);
    lemma_rest_of_line_grow(blanks, blanks, empty_record(), false, input, eof);
    lemma_rest_of_line_shift(blanks, input, input, empty_record(), false, eof);
    lemma_rest_of_line(input, input, empty_record(), false, eof);
    let scan = line_of(input, eof);
    assert(line_of(whole, eof) == rest_of_line(whole, input, empty_record(), false, eof));
    lemma_run_line(whole, eof, none);
    lemma_run_line(input, eof, none);
    assert(whole.skip(scan.used + blanks.len()) =~= input.skip(scan.used));
    if scan.line is Incomplete && !eof {
        assert(whole + next_chunk(none) =~= whole);
        assert(input + next_chunk(none) =~= input);
        lemma_run_behind_blanks(blanks, input, true);
    }
}

/// A read that ends behind a pair shows nothing where the line ends there
/// anyway.
proof fn lemma_split_behind_pair(first: Seq<u8>, second: Seq<u8>)
    requires
        second.len() > 0,
        line_of(first, false).line is Record,
        !ends_at_newline(first, line_of(first, false)),
        ends_line(second),
    ensures
        run(first, false, seq![second]) == run(first + second, false, Seq::empty()),
{
    let none = Seq::<Seq<u8>>::empty();
    let both = first + second;
    let scan = line_of(first, false);
    assert(seq![second].skip(1) =~= none);
    assert(seq![second][0] == second);
    assert(first.skip(0) =~= first);
    lemma_rest_of_line(first, first, empty_record(), false, false);
    lemma_open_line(first, first, empty_record(), false, false);
    lemma_rest_of_line_grow(first, first, empty_record(), false, second, false);
    lemma_run_line(first, false, seq![second]);
    lemma_run_line(both, false, none);
    let behind = first.skip(scan.used);
    assert(behind =~= Seq::empty());
    lemma_run_line(behind, false, seq![second]);
    lemma_run_line(second, false, none);
    lemma_without_leading_space(second);
    lemma_rest_of_line(second, second, empty_record(), false, false);
    // What follows ends the line: in `second` alone it is a blank line.
    let grown = line_of(both, false);
    let blank = line_of(second, false);
    assert(grown.line == scan.line);
    assert(blank.line is Blank);
    assert(grown.used == first.len() + blank.used);
    assert(both.skip(grown.used) =~= second.skip(blank.used));
}

/// A read that ends in a line with an error shows nothing where the line
/// feed is all that is missing.
proof fn lemma_split_in_error(first: Seq<u8>, second: Seq<u8>)
    requires
        second.len() > 0,
        second[0] == NEWLINE,
        line_of(first, false).line is Bad,
        !ends_at_newline(first, line_of(first, false)),
    ensures
        run(first, false, seq![second]) == run(first + second, false, Seq::empty()),
{
    let none = Seq::<Seq<u8>>::empty();
    let both = first + second;
    let scan = line_of(first, false);
    assert(seq![second].skip(1) =~= none);
    assert(seq![second][0] == second);
    assert(first.skip(0) =~= first);
    lemma_rest_of_line(first, first, empty_record(), false, false);
    lemma_open_line(first, first, empty_record(), false, false);
    lemma_rest_of_line_grow(first, first, empty_record(), false, second, false);
    lemma_bad_is_bad_line_of(first, false);
    lemma_run_line(first, false, seq![second]);
    lemma_run_line(both, false, none);
    let behind = first.skip(scan.used);
    assert(behind =~= Seq::empty());
    lemma_run_line(behind, false, seq![second]);
    lemma_run_line(second, false, none);
    lemma_without_leading_space(second);
    lemma_first_mark(second, Mark::Filled, 0);
    lemma_rest_of_line(second, second, empty_record(), false, false);
    // The line of the error is all of `first`, in the longer input too.
    lemma_first_mark(first, Mark::Newline, 0);
    assert forall|j: int| 0 <= j < first.len() implies !marks(
        Mark::Newline,
        #[trigger] both[j],
    ) by {
        assert(both[j] == first[j]);
    }
    assert(both[first.len() as int] == second[0]);
    lemma_first_mark_is(both, Mark::Newline, 0, first.len() as int);
    assert(first_line(both) =~= first_line(first));
    assert(without_leading_space(second) =~= second);
    let blank = line_of(second, false);
    assert(blank.line is Blank && blank.used == 1);
    assert(both.skip(first.len() as int + 1) =~= second.skip(1));
}

/// Reading `first` and then `second` gives what reading both at once
/// gives, where that cuts no line in a way that shows.
proof fn lemma_split_run(first: Seq<u8>, second: Seq<u8>)
    requires
        second.len() > 0,
        keeps_lines(first, second),
    ensures
        run(first, false, seq![second]) == run(first + second, false, Seq::empty()),
    decreases first.len(),
{
    let none = Seq::<Seq<u8>>::empty();
    let both = first + second;
    let scan = line_of(first, false);
    assert(seq![second].skip(1) =~= none);
    assert(seq![second][0] == second);
    assert(first.skip(0) =~= first);
    lemma_run_line(first, false, seq![second]);
    lemma_rest_of_line(first, first, empty_record(), false, false);
    if first.len() == 0 {
        assert(both =~= second);
    } else if scan.line is Incomplete {
    } else if ends_at_newline(first, scan) {
        lemma_rest_of_line_grow(first, first, empty_record(), false, second, false);
        lemma_bad_is_bad_line_of(first, false);
        lemma_run_line(both, false, none);
        let behind = first.skip(scan.used);
        lemma_first_mark(first, Mark::Newline, 0);
        if scan.line is Bad {
            // The line feed is the one at which the line of the error
            // ends, so the line is the same in the longer input.
            lemma_first_line_extend(first, second);
        }
        assert(line_of(both, false) == scan);
        assert(both.skip(scan.used) =~= behind + second);
        lemma_split_run(behind, second);
    } else {
        match scan.line {
            LineView::Record(_) => {
                lemma_split_behind_pair(first, second);
            },
            LineView::Bad(_) => {
                lemma_split_in_error(first, second);
            },
            _ => {
                lemma_open_line(first, first, empty_record(), false, false);
                let behind = first.skip(scan.used);
                assert(behind =~= Seq::empty());
                lemma_run_line(behind, false, seq![second]);
                lemma_run_behind_blanks(first, second, false);
            },
        }
    }
}

/// The error of a line holds the line up to its first line feed, and the
/// line and the line feed are what the line takes up.
proof fn lemma_bad_is_bad_line_of(input: Seq<u8>, eof: bool)
    ensures
        line_of(input, eof).line matches LineView::Bad(error) ==> line_of(input, eof) == bad_line(
            input,
            error.kind,
        ),
{
    if line_of(input, eof).line is Bad {
        lemma_bad_is_bad_line(input, input, empty_record(), false, eof);
    }
}

/// Reading the input in two parts gives the same records and errors as
/// reading it at once, where the two reads cut no line in a way that shows.
pub proof fn lemma_split_read(input: Seq<u8>, at: int)
    requires
        0 < at < input.len(),
        keeps_lines(input.take(at), input.skip(at)),
    ensures
        items(initial(), seq![input.take(at), input.skip(at)]) == items(initial(), seq![input]),
{
    let first = input.take(at);
    let second = input.skip(at);
    let none = Seq::<Seq<u8>>::empty();
    let start = initial();
    assert(start.rest() =~= Seq::empty());
    lemma_fill(start, first);
    lemma_fill(start, input);
    assert(Seq::<u8>::empty() + first =~= first);
    assert(Seq::<u8>::empty() + input =~= input);
    assert(first + second =~= input);
    assert(seq![first, second].skip(1) =~= seq![second]);
    assert(seq![input].skip(1) =~= none);
    assert(seq![first, second][0] == first);
    assert(seq![input][0] == input);
    lemma_items_alike(start.fill(first), reading(first, false), seq![second]);
    lemma_items_alike(start.fill(input), reading(input, false), none);
    lemma_split_run(first, second);
}

/// Reading the input in two parts gives the same records and errors as
/// reading it at once, where the first part ends with a line feed.
pub proof fn lemma_split_after_newline(input: Seq<u8>, at: int)
    requires
        0 < at < input.len(),
        input[at - 1] == NEWLINE,
    ensures
        items(initial(), seq![input.take(at), input.skip(at)]) == items(initial(), seq![input]),
{
    lemma_newline_keeps_lines(input.take(at), input.skip(at));
    lemma_split_read(input, at);
}

} // verus!
