//! The parser: a buffer of input that was read and not yet parsed, and the
//! steps that turn it into records.
//!
//! The parser reads nothing itself. [`Parser::next`] says when it needs
//! input; the caller reads from wherever the log comes from and hands the
//! outcome to [`Parser::fill_buf`].

use vstd::prelude::*;
use crate::error::{ErrorView, ParseError, ParseErrorKind};
use crate::line::{lemma_rest_of_line, line_of, parse_line, Line, LineView};
use crate::record::{empty_record, Record, RecordView};

verus! {

/// The number of bytes that a new parser has room for.
pub const INITIAL_CAPACITY: usize = 4096;

/// The state of a [`Parser`].
pub struct ParserView {
    /// The input that was read and not yet dropped.
    pub buf: Seq<u8>,
    /// How many bytes at the start of `buf` have been parsed.
    pub parsed: int,
    /// How many bytes the buffer has room for.
    pub capacity: int,
    /// Whether the parser waits for input.
    pub needs_read: bool,
    /// Whether the input has come to its end.
    pub hit_eof: bool,
    /// Whether reading the input has failed.
    pub failed: bool,
}

/// What a pull on the parser comes to.
pub enum StepView {
    /// The parser needs input: at most this many bytes.
    Read(int),
    /// The next record, or the error in the next line.
    Item(Result<RecordView, ErrorView>),
    /// There are no more records.
    Done,
}

impl ParserView {
    /// The input that is not parsed yet.
    pub open spec fn rest(self) -> Seq<u8> {
        self.buf.skip(self.parsed)
    }

    /// The state after `used` more bytes have been parsed.
    pub open spec fn advance(self, used: int) -> ParserView {
        ParserView { parsed: self.parsed + used, ..self }
    }

    /// The state in which the parser waits for input.
    pub open spec fn waiting(self) -> ParserView {
        ParserView { needs_read: true, ..self }
    }

    /// The room that the buffer has when it is filled next: twice what it
    /// had where the unparsed input fills it, as far as the machine allows.
    pub open spec fn grown(self) -> int {
        grown(self.rest().len() as int, self.capacity)
    }

    /// How many bytes the next read may bring.
    pub open spec fn room(self) -> int {
        if self.rest().len() < self.grown() {
            self.grown() - self.rest().len()
        } else {
            0
        }
    }

    /// The state after a read that brought `bytes`. The parsed input is
    /// dropped and the new input joins what is left. A read of no bytes
    /// is the end of the input, for good.
    pub open spec fn fill(self, bytes: Seq<u8>) -> ParserView {
        let buf = self.rest() + bytes;
        ParserView {
            buf,
            parsed: 0,
            capacity: if buf.len() <= self.grown() {
                self.grown()
            } else {
                buf.len() as int
            },
            needs_read: false,
            hit_eof: self.hit_eof || bytes.len() == 0,
            failed: self.failed,
        }
    }

    /// The state after a read that failed: the parsed input is dropped, and
    /// the parser gives no more records.
    pub open spec fn fail(self) -> ParserView {
        ParserView { buf: self.rest(), parsed: 0, failed: true, ..self }
    }

    /// Whether the state is one that a parser can be in.
    pub open spec fn wf(self) -> bool {
        &&& 0 <= self.parsed <= self.buf.len() <= self.capacity
        &&& 1 <= self.capacity
        &&& self.hit_eof ==> !self.needs_read
    }

    /// A parser has room for input, unless it holds as many bytes as the
    /// machine can count.
    pub proof fn lemma_room(self)
        requires
            self.wf(),
            self.rest().len() < usize::MAX,
        ensures
            self.room() > 0,
    {
    }

    /// One pull: the state after it, and what it comes to.
    ///
    /// A parser that waits for input asks for it. Else the next line is
    /// read. A record or an error is handed out, and the line passed over.
    /// A blank line is passed over, and the pull goes on with the line
    /// after it. Where the input that was read holds no further line, or
    /// only the start of one, the records are at their end if the input
    /// is, and else the parser asks for more.
    pub open spec fn step(self) -> (ParserView, StepView)
        decreases self.buf.len() - self.parsed,
    {
        if self.failed {
            (self, StepView::Done)
        } else if self.needs_read {
            (self, StepView::Read(self.room()))
        } else {
            let scan = line_of(self.rest(), self.hit_eof);
            let next = self.advance(scan.used);
            match scan.line {
                LineView::Record(record) => (next, StepView::Item(Ok(record))),
                LineView::Bad(error) => (next, StepView::Item(Err(error))),
                LineView::Blank => if 0 < scan.used && next.parsed < self.buf.len() {
                    next.step()
                } else if self.hit_eof {
                    (next, StepView::Done)
                } else {
                    (next.waiting(), StepView::Read(next.room()))
                },
                LineView::Incomplete => if self.hit_eof {
                    (self, StepView::Done)
                } else {
                    (self.waiting(), StepView::Read(self.room()))
                },
            }
        }
    }
}

/// The room of a buffer of room `capacity` that holds `kept` bytes when it
/// is filled next.
pub open spec fn grown(kept: int, capacity: int) -> int {
    if kept < capacity {
        capacity
    } else if capacity <= usize::MAX / 2 {
        2 * capacity
    } else {
        usize::MAX as int
    }
}

/// The state of a new parser: no input yet, and it waits for some.
pub open spec fn initial() -> ParserView {
    ParserView {
        buf: Seq::empty(),
        parsed: 0,
        capacity: INITIAL_CAPACITY as int,
        needs_read: true,
        hit_eof: false,
        failed: false,
    }
}

/// A struct to parse logfmt formatted logs.
///
/// The parser assumes the log lines are mostly correct. This means it will
/// loosely check values but isn't too strict about it.
///
/// If this parser returns an error it will skip the problematic line and
/// continue with the next one. Note however that if a problem exists in a
/// log message of more than one line the records returned after might be
/// invalid.
#[derive(Debug)]
pub struct Parser {
    /// Amount of bytes parsed from the start of `buf`.
    parsed: usize,
    buf: Vec<u8>,
    /// The room that `buf` is meant to have.
    capacity: usize,
    /// If `true` `next` asks for input.
    needs_read: bool,
    /// Once `true` a line that runs to the end of `buf` is complete.
    hit_eof: bool,
    /// Once `true` `next` gives nothing more.
    failed: bool,
}

/// What a pull on the parser comes to.
#[derive(Debug)]
pub enum Step {
    /// The parser needs input. Read at most this many bytes and hand the
    /// outcome to [`Parser::fill_buf`], then pull again.
    Read(usize),
    /// The next record, or the error in the next line.
    Item(Result<Record, ParseError>),
    /// There are no more records.
    Done,
}

impl View for Step {
    type V = StepView;

    open spec fn view(&self) -> StepView {
        match self {
            Step::Read(room) => StepView::Read(*room as int),
            Step::Item(Ok(record)) => StepView::Item(Ok(record@)),
            Step::Item(Err(error)) => StepView::Item(Err(error@)),
            Step::Done => StepView::Done,
        }
    }
}

impl View for Parser {
    type V = ParserView;

    closed spec fn view(&self) -> ParserView {
        ParserView {
            buf: self.buf@,
            parsed: self.parsed as int,
            capacity: self.capacity as int,
            needs_read: self.needs_read,
            hit_eof: self.hit_eof,
            failed: self.failed,
        }
    }
}

/// The room of a buffer when it is filled next: see [`ParserView::grown`].
fn grown_capacity(kept: usize, capacity: usize) -> (r: usize)
    ensures
        r == grown(kept as int, capacity as int),
{
    // If the input left is the same size as the buffer's capacity double
    // the capacity to read more bytes.
    if kept < capacity {
        capacity
    } else if capacity <= usize::MAX / 2 {
        2 * capacity
    } else {
        usize::MAX
    }
}

/// Create a new [`Parser`].
pub fn parse() -> (parser: Parser)
    ensures
        parser@ == initial(),
        parser@.wf(),
{
    Parser {
        parsed: 0,
        buf: Vec::with_capacity(INITIAL_CAPACITY),
        capacity: INITIAL_CAPACITY,
        needs_read: true,
        hit_eof: false,
        failed: false,
    }
}

impl Parser {
    #[verifier::type_invariant]
    spec fn well_formed(&self) -> bool {
        self@.wf()
    }

    /// How many bytes the next read may bring.
    fn room(&self) -> (r: usize)
        ensures
            r == self@.room(),
    {
        proof {
            use_type_invariant(self);
        }
        let kept = self.buf.len() - self.parsed;
        let grown = grown_capacity(kept, self.capacity);
        if kept < grown {
            grown - kept
        } else {
            0
        }
    }

    /// Takes in the outcome of a read: the bytes that it brought, none at
    /// the end of the input, or the error it failed with.
    ///
    /// The bytes already parsed are dropped from the buffer. An error comes
    /// back as the one item that remains to be handed out.
    pub fn fill_buf(&mut self, read: Result<&[u8], std::io::Error>) -> (r: Result<(), ParseError>)
        ensures
            final(self)@.wf(),
            match read {
                Ok(bytes) => r is Ok && final(self)@ == old(self)@.fill(bytes@),
                Err(error) => r matches Err(e) && e.line is None && e.kind == ParseErrorKind::Io(
                    error,
                ) && final(self)@ == old(self)@.fail(),
            },
    {
        proof {
            use_type_invariant(&*self);
        }
        let mut taken = parse();
        core::mem::swap(self, &mut taken);
        // Remove already processed bytes.
        let grown = grown_capacity(taken.buf.len() - taken.parsed, taken.capacity);
        let mut all = taken.buf;
        let mut buf = all.split_off(taken.parsed);
        assert(buf@ == old(self)@.rest());
        match read {
            Ok(bytes) => {
                let ghost kept = buf@;
                buf.reserve(bytes.len());
                buf.extend_from_slice(bytes);
                assert(buf@ =~= kept + bytes@);
                let capacity = if buf.len() <= grown {
                    grown
                } else {
                    buf.len()
                };
                *self = Parser {
                    parsed: 0,
                    buf,
                    capacity,
                    needs_read: false,
                    hit_eof: taken.hit_eof || bytes.len() == 0,
                    failed: taken.failed,
                };
                Ok(())
            },
            Err(error) => {
                *self = Parser {
                    parsed: 0,
                    buf,
                    capacity: taken.capacity,
                    needs_read: taken.needs_read,
                    hit_eof: taken.hit_eof,
                    failed: true,
                };
                Err(ParseError { line: None, kind: ParseErrorKind::Io(error) })
            },
        }
    }

    /// Reads the next line of the buffer and passes over it, unless it is
    /// incomplete.
    pub fn parse_line(&mut self) -> (line: Line)
        ensures
            final(self)@.wf(),
            line@ == line_of(old(self)@.rest(), old(self)@.hit_eof).line,
            final(self)@ == old(self)@.advance(
                line_of(old(self)@.rest(), old(self)@.hit_eof).used,
            ),
    {
        proof {
            use_type_invariant(&*self);
        }
        let (line, used) = parse_line(vstd::slice::slice_subrange(self.buf.as_slice(), self.parsed, self.buf.len()), self.hit_eof);
        self.parsed = self.parsed + used;
        line
    }

    /// Pulls the next record, or the error in the next line, from the input
    /// read so far; or says that more input is needed, or that there is
    /// none left. Where it asks for input, it asks for at least one byte,
    /// unless the buffer holds as many bytes as the machine can count.
    pub fn next(&mut self) -> (step: Step)
        ensures
            final(self)@.wf(),
            final(self)@ == old(self)@.step().0,
            step@ == old(self)@.step().1,
            step matches Step::Read(room) ==> room > 0 || final(self)@.rest().len() == usize::MAX,
    {
        proof {
            use_type_invariant(&*self);
        }
        if self.failed {
            return Step::Done;
        }
        loop
            invariant
                self@.wf(),
                !self@.failed,
                self@.step() == old(self)@.step(),
            decreases self@.buf.len() - self@.parsed,
        {
            if self.needs_read {
                return Step::Read(self.room());
            }
            let ghost before = self@;
            let ghost scan = line_of(before.rest(), before.hit_eof);
            proof {
                lemma_rest_of_line(
                    before.rest(),
                    before.rest(),
                    empty_record(),
                    false,
                    before.hit_eof,
                );
            }
            let at = self.parsed;
            match self.parse_line() {
                Line::Record(record) => {
                    return Step::Item(Ok(record));
                },
                Line::Bad(error) => {
                    // The troublesome line is passed over.
                    return Step::Item(Err(error));
                },
                Line::Blank => {
                    assert(scan.line is Blank);
                    assert(self@ == before.advance(scan.used));
                    if at < self.parsed && self.parsed < self.buf.len() {
                        assert(before.step() == self@.step());
                        continue;
                    }
                    if self.hit_eof {
                        assert(before.step() == (self@, StepView::Done));
                        return Step::Done;
                    }
                    proof {
                        use_type_invariant(&*self);
                    }
                    self.needs_read = true;
                    return Step::Read(self.room());
                },
                Line::Incomplete => {
                    assert(scan.line is Incomplete);
                    assert(self@ == before);
                    if self.hit_eof {
                        return Step::Done;
                    }
                    proof {
                        use_type_invariant(&*self);
                    }
                    self.needs_read = true;
                    return Step::Read(self.room());
                },
            }
        }
    }
}

} // verus!
