//! Which records a logger lets through: by their level and by their
//! target.

use vstd::prelude::*;
use vstd::utf8::*;
use vstd::string::*;
use crate::bytes::{find_mark, first_mark, is_text, lemma_first_mark, lemma_same_bytes_same_text, Mark};
use crate::level::{level_filter_from_str, level_filter_named, Level, LevelFilter};

verus! {

/// Target for logging requests. Records with this target are always let
/// through, as are those with the target `panic`.
pub const REQUEST_TARGET: &'static str = "request";

/// The rank of a level among the filters: `Error` is 1, `Trace` 5.
pub open spec fn level_rank(level: Level) -> int {
    match level {
        Level::Error => 1,
        Level::Warn => 2,
        Level::Info => 3,
        Level::Debug => 4,
        Level::Trace => 5,
    }
}

/// The rank of a filter: `Off` is 0, `Trace` 5.
pub open spec fn filter_rank(filter: LevelFilter) -> int {
    match filter {
        LevelFilter::Off => 0,
        LevelFilter::Error => 1,
        LevelFilter::Warn => 2,
        LevelFilter::Info => 3,
        LevelFilter::Debug => 4,
        LevelFilter::Trace => 5,
    }
}

/// The filter named by the first of `log` and `log_level` that names one;
/// where neither does, `Trace` if `trace` is set, else `Debug` if `debug`
/// is, else `Info`.
pub open spec fn max_level(
    log: Option<Seq<u8>>,
    log_level: Option<Seq<u8>>,
    trace: bool,
    debug: bool,
) -> LevelFilter {
    if log is Some && level_filter_named(log->0) is Some {
        level_filter_named(log->0)->0
    } else if log_level is Some && level_filter_named(log_level->0) is Some {
        level_filter_named(log_level->0)->0
    } else if trace {
        LevelFilter::Trace
    } else if debug {
        LevelFilter::Debug
    } else {
        LevelFilter::Info
    }
}

/// The UTF-8 bytes of a text that may be missing.
pub open spec fn bytes_of(text: Option<&str>) -> Option<Seq<u8>> {
    match text {
        Some(text) => Some(text.spec_bytes()),
        None => None,
    }
}

/// Get the maximum log level from the settings of the environment: the
/// values of `LOG` and `LOG_LEVEL`, and whether `TRACE` and `DEBUG` are set.
pub fn get_max_level(log: Option<&str>, log_level: Option<&str>, trace: bool, debug: bool) -> (r:
    LevelFilter)
    ensures
        r == max_level(bytes_of(log), bytes_of(log_level), trace, debug),
{
    if let Some(name) = log {
        if let Some(filter) = level_filter_from_str(name) {
            return filter;
        }
    }
    if let Some(name) = log_level {
        if let Some(filter) = level_filter_from_str(name) {
            return filter;
        }
    }
    if trace {
        LevelFilter::Trace
    } else if debug {
        LevelFilter::Debug
    } else {
        LevelFilter::Info
    }
}

/// The targets to log.
#[derive(Debug)]
pub enum Targets {
    /// Log all targets.
    All,
    /// Only log certain targets.
    Only(Vec<String>),
}

/// The parts of `s` between its commas. Text without a comma is one part,
/// and so is the empty text.
pub open spec fn parts(s: Seq<u8>) -> Seq<Seq<u8>>
    decreases s.len(),
{
    let n = first_mark(s, Mark::Comma, 0);
    if n >= s.len() || n < 0 {
        seq![s]
    } else {
        seq![s.take(n)] + parts(s.skip(n + 1))
    }
}

/// Whether `list` holds the texts with the UTF-8 bytes of `parts`.
pub open spec fn holds_parts(list: Seq<String>, parts: Seq<Seq<u8>>) -> bool {
    &&& list.len() == parts.len()
    &&& forall|i: int| 0 <= i < list.len() ==> encode_utf8((#[trigger] list[i])@) == parts[i]
}

/// Whether a record with the target `target` is let through: always where
/// the target is `request` or `panic`; else where all targets are, or where
/// the target starts with one of the targets to log. Given UTF-8 text,
/// `target` starts with another text where its bytes start with the bytes
/// of the other.
pub open spec fn lets_through(targets: Targets, target: Seq<char>) -> bool {
    target == "request"@ || target == "panic"@ || match targets {
        Targets::All => true,
        Targets::Only(list) => exists|i: int|
            0 <= i < list@.len() && encode_utf8((#[trigger] list@[i])@).is_prefix_of(
                encode_utf8(target),
            ),
    }
}

/// Whether `input` starts with `prefix`.
pub fn starts_with(input: &[u8], prefix: &[u8]) -> (r: bool)
    ensures
        r == prefix@.is_prefix_of(input@),
{
    if prefix.len() > input.len() {
        return false;
    }
    let mut i: usize = 0;
    while i < prefix.len()
        invariant
            i <= prefix@.len() <= input@.len(),
            forall|j: int| 0 <= j < i ==> prefix@[j] == input@[j],
        decreases prefix@.len() - i,
    {
        if prefix[i] != input[i] {
            assert(input@.subrange(0, prefix@.len() as int)[i as int] != prefix@[i as int]);
            return false;
        }
        i += 1;
    }
    assert(prefix@ =~= input@.subrange(0, prefix@.len() as int));
    true
}

impl Targets {
    /// Returns `true` if the `target` should be logged.
    pub fn should_log(&self, target: &str) -> (r: bool)
        ensures
            r == lets_through(*self, target@),
    {
        proof {
            lemma_same_bytes_same_text(target@, "request"@);
            lemma_same_bytes_same_text(target@, "panic"@);
        }
        let name = target.as_bytes();
        if is_text(name, REQUEST_TARGET) || is_text(name, "panic") {
            // Always log requests and panics.
            true
        } else if let Targets::Only(targets) = self {
            // Log all targets that start with an allowed target. This way we
            // can just use `LOG_TARGET=my_crate`, rather then
            // `LOG_TARGET=my_crate::module1,my_crate::module2` etc.
            let mut i: usize = 0;
            while i < targets.len()
                invariant
                    i <= targets@.len(),
                    *self == Targets::Only(*targets),
                    target@ != "request"@ && target@ != "panic"@,
                    name@ == encode_utf8(target@),
                    forall|j: int|
                        0 <= j < i ==> !encode_utf8((#[trigger] targets@[j])@).is_prefix_of(name@),
                decreases targets@.len() - i,
            {
                if starts_with(name, targets[i].as_str().as_bytes()) {
                    assert(*self matches Targets::Only(list) && encode_utf8(
                        list@[i as int]@,
                    ).is_prefix_of(encode_utf8(target@)));
                    return true;
                }
                i += 1;
            }
            false
        } else {
            // All targets should be logged.
            true
        }
    }
}

/// A comma in UTF-8 text stands between two characters, and so does what
/// follows it.
proof fn lemma_comma_boundary(bytes: Seq<u8>, n: int)
    requires
        valid_utf8(bytes),
        0 <= n < bytes.len(),
        bytes[n] == crate::bytes::COMMA,
    ensures
        is_char_boundary(bytes, n),
        is_char_boundary(bytes.subrange(n, bytes.len() as int), 1),
        valid_utf8(bytes.subrange(n, bytes.len() as int)),
{
    is_char_boundary_iff_not_is_continuation_byte(bytes, n);
    valid_utf8_split(bytes, n);
    let tail = bytes.subrange(n, bytes.len() as int);
    assert(tail[0] == bytes[n]);
    assert(valid_first_scalar(tail));
    assert(length_of_first_scalar(tail) == 1);
    reveal_with_fuel(is_char_boundary, 2);
}

/// Get the targets to log from the setting of the environment: the value of
/// `LOG_TARGET`, a list of targets with commas between them. All targets
/// are logged where it is missing or empty.
pub fn get_log_targets(value: Option<&str>) -> (r: Targets)
    ensures
        match r {
            Targets::All => value is None || value->0@.len() == 0,
            Targets::Only(list) => value is Some && value->0@.len() > 0 && holds_parts(
                list@,
                parts(value->0.spec_bytes()),
            ),
        },
{
    match value {
        Some(targets) if !targets.is_empty() => {
            let mut list: Vec<String> = Vec::new();
            let mut rest: &str = targets;
            let ghost whole = targets.spec_bytes();
            let ghost mut done: Seq<Seq<u8>> = Seq::empty();
            loop
                invariant
                    value == Some(targets),
                    targets@.len() > 0,
                    whole == targets.spec_bytes(),
                    parts(whole) == done + parts(rest.spec_bytes()),
                    holds_parts(list@, done),
                decreases rest.spec_bytes().len(),
            {
                let bytes = rest.as_bytes();
                let n = find_mark(bytes, Mark::Comma, 0);
                proof {
                    lemma_first_mark(bytes@, Mark::Comma, 0);
                    encode_utf8_valid_utf8(rest@);
                }
                if n == bytes.len() {
                    let ghost before = list@;
                    list.push(rest.to_owned());
                    proof {
                        assert(parts(bytes@) == seq![bytes@]);
                        assert(parts(whole) =~= done.push(bytes@));
                        assert forall|i: int| 0 <= i < list@.len() implies encode_utf8(
                            (#[trigger] list@[i])@,
                        ) == parts(whole)[i] by {
                            if i < before.len() {
                                assert(list@[i] == before[i]);
                            }
                        }
                    }
                    return Targets::Only(list);
                }
                proof {
                    lemma_comma_boundary(bytes@, n as int);
                }
                let (head, tail) = rest.split_at(n);
                let (_, after) = tail.split_at(1);
                let ghost listed = list@;
                list.push(head.to_owned());
                proof {
                    assert forall|i: int| 0 <= i < list@.len() implies encode_utf8(
                        (#[trigger] list@[i])@,
                    ) == done.push(head.spec_bytes())[i] by {
                        if i < listed.len() {
                            assert(list@[i] == listed[i]);
                        }
                    }
                    assert(after.spec_bytes() =~= bytes@.skip(n + 1));
                    assert(head.spec_bytes() =~= bytes@.take(n as int));
                    assert(parts(bytes@) == seq![bytes@.take(n as int)] + parts(
                        bytes@.skip(n + 1),
                    ));
                    let before = done;
                    done = done.push(head.spec_bytes());
                    assert(before + (seq![bytes@.take(n as int)] + parts(bytes@.skip(n + 1)))
                        =~= done + parts(after.spec_bytes()));
                }
                rest = after;
            }
        },
        _ => Targets::All,
    }
}

/// A logger's filter: the least severe level that it lets through, and the
/// targets that it logs.
#[derive(Debug)]
pub struct Logger {
    /// The filter used to determine what messages to log.
    pub filter: LevelFilter,
    /// What logging targets to log.
    pub targets: Targets,
}

impl Logger {
    /// Whether a record of level `level` and target `target` is let
    /// through: its level must be no less severe than the filter's, and its
    /// target one to log.
    pub fn enabled(&self, level: Level, target: &str) -> (r: bool)
        ensures
            r == (filter_rank(self.filter) >= level_rank(level) && lets_through(
                self.targets,
                target@,
            )),
    {
        let filter: u8 = match self.filter {
            LevelFilter::Off => 0,
            LevelFilter::Error => 1,
            LevelFilter::Warn => 2,
            LevelFilter::Info => 3,
            LevelFilter::Debug => 4,
            LevelFilter::Trace => 5,
        };
        let rank: u8 = match level {
            Level::Error => 1,
            Level::Warn => 2,
            Level::Info => 3,
            Level::Debug => 4,
            Level::Trace => 5,
        };
        filter >= rank && self.targets.should_log(target)
    }

    /// Whether the logger writes the details that only debugging needs: it
    /// does where it lets records of level `Debug` through.
    pub fn is_verbose(&self) -> (r: bool)
        ensures
            r == (filter_rank(self.filter) >= 4),
    {
        match self.filter {
            LevelFilter::Debug => true,
            LevelFilter::Trace => true,
            _ => false,
        }
    }
}

} // verus!
