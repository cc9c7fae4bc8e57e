//! The severity of a log record, and the names of the severities.

use std::str::FromStr;
use vstd::prelude::*;
use vstd::utf8::{encode_utf8, valid_utf8};
use vstd::string::*;
use crate::bytes::str_from_utf8;
use crate::error::ParseErrorKind;

verus! {

/// How severe a log record is, the most severe first.
#[derive(Clone, Copy, Debug, PartialEq, Eq, Structural, PartialOrd, Ord, Hash)]
pub enum Level {
    /// Serious errors.
    Error,
    /// Hazardous situations.
    Warn,
    /// Useful information.
    Info,
    /// Lower priority information.
    Debug,
    /// Very low priority, often very verbose, information.
    Trace,
}

/// Which records are let through: none, or those of a level and of the
/// more severe ones.
#[derive(Clone, Copy, Debug, PartialEq, Eq, Structural, PartialOrd, Ord, Hash)]
pub enum LevelFilter {
    /// No record.
    Off,
    /// Errors only.
    Error,
    /// Warnings and errors.
    Warn,
    /// Information and what is more severe.
    Info,
    /// All but traces.
    Debug,
    /// Every record.
    Trace,
}

/// `b` as a small letter where it is a capital one of ASCII, else `b`.
pub open spec fn lower(b: u8) -> u8 {
    if 0x41 <= b <= 0x5a {
        (b + 0x20) as u8
    } else {
        b
    }
}

/// Whether `a` and `b` differ at most in the case of ASCII letters.
pub open spec fn same_ignoring_case(a: Seq<u8>, b: Seq<u8>) -> bool {
    &&& a.len() == b.len()
    &&& forall|i: int| 0 <= i < a.len() ==> lower(#[trigger] a[i]) == lower(b[i])
}

/// Whether the text with the UTF-8 bytes `name` is `word`, in capitals or
/// small letters.
pub open spec fn names(name: Seq<u8>, word: &str) -> bool {
    same_ignoring_case(name, encode_utf8(word@))
}

/// The level that `name` names: `ERROR`, `WARN`, `INFO`, `DEBUG` or `TRACE`,
/// in capitals or small letters.
pub open spec fn level_named(name: Seq<u8>) -> Option<Level> {
    if names(name, "ERROR") {
        Some(Level::Error)
    } else if names(name, "WARN") {
        Some(Level::Warn)
    } else if names(name, "INFO") {
        Some(Level::Info)
    } else if names(name, "DEBUG") {
        Some(Level::Debug)
    } else if names(name, "TRACE") {
        Some(Level::Trace)
    } else {
        None
    }
}

/// The filter that `name` names: `OFF` or the name of a level, in capitals
/// or small letters.
pub open spec fn level_filter_named(name: Seq<u8>) -> Option<LevelFilter> {
    if names(name, "OFF") {
        Some(LevelFilter::Off)
    } else {
        match level_named(name) {
            Some(Level::Error) => Some(LevelFilter::Error),
            Some(Level::Warn) => Some(LevelFilter::Warn),
            Some(Level::Info) => Some(LevelFilter::Info),
            Some(Level::Debug) => Some(LevelFilter::Debug),
            Some(Level::Trace) => Some(LevelFilter::Trace),
            None => None,
        }
    }
}

/// The level that the value `value` names.
pub open spec fn level_of(value: Seq<u8>) -> Option<Level> {
    if valid_utf8(value) {
        level_named(value)
    } else {
        None
    }
}

/// The level that `name` names.
///
/// Rests on `FromStr` of `log::Level`: it goes through the names `ERROR`,
/// `WARN`, `INFO`, `DEBUG` and `TRACE`, compares each with `name` by
/// `str::eq_ignore_ascii_case`, and gives the level of the first that is
/// the same, or an error if none is.
#[verifier::external_body]
pub(crate) fn level_from_str(name: &str) -> (r: Option<Level>)
    ensures
        r == level_named(name.spec_bytes()),
{
    match log::Level::from_str(name) {
        Ok(log::Level::Error) => Some(Level::Error),
        Ok(log::Level::Warn) => Some(Level::Warn),
        Ok(log::Level::Info) => Some(Level::Info),
        Ok(log::Level::Debug) => Some(Level::Debug),
        Ok(log::Level::Trace) => Some(Level::Trace),
        Err(_) => None,
    }
}

/// The filter that `name` names.
///
/// Rests on `FromStr` of `log::LevelFilter`: it goes through the names
/// `OFF`, `ERROR`, `WARN`, `INFO`, `DEBUG` and `TRACE`, compares each with
/// `name` by `str::eq_ignore_ascii_case`, and gives the filter of the first
/// that is the same, or an error if none is.
#[verifier::external_body]
pub(crate) fn level_filter_from_str(name: &str) -> (r: Option<LevelFilter>)
    ensures
        r == level_filter_named(name.spec_bytes()),
{
    match log::LevelFilter::from_str(name) {
        Ok(log::LevelFilter::Off) => Some(LevelFilter::Off),
        Ok(log::LevelFilter::Error) => Some(LevelFilter::Error),
        Ok(log::LevelFilter::Warn) => Some(LevelFilter::Warn),
        Ok(log::LevelFilter::Info) => Some(LevelFilter::Info),
        Ok(log::LevelFilter::Debug) => Some(LevelFilter::Debug),
        Ok(log::LevelFilter::Trace) => Some(LevelFilter::Trace),
        Err(_) => None,
    }
}

/// Parse a log level from its name.
pub fn parse_log_level(value: &[u8]) -> (r: Result<Level, ParseErrorKind>)
    ensures
        r == match level_of(value@) {
            Some(level) => Ok::<Level, ParseErrorKind>(level),
            None => Err::<Level, ParseErrorKind>(ParseErrorKind::InvalidLevel),
        },
{
    match str_from_utf8(value) {
        Some(name) => match level_from_str(name) {
            Some(level) => Ok(level),
            None => Err(ParseErrorKind::InvalidLevel),
        },
        None => Err(ParseErrorKind::InvalidLevel),
    }
}

} // verus!
