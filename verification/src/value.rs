//! Values of the keys that have no fixed meaning.

use vstd::prelude::*;
use vstd::utf8::encode_utf8;
use vstd::string::*;
use crate::bytes::{is_text, lemma_same_bytes_same_text};
use crate::number::{integer_within, is_decimal, is_decimal_number, parse_i64};

verus! {

/// A parsed value from a key-value pair.
///
/// Note that parsing is done on a best-effort basis, which means integers,
/// decimal numbers etc. might actually be represented as a
/// [`Value::String`].
#[derive(Debug, Clone, PartialEq, Eq)]
pub enum Value {
    /// Parsed boolean.
    Bool(bool),
    /// Parsed integer.
    Int(i64),
    /// A decimal number that is no 64 bit integer, as it was written. Any
    /// such text is accepted by Rust's parsing of floating point numbers.
    Float(String),
    /// Unparsed string.
    String(String),
}

/// A [`Value`] with its text as a sequence of characters.
pub enum ValueView {
    Bool(bool),
    Int(i64),
    Float(Seq<char>),
    String(Seq<char>),
}

impl View for Value {
    type V = ValueView;

    open spec fn view(&self) -> ValueView {
        match self {
            Value::Bool(b) => ValueView::Bool(*b),
            Value::Int(i) => ValueView::Int(*i),
            Value::Float(text) => ValueView::Float(text@),
            Value::String(text) => ValueView::String(text@),
        }
    }
}

/// The value that `text` stands for: a boolean where it is `true` or
/// `false`; else an integer where it writes one that fits 64 bits; else a
/// decimal number where it writes one; else the text itself.
pub open spec fn infer(text: Seq<char>) -> ValueView {
    if text == "true"@ {
        ValueView::Bool(true)
    } else if text == "false"@ {
        ValueView::Bool(false)
    } else {
        match integer_within(encode_utf8(text), i64::MIN as int, i64::MAX as int) {
            Some(v) => ValueView::Int(v as i64),
            None => if is_decimal(encode_utf8(text)) {
                ValueView::Float(text)
            } else {
                ValueView::String(text)
            },
        }
    }
}

impl Value {
    /// Finds the type of a value from its text. Every text has a value: one
    /// that is nothing else is a [`Value::String`].
    pub fn from_str(value: &str) -> (r: Value)
        ensures
            r@ == infer(value@),
    {
        let bytes = value.as_bytes();
        proof {
            lemma_same_bytes_same_text(value@, "true"@);
            lemma_same_bytes_same_text(value@, "false"@);
        }
        if is_text(bytes, "true") {
            Value::Bool(true)
        } else if is_text(bytes, "false") {
            Value::Bool(false)
        } else {
            match parse_i64(bytes) {
                Some(i) => Value::Int(i),
                None => if is_decimal_number(bytes) {
                    Value::Float(value.to_owned())
                } else {
                    Value::String(value.to_owned())
                },
            }
        }
    }
}

} // verus!
