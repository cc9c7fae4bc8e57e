//! A streaming parser for log records in the logfmt format.
//!
//! A log is a sequence of lines, each a run of `key=value` pairs separated by
//! spaces or tabs. [`parse`] makes a [`Parser`]. The parser reads nothing
//! itself: [`Parser::next`] hands out one record or one error at a time, or
//! says that it needs input, which the caller reads and hands to
//! [`Parser::fill_buf`].
//!
//! ```text
//! ts="2021-02-23T13:15:48.624447Z" lvl="INFO" msg="hello" target="app" user=7
//! ```
//!
//! The keys `ts`, `lvl`, `msg`, `target`, `module` and `file` fill the fields
//! of a [`Record`]; every other key becomes one of its key-value pairs, with
//! a [`Value`] whose type is found from its text.
//!
//! Every executable function is verified against a contract stated over the
//! bytes it reads, and the module [`laws`] proves what holds of a whole run.

pub mod bytes;
pub mod error;
pub mod filter;
pub mod laws;
pub mod level;
pub mod line;
pub mod number;
pub mod parser;
pub mod record;
pub mod scan;
pub mod time;
pub mod value;

pub use error::{ParseError, ParseErrorKind};
pub use filter::{get_log_targets, get_max_level, Logger, Targets, REQUEST_TARGET};
pub use level::{Level, LevelFilter};
pub use line::Line;
pub use parser::{parse, Parser, Step};
pub use record::{KeyValues, Record};
pub use time::Timestamp;
pub use value::Value;
