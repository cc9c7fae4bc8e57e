use std_logger_parser::level::parse_log_level;
use std_logger_parser::line::{parse_line, set_field};
use std_logger_parser::number::{is_decimal_number, parse_i64, parse_u32};
use std_logger_parser::record::{parse_file, parse_string};
use std_logger_parser::scan::{
    eat_space, eat_space_end, parse_key, parse_naked_value, parse_qouted_value, parse_value,
    single_line,
};
use std_logger_parser::time::{parse_timestamp, seconds_since_epoch};
use std_logger_parser::{KeyValues, Level, Line, ParseErrorKind, Record, Timestamp, Value};

#[test]
fn eat_space_removes_leading_spaces_and_tabs() {
    assert_eq!(eat_space(b"  \t a b "), b"a b ");
    assert_eq!(eat_space(b"a"), b"a");
    assert_eq!(eat_space(b" \t "), b"");
    assert_eq!(eat_space(b""), b"");
    assert_eq!(eat_space(b" \n a"), b"\n a");
}

#[test]
fn eat_space_end_removes_trailing_spaces_and_tabs() {
    assert_eq!(eat_space_end(b" a b \t "), b" a b");
    assert_eq!(eat_space_end(b"a"), b"a");
    assert_eq!(eat_space_end(b" \t "), b"");
    assert_eq!(eat_space_end(b""), b"");
    assert_eq!(eat_space_end(b"a\n "), b"a\n");
}

#[test]
fn single_line_stops_at_the_first_line_feed() {
    assert_eq!(single_line(b"one\ntwo\n"), b"one");
    assert_eq!(single_line(b"one"), b"one");
    assert_eq!(single_line(b"\none"), b"");
    assert_eq!(single_line(b""), b"");
}

#[test]
fn parse_key_splits_at_the_first_equals_sign() {
    let (rest, key) = parse_key(b"key=value=x").unwrap().unwrap();
    assert_eq!((rest, key), (&b"value=x"[..], "key"));
    let (rest, key) = parse_key(b"my key \t= v").unwrap().unwrap();
    assert_eq!((rest, key), (&b" v"[..], "my key"));
    let (rest, key) = parse_key(b"=").unwrap().unwrap();
    assert_eq!((rest, key), (&b""[..], ""));
    let (rest, key) = parse_key("gr\u{fc}n=1".as_bytes()).unwrap().unwrap();
    assert_eq!((rest, key), (&b"1"[..], "gr\u{fc}n"));
}

#[test]
fn parse_key_without_equals_sign_is_incomplete() {
    assert!(parse_key(b"key").unwrap().is_none());
    assert!(parse_key(b"").unwrap().is_none());
    // An incomplete key is not looked into.
    assert!(parse_key(b"\xff").unwrap().is_none());
}

#[test]
fn parse_key_rejects_invalid_utf8() {
    assert!(matches!(parse_key(b"k\xff=1"), Err(ParseErrorKind::KeyInvalidUtf8)));
    assert!(matches!(parse_key(b"\xc3=1"), Err(ParseErrorKind::KeyInvalidUtf8)));
}

#[test]
fn parse_naked_value_runs_to_the_first_space() {
    assert_eq!(parse_naked_value(b"value rest"), (&b" rest"[..], &b"value"[..]));
    assert_eq!(parse_naked_value(b"value\nrest"), (&b""[..], &b"value\nrest"[..]));
    assert_eq!(parse_naked_value(b"value\n rest"), (&b" rest"[..], &b"value\n"[..]));
    assert_eq!(parse_naked_value(b"\nvalue rest"), (&b" rest"[..], &b"\nvalue"[..]));
    assert_eq!(parse_naked_value(b"value"), (&b""[..], &b"value"[..]));
    assert_eq!(parse_naked_value(b"a\tb c"), (&b" c"[..], &b"a\tb"[..]));
    assert_eq!(parse_naked_value(b" x"), (&b" x"[..], &b""[..]));
    assert_eq!(parse_naked_value(b""), (&b""[..], &b""[..]));
}

#[test]
fn parse_qouted_value_ends_at_an_even_quote_before_space_or_line_feed() {
    assert_eq!(parse_qouted_value(b"\"value\" rest"), (&b" rest"[..], &b"value"[..]));
    assert_eq!(parse_qouted_value(b"\"value\"\nrest"), (&b"\nrest"[..], &b"value"[..]));
    assert_eq!(parse_qouted_value(b"\"a b\" c"), (&b" c"[..], &b"a b"[..]));
    assert_eq!(parse_qouted_value(b"\"\" c"), (&b" c"[..], &b""[..]));
    // The second quote is an even one, but no space follows it; the third is
    // followed by a space, but is an odd one.
    assert_eq!(parse_qouted_value(b"\"a\"b\" c\" d"), (&b" d"[..], &b"a\"b\" c"[..]));
    // A tab after the quote does not end the value.
    assert_eq!(parse_qouted_value(b"\"a\"\tb"), (&b""[..], &b"a\"\tb"[..]));
}

#[test]
fn parse_qouted_value_without_end_takes_all() {
    assert_eq!(parse_qouted_value(b"\"value"), (&b""[..], &b"value"[..]));
    assert_eq!(parse_qouted_value(b"\"value\""), (&b""[..], &b"value\""[..]));
    assert_eq!(parse_qouted_value(b"\""), (&b""[..], &b""[..]));
}

#[test]
fn parse_value_picks_the_scanner() {
    assert_eq!(parse_value(b"  \t\"a b\" c"), (&b" c"[..], &b"a b"[..]));
    assert_eq!(parse_value(b"  a b"), (&b" b"[..], &b"a"[..]));
    assert_eq!(parse_value(b"a\"b\" c"), (&b" c"[..], &b"a\"b\""[..]));
    assert_eq!(parse_value(b"   "), (&b""[..], &b""[..]));
}

#[test]
fn seconds_since_epoch_of_known_dates() {
    assert_eq!(seconds_since_epoch(1970, 1, 1, 0, 0, 0), 0);
    assert_eq!(seconds_since_epoch(2021, 2, 23, 13, 15, 48), 1614086148);
    assert_eq!(seconds_since_epoch(2000, 2, 29, 23, 59, 59), 951868799);
    assert_eq!(seconds_since_epoch(9999, 12, 31, 23, 59, 59), 253402300799);
    assert_eq!(seconds_since_epoch(1969, 12, 31, 0, 0, 0), -86400);
    assert_eq!(seconds_since_epoch(1, 1, 1, 0, 0, 0), -62135596800);
    assert_eq!(seconds_since_epoch(0, 1, 1, 0, 0, 0), -62167219200);
}

#[test]
fn seconds_since_epoch_counts_on_past_the_usual_ranges() {
    // Month 13 is January of the next year, month 0 December of the last.
    assert_eq!(seconds_since_epoch(2021, 13, 1, 0, 0, 0), 1640995200);
    assert_eq!(seconds_since_epoch(2022, 0, 1, 0, 0, 0), seconds_since_epoch(2021, 12, 1, 0, 0, 0));
    // 2021 is no leap year: its 30th of February is the 2nd of March.
    assert_eq!(seconds_since_epoch(2021, 2, 30, 0, 0, 0), 1614643200);
    assert_eq!(seconds_since_epoch(2021, 3, 0, 0, 0, 0), seconds_since_epoch(2021, 2, 28, 0, 0, 0));
    assert_eq!(seconds_since_epoch(1970, 1, 1, 24, 60, 60), 86400 + 3600 + 60);
    assert_eq!(seconds_since_epoch(1970, 1, 1, -1, 0, 0), -3600);
}

#[test]
fn parse_timestamp_reads_the_fixed_format() {
    assert_eq!(
        parse_timestamp(b"2021-02-23T13:15:48.624447Z").unwrap(),
        Timestamp { secs: 1614086148, nanos: 624447000 }
    );
    assert_eq!(
        parse_timestamp(b"1970-01-01T00:00:00.000000Z").unwrap(),
        Timestamp { secs: 0, nanos: 0 }
    );
    assert_eq!(
        parse_timestamp(b"9999-12-31T23:59:59.999999Z").unwrap(),
        Timestamp { secs: 253402300799, nanos: 999999000 }
    );
    assert_eq!(
        parse_timestamp(b"0000-01-01T00:00:00.000001Z").unwrap(),
        Timestamp { secs: -62167219200, nanos: 1000 }
    );
    // Numbers outside their usual range count on: the 31st of February.
    assert_eq!(
        parse_timestamp(b"2021-02-31T00:00:00.000000Z").unwrap(),
        Timestamp { secs: 1614643200 + 86400, nanos: 0 }
    );
    assert_eq!(
        parse_timestamp(b"2021-13-01T00:00:00.000000Z").unwrap(),
        Timestamp { secs: 1640995200, nanos: 0 }
    );
}

#[test]
fn parse_timestamp_rejects_other_shapes() {
    let bad: [&[u8]; 16] = [
        b"",
        b"1970-+1--1T00:00:00.+00005Z",
        b"2021-02-23T13:15:48.+24447Z",
        b"+021-02-23T13:15:48.624447Z",
        b"2021-02-23T-3:15:48.624447Z",
        b"2021-02-23T13:15:48.624447",
        b"2021-02-23T13:15:48.6244470Z",
        b"2021/02-23T13:15:48.624447Z",
        b"2021-02/23T13:15:48.624447Z",
        b"2021-02-23 13:15:48.624447Z",
        b"2021-02-23T13.15:48.624447Z",
        b"2021-02-23T13:15.48.624447Z",
        b"2021-02-23T13:15:48:624447Z",
        b"2021-02-23T13:15:48.624447z",
        b"2021-02-23T13:15:48.-24447Z",
        b"20x1-02-23T13:15:48.624447Z",
    ];
    for value in bad {
        assert!(
            matches!(parse_timestamp(value), Err(ParseErrorKind::InvalidTimestamp)),
            "value {:?}",
            value
        );
    }
    assert!(parse_timestamp(b"2021-02-23T13:15:4\xff.624447Z").is_err());
    assert!(parse_timestamp(b"2021-02-23T13:15: 8.624447Z").is_err());
    assert!(parse_timestamp(b"2021-02-23T13:15:+-.624447Z").is_err());
}

#[test]
fn parse_log_level_knows_the_five_names() {
    assert_eq!(parse_log_level(b"ERROR").unwrap(), Level::Error);
    assert_eq!(parse_log_level(b"WARN").unwrap(), Level::Warn);
    assert_eq!(parse_log_level(b"INFO").unwrap(), Level::Info);
    assert_eq!(parse_log_level(b"DEBUG").unwrap(), Level::Debug);
    assert_eq!(parse_log_level(b"TRACE").unwrap(), Level::Trace);
    // Small letters do as well as capitals.
    assert_eq!(parse_log_level(b"error").unwrap(), Level::Error);
    assert_eq!(parse_log_level(b"Warn").unwrap(), Level::Warn);
    assert_eq!(parse_log_level(b"iNfO").unwrap(), Level::Info);
    assert_eq!(parse_log_level(b"debug").unwrap(), Level::Debug);
    assert_eq!(parse_log_level(b"tracE").unwrap(), Level::Trace);
}

#[test]
fn parse_log_level_rejects_anything_else() {
    let bad: [&[u8]; 8] =
        [b"", b"INF", b"INFOS", b"INFO ", b" INFO", b"OFF", b"WARNING", b"INF\xff"];
    for value in bad {
        assert!(
            matches!(parse_log_level(value), Err(ParseErrorKind::InvalidLevel)),
            "value {:?}",
            value
        );
    }
}

#[test]
fn levels_are_ordered_by_severity() {
    assert!(Level::Error < Level::Warn);
    assert!(Level::Warn < Level::Info);
    assert!(Level::Info < Level::Debug);
    assert!(Level::Debug < Level::Trace);
}

#[test]
fn parse_string_wants_utf8() {
    assert_eq!(parse_string(b"hello").unwrap(), "hello");
    assert_eq!(parse_string(b"").unwrap(), "");
    assert_eq!(parse_string("gr\u{fc}n \u{1f600}".as_bytes()).unwrap(), "gr\u{fc}n \u{1f600}");
    assert!(matches!(parse_string(b"\xff"), Err(ParseErrorKind::InvalidValue)));
    assert!(matches!(parse_string(b"a\xc3"), Err(ParseErrorKind::InvalidValue)));
    // A surrogate and an overlong form are no UTF-8.
    assert!(matches!(parse_string(b"\xed\xa0\x80"), Err(ParseErrorKind::InvalidValue)));
    assert!(matches!(parse_string(b"\xc0\x80"), Err(ParseErrorKind::InvalidValue)));
}

#[test]
fn parse_file_splits_at_the_last_colon() {
    assert_eq!(parse_file(b"examples/simple.rs:51").unwrap(), ("examples/simple.rs", 51));
    assert_eq!(parse_file(b"C:\\src\\main.rs:7").unwrap(), ("C:\\src\\main.rs", 7));
    assert_eq!(parse_file(b"a:b:+3").unwrap(), ("a:b", 3));
    assert_eq!(parse_file(b":0").unwrap(), ("", 0));
    assert_eq!(parse_file(b"f:4294967295").unwrap(), ("f", 4294967295));
    assert_eq!(parse_file(b"f:0042").unwrap(), ("f", 42));
}

#[test]
fn parse_file_rejects_other_shapes() {
    let bad: [&[u8]; 9] = [
        b"",
        b"examples/simple.rs",
        b"examples/simple.rs:",
        b"examples/simple.rs:x",
        b"examples/simple.rs:-1",
        b"examples/simple.rs:4294967296",
        b"examples/simple.rs:1 ",
        b"examples/simple.rs:+",
        b"examples/\xff.rs:1",
    ];
    for value in bad {
        assert!(
            matches!(parse_file(value), Err(ParseErrorKind::InvalidFile)),
            "value {:?}",
            value
        );
    }
}

#[test]
fn integers() {
    assert_eq!(parse_i64(b"0"), Some(0));
    assert_eq!(parse_i64(b"42"), Some(42));
    assert_eq!(parse_i64(b"+42"), Some(42));
    assert_eq!(parse_i64(b"-42"), Some(-42));
    assert_eq!(parse_i64(b"-0"), Some(0));
    assert_eq!(parse_i64(b"007"), Some(7));
    assert_eq!(parse_i64(b"9223372036854775807"), Some(i64::MAX));
    assert_eq!(parse_i64(b"-9223372036854775808"), Some(i64::MIN));
    assert_eq!(parse_i64(b"9223372036854775808"), None);
    assert_eq!(parse_i64(b"-9223372036854775809"), None);
    assert_eq!(parse_i64(b"99999999999999999999999999"), None);
    assert_eq!(parse_i64(b"0000000000000000000000000001"), Some(1));
    for bad in [&b""[..], b"+", b"-", b"--1", b"1-", b" 1", b"1 ", b"1_000", b"0x10", b"1.0"] {
        assert_eq!(parse_i64(bad), None, "text {:?}", bad);
    }
    assert_eq!(parse_u32(b"0"), Some(0));
    assert_eq!(parse_u32(b"+7"), Some(7));
    assert_eq!(parse_u32(b"4294967295"), Some(u32::MAX));
    assert_eq!(parse_u32(b"4294967296"), None);
    assert_eq!(parse_u32(b"-0"), None);
    assert_eq!(parse_u32(b""), None);
    assert_eq!(parse_u32(b"+"), None);
}

#[test]
fn integers_agree_with_rust() {
    let texts = [
        "", "0", "-0", "+0", "12", "+12", "-12", "1 ", "a", "+-1", "9223372036854775807",
        "9223372036854775808", "-9223372036854775808", "-9223372036854775809", "4294967295",
        "4294967296", "00000000000000000000000000000000000000009",
    ];
    for text in texts {
        assert_eq!(parse_i64(text.as_bytes()), text.parse::<i64>().ok(), "text {:?}", text);
        assert_eq!(parse_u32(text.as_bytes()), text.parse::<u32>().ok(), "text {:?}", text);
    }
}

#[test]
fn decimal_numbers() {
    let good = [
        "0", "1", "-1", "+1", "3.14", "-3.14", ".5", "5.", "+.5", "-5.", "1e5", "1E5", "1e+5",
        "1e-5", "1.5e10", ".5e1", "5.e1", "0000.0000", "99999999999999999999",
    ];
    for text in good {
        assert!(is_decimal_number(text.as_bytes()), "text {:?}", text);
        assert!(text.parse::<f64>().is_ok(), "text {:?}", text);
    }
    let bad = [
        "", ".", "+", "-", "+.", "e5", ".e5", "1e", "1e+", "1e5.", "1.5.2", "1..5", "1 ", " 1",
        "1_0", "0x10", "1e5e5", "--1", "1-", "abc", "1f", "inf", "nan", "infinity", "NaN", "-inf",
    ];
    for text in bad {
        assert!(!is_decimal_number(text.as_bytes()), "text {:?}", text);
    }
}

#[test]
fn value_inference() {
    assert_eq!(Value::from_str("true"), Value::Bool(true));
    assert_eq!(Value::from_str("false"), Value::Bool(false));
    assert_eq!(Value::from_str("42"), Value::Int(42));
    assert_eq!(Value::from_str("-42"), Value::Int(-42));
    assert_eq!(Value::from_str("+42"), Value::Int(42));
    assert_eq!(Value::from_str("3.14"), Value::Float("3.14".to_owned()));
    assert_eq!(Value::from_str("-1e-3"), Value::Float("-1e-3".to_owned()));
    // An integer too large for 64 bits is still a number.
    assert_eq!(
        Value::from_str("9223372036854775808"),
        Value::Float("9223372036854775808".to_owned())
    );
    for text in ["", "True", "TRUE", "yes", "1.2.3", "12ab", "nan", "inf", " 1", "tru", "truee"] {
        assert_eq!(Value::from_str(text), Value::String(text.to_owned()), "text {:?}", text);
    }
}

#[test]
fn key_values_insert_and_get() {
    let mut pairs = KeyValues::new();
    assert_eq!(pairs.len(), 0);
    assert_eq!(pairs.get("a"), None);
    assert!(pairs.entry(0).is_none());
    pairs.insert("a".to_owned(), Value::Int(1));
    pairs.insert("b".to_owned(), Value::Int(2));
    assert_eq!(pairs.len(), 2);
    pairs.insert("a".to_owned(), Value::Bool(false));
    assert_eq!(pairs.len(), 2);
    assert_eq!(pairs.get("a"), Some(&Value::Bool(false)));
    assert_eq!(pairs.get("b"), Some(&Value::Int(2)));
    assert_eq!(pairs.get("c"), None);
    assert_eq!(pairs.get(""), None);
    assert_eq!(pairs.entry(0), Some((&"a".to_owned(), &Value::Bool(false))));
    assert_eq!(pairs.entry(1), Some((&"b".to_owned(), &Value::Int(2))));
    assert!(pairs.entry(2).is_none());
}

#[test]
fn empty_record() {
    let record = Record::empty();
    assert_eq!(record.timestamp, None);
    assert_eq!(record.level, Level::Info);
    assert_eq!(record.msg, "");
    assert_eq!(record.target, "");
    assert_eq!(record.module, None);
    assert_eq!(record.file, None);
    assert_eq!(record.key_values.len(), 0);
}

#[test]
fn set_field_routes_by_key() {
    let mut record = Record::empty();
    set_field(&mut record, "ts", b"1970-01-01T00:00:01.000000Z").unwrap();
    set_field(&mut record, "lvl", b"ERROR").unwrap();
    set_field(&mut record, "msg", b"m").unwrap();
    set_field(&mut record, "target", b"t").unwrap();
    set_field(&mut record, "module", b"mo").unwrap();
    set_field(&mut record, "file", b"f:1").unwrap();
    set_field(&mut record, "Msg", b"other").unwrap();
    set_field(&mut record, "", b"1").unwrap();
    assert_eq!(record.timestamp, Some(Timestamp { secs: 1, nanos: 0 }));
    assert_eq!(record.level, Level::Error);
    assert_eq!(record.msg, "m");
    assert_eq!(record.target, "t");
    assert_eq!(record.module.as_deref(), Some("mo"));
    assert_eq!(record.file, Some(("f".to_owned(), 1)));
    assert_eq!(record.key_values.len(), 2);
    assert_eq!(record.key_values.get("Msg"), Some(&Value::String("other".to_owned())));
    assert_eq!(record.key_values.get(""), Some(&Value::Int(1)));
    assert!(matches!(set_field(&mut record, "ts", b"x"), Err(ParseErrorKind::InvalidTimestamp)));
    assert!(matches!(set_field(&mut record, "lvl", b"x"), Err(ParseErrorKind::InvalidLevel)));
    assert!(matches!(set_field(&mut record, "file", b"x"), Err(ParseErrorKind::InvalidFile)));
    assert!(matches!(set_field(&mut record, "msg", b"\xff"), Err(ParseErrorKind::InvalidValue)));
    assert!(matches!(set_field(&mut record, "k", b"\xff"), Err(ParseErrorKind::InvalidValue)));
}

#[test]
fn parse_line_tells_the_four_outcomes() {
    match parse_line(b"msg=\"a\"\nmsg=\"b\"\n", false) {
        (Line::Record(record), used) => {
            assert_eq!(record.msg, "a");
            assert_eq!(used, 8);
        }
        other => panic!("unexpected line: {:?}", other),
    }
    assert!(matches!(parse_line(b"  \nmsg=b\n", false), (Line::Blank, 3)));
    assert!(matches!(parse_line(b" \t", false), (Line::Blank, 2)));
    assert!(matches!(parse_line(b"", true), (Line::Blank, 0)));
    assert!(matches!(parse_line(b"msg", false), (Line::Incomplete, 0)));
    assert!(matches!(parse_line(b"msg", true), (Line::Incomplete, 0)));
    assert!(matches!(parse_line(b"msg=", false), (Line::Incomplete, 0)));
    assert!(matches!(parse_line(b"msg=abc", false), (Line::Incomplete, 0)));
    assert!(matches!(parse_line(b"a=1 msg=\"abc\"", false), (Line::Incomplete, 0)));
    assert!(matches!(parse_line(b"msg=abc", true), (Line::Record(_), 7)));
    assert!(matches!(parse_line(b"msg=abc ", false), (Line::Record(_), 8)));
    // A bare value takes the line feed, and may be empty.
    assert!(matches!(parse_line(b"msg=abc\nmsg=b", false), (Line::Incomplete, 0)));
    assert!(matches!(parse_line(b"msg=", true), (Line::Record(_), 4)));
    match parse_line(b"lvl=x msg=a\nmsg=b\n", false) {
        (Line::Bad(error), used) => {
            assert!(matches!(error.kind, ParseErrorKind::InvalidLevel));
            assert_eq!(error.line.as_deref(), Some(&b"lvl=x msg=a"[..]));
            assert_eq!(used, 12);
        }
        other => panic!("unexpected line: {:?}", other),
    }
    // Without a line feed the line of the error is all that was read.
    assert!(matches!(parse_line(b"lvl=x msg=a", false), (Line::Bad(_), 11)));
}
