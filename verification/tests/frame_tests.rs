use bytes::{Bytes, BytesMut};
use rredis::decimal::{parse_i64, parse_usize};
use rredis::error::ParseError;
use rredis::parser::{
    parse_arg, parse_array, parse_bulk_string, parse_integer, parse_request, parse_simple_string,
    Arg,
};

fn bulk(s: &str) -> Arg {
    Arg::Bytes(Bytes::from(s.to_string()))
}

// Streaming: a frame followed by more bytes parses the same, and leaves
// exactly the bytes after it.
#[test]
fn frames_back_to_back_are_read_in_turn() {
    let mut buf = BytesMut::from("+OK\r\n:-7\r\n$3\r\na\r\n\r\n*2\r\n:1\r\n+x\r\nrest");
    assert_eq!(parse_arg(&mut buf).unwrap(), Arg::String("OK".to_string()));
    assert_eq!(&buf[..], b":-7\r\n$3\r\na\r\n\r\n*2\r\n:1\r\n+x\r\nrest");
    assert_eq!(parse_arg(&mut buf).unwrap(), Arg::Int(-7));
    assert_eq!(parse_arg(&mut buf).unwrap(), bulk("a\r\n"));
    assert_eq!(
        parse_arg(&mut buf).unwrap(),
        Arg::Array(vec![Arg::Int(1), Arg::String("x".to_string())])
    );
    assert_eq!(&buf[..], b"rest");
}

// Reading back integers at the ends of the range.
#[test]
fn integer_frames_read_back() {
    let mut buf = BytesMut::from(":-9223372036854775808\r\n:9223372036854775807\r\n:0\r\n");
    assert_eq!(parse_integer(&mut buf).unwrap(), i64::MIN);
    assert_eq!(parse_integer(&mut buf).unwrap(), i64::MAX);
    assert_eq!(parse_integer(&mut buf).unwrap(), 0);
    assert!(buf.is_empty());
}

#[test]
fn integer_out_of_range_is_refused_and_nothing_consumed() {
    for input in [":9223372036854775808\r\n", ":-9223372036854775809\r\n", ":+-1\r\n", ":-\r\n"] {
        let mut buf = BytesMut::from(input);
        assert_eq!(parse_integer(&mut buf), Err(ParseError::InvalidInteger));
        assert_eq!(&buf[..], input.as_bytes());
    }
}

#[test]
fn integer_errors() {
    let mut buf = BytesMut::from(":1\r");
    assert_eq!(parse_integer(&mut buf), Err(ParseError::InvalidIntegerPrefix));
    let mut buf = BytesMut::from(":12\n\r");
    assert_eq!(parse_integer(&mut buf), Err(ParseError::InvalidIntegerInput));
    let mut buf = BytesMut::from(&b":\xff\r\n"[..]);
    assert_eq!(parse_integer(&mut buf), Err(ParseError::InvalidUtf8));
    assert_eq!(buf.len(), 4);
}

// Reading back a bulk string whose content holds CR LF and any byte.
#[test]
fn bulk_string_content_is_taken_by_length() {
    let mut buf = BytesMut::from(&b"$6\r\n\r\n\x00\xff\r\n\r\nnext"[..]);
    let b = parse_bulk_string(&mut buf).unwrap();
    assert_eq!(&b[..], b"\r\n\x00\xff\r\n");
    assert_eq!(&buf[..], b"next");
}

#[test]
fn bulk_string_length_may_carry_a_plus() {
    let mut buf = BytesMut::from("$+2\r\nOK\r\n");
    assert_eq!(parse_bulk_string(&mut buf).unwrap(), "OK");
    assert!(buf.is_empty());
}

#[test]
fn bulk_string_errors_and_what_they_leave() {
    let mut buf = BytesMut::from("x");
    assert_eq!(parse_bulk_string(&mut buf), Err(ParseError::NoBulkStringCode));
    assert_eq!(&buf[..], b"x");

    let mut buf = BytesMut::from("$1");
    assert_eq!(parse_bulk_string(&mut buf), Err(ParseError::BufTooShortForCrlf));
    assert_eq!(&buf[..], b"1");

    let mut buf = BytesMut::from("$12");
    assert_eq!(parse_bulk_string(&mut buf), Err(ParseError::NoCrlf));
    assert_eq!(&buf[..], b"12");

    let mut buf = BytesMut::from("$-1\r\nab");
    assert_eq!(parse_bulk_string(&mut buf), Err(ParseError::InvalidLength));
    assert_eq!(&buf[..], b"ab");

    let mut buf = BytesMut::from(&b"$\xff\r\nab"[..]);
    assert_eq!(parse_bulk_string(&mut buf), Err(ParseError::InvalidUtf8));
    assert_eq!(&buf[..], b"ab");

    let mut buf = BytesMut::from("$5\r\nab\r\n");
    assert_eq!(parse_bulk_string(&mut buf), Err(ParseError::BulkStringTooLong));
    assert_eq!(&buf[..], b"ab\r\n");

    let mut buf = BytesMut::from("$0\r\n");
    assert_eq!(parse_bulk_string(&mut buf), Err(ParseError::BulkStringTooLong));
    assert!(buf.is_empty());

    let mut buf = BytesMut::from("$1\r\nabc\r\n");
    assert_eq!(parse_bulk_string(&mut buf), Err(ParseError::MissingBulkStringCrlf));
    assert_eq!(&buf[..], b"bc\r\n");
}

#[test]
fn simple_string_errors_leave_the_buffer() {
    let mut buf = BytesMut::from("-ERR\r\n");
    assert_eq!(parse_simple_string(&mut buf), Err(ParseError::InvalidSimpleString));
    let mut buf = BytesMut::from("+OK\n\r");
    assert_eq!(parse_simple_string(&mut buf), Err(ParseError::IncompleteSimpleString));
    assert_eq!(&buf[..], b"+OK\n\r");
    let mut buf = BytesMut::from(&b"+\xc3\r\n"[..]);
    assert_eq!(parse_simple_string(&mut buf), Err(ParseError::InvalidUtf8));
    assert_eq!(&buf[..], b"+\xc3\r\n");
}

#[test]
fn simple_string_text_is_decoded() {
    let mut buf = BytesMut::from("+añ\rb\r\n+z\r\n");
    assert_eq!(parse_simple_string(&mut buf).unwrap(), "añ\rb");
    assert_eq!(&buf[..], b"+z\r\n");
}

#[test]
fn arg_errors() {
    let mut buf = BytesMut::new();
    assert_eq!(parse_arg(&mut buf), Err(ParseError::EmptyArg));
    let mut buf = BytesMut::from("-ERR\r\n");
    assert_eq!(parse_arg(&mut buf), Err(ParseError::InvalidArgPrefix));
    assert_eq!(&buf[..], b"-ERR\r\n");
}

#[test]
fn nested_arrays() {
    let mut buf = BytesMut::from("*2\r\n*0\r\n*1\r\n$4\r\nPING\r\n");
    assert_eq!(
        parse_array(&mut buf).unwrap(),
        Arg::Array(vec![Arg::Array(vec![]), Arg::Array(vec![bulk("PING")])])
    );
    assert!(buf.is_empty());
}

#[test]
fn array_errors_and_what_they_leave() {
    let mut buf = BytesMut::from("$1\r\na\r\n");
    assert_eq!(parse_array(&mut buf), Err(ParseError::NoArrayPrefix));
    assert_eq!(&buf[..], b"$1\r\na\r\n");

    let mut buf = BytesMut::from("*x\r\n");
    assert_eq!(parse_array(&mut buf), Err(ParseError::InvalidLength));
    assert!(buf.is_empty());

    // The first element is read, the second is missing.
    let mut buf = BytesMut::from("*2\r\n:1\r\n");
    assert_eq!(parse_array(&mut buf), Err(ParseError::EmptyArg));
    assert!(buf.is_empty());

    let mut buf = BytesMut::from("*2\r\n:1\r\n+oops");
    assert_eq!(parse_array(&mut buf), Err(ParseError::IncompleteSimpleString));
    assert_eq!(&buf[..], b"+oops");
}

#[test]
fn request_hands_back_the_array_it_reads() {
    let mut buf = BytesMut::from("*1\r\n$4\r\nPING\r\n:5\r\n");
    assert_eq!(
        parse_request(&mut buf).unwrap(),
        Some(Arg::Array(vec![Arg::Bytes(Bytes::from("PING"))]))
    );
    assert_eq!(&buf[..], b":5\r\n");
}

#[test]
fn request_without_an_array_reports_no_argument() {
    let mut buf = BytesMut::new();
    assert_eq!(parse_request(&mut buf), Err(ParseError::EmptyArg));
    let mut buf = BytesMut::from("*2\r\n:1\r\n");
    assert_eq!(parse_request(&mut buf), Err(ParseError::EmptyArg));
    assert!(buf.is_empty());
}

// Reading back a value nested to several levels.
#[test]
fn nested_value_reads_back() {
    let value = Arg::Array(vec![
        Arg::Int(-3),
        Arg::Array(vec![bulk("a\r\nb"), Arg::String("t\rx".to_string())]),
        Arg::Array(vec![]),
    ]);
    let mut buf = BytesMut::from("*3\r\n:-3\r\n*2\r\n$4\r\na\r\nb\r\n+t\rx\r\n*0\r\ntail");
    assert_eq!(parse_arg(&mut buf).unwrap(), value);
    assert_eq!(&buf[..], b"tail");
}

#[test]
fn cloned_args_are_equal() {
    let a = Arg::Array(vec![bulk("k"), Arg::Int(3), Arg::String("s".to_string())]);
    assert_eq!(a.clone(), a);
}

#[test]
fn decimal_parsing_follows_str_parse() {
    for text in ["0", "+0", "42", "-42", "+", "-", "", "1a", "9223372036854775807",
        "-9223372036854775808", "9223372036854775808", "00012", "+-3", " 1"] {
        assert_eq!(parse_i64(text.as_bytes()), text.parse::<i64>().ok(), "{text:?}");
        assert_eq!(parse_usize(text.as_bytes()), text.parse::<usize>().ok(), "{text:?}");
    }
}
