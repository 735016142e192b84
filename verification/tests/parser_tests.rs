use bytes::{Bytes, BytesMut};
use rredis::parser::{
    parse_arg, parse_array, parse_bulk_string, parse_integer, parse_simple_string, Arg,
};

#[test]
fn test_parse_array() {
    let set = Arg::Bytes(Bytes::from("SET"));
    let get = Arg::Bytes(Bytes::from("GET"));
    let ping = Arg::Bytes(Bytes::from("PING"));
    let key = Arg::Bytes(Bytes::from("mykey"));
    let val = Arg::Bytes(Bytes::from("myvalue"));
    let cases = [
        ("*1\r\n$3\r\nSET\r\n", vec![set.clone()]),
        ("*1\r\n$4\r\nPING\r\n", vec![ping]),
        (
            "*2\r\n$3\r\nGET\r\n$5\r\nmykey\r\n",
            vec![get.clone(), key.clone()],
        ),
        (
            "*3\r\n$3\r\nSET\r\n$5\r\nmykey\r\n$7\r\nmyvalue\r\n",
            vec![set.clone(), key.clone(), val],
        ),
    ];
    for (input, expected) in cases {
        let arr = Arg::Array(expected);
        let out = parse_array(&mut BytesMut::from(input));
        assert_eq!(out.unwrap(), arr);
    }
}

#[test]
fn test_parse_arg() {
    let cases = [
        ("$2\r\nOK\r\n", Arg::Bytes(Bytes::from("OK"))),
        (":+12\r\n", Arg::Int(12)),
        ("+OK\r\n", Arg::String("OK".into())),
        (
            "*1\r\n$3\r\nSET\r\n",
            Arg::Array(vec![Arg::Bytes(Bytes::from("SET"))]),
        ),
    ];
    for (input, expected) in cases {
        let mut buf = BytesMut::from(input);
        let arg = parse_arg(&mut buf).unwrap();
        assert_eq!(arg, expected);
        assert!(buf.is_empty());
    }
}

#[test]
fn test_parse_arg_errors() {
    let cases = ["", "$", "A", "!"];
    for input in cases {
        let mut buf = BytesMut::from(input);
        assert!(parse_arg(&mut buf).is_err());
    }
}

#[test]
fn test_parse_bulk_string() {
    // $<length>\r\n<content>\r\n
    let cases = [
        ("$0\r\n\r\n", ""),
        ("$1\r\nM\r\n", "M"),
        ("$2\r\nOK\r\n", "OK"),
        ("$4\r\nPING\r\n", "PING"),
        ("$2\r\nñ\r\n", "ñ"), // <== 2-byte UTF-8 character
    ];
    for (input, expected) in cases {
        let mut buf = BytesMut::from(input);
        assert_eq!(parse_bulk_string(&mut buf).unwrap(), expected);
        assert!(buf.is_empty());
    }

    let multi = "$0\r\n\r\n$1\r\n1\r\n$2\r\n10\r\n";
    let mut buf = BytesMut::from(multi);
    assert_eq!(parse_bulk_string(&mut buf).unwrap(), "");
    assert_eq!(parse_bulk_string(&mut buf).unwrap(), "1");
    assert_eq!(parse_bulk_string(&mut buf).unwrap(), "10");
    assert!(buf.is_empty());
}

#[test]
fn test_parse_bulk_string_errs() {
    // $<length>\r\n<content>\r\n
    let cases = [
        "0",
        "$",
        "$\r\n",
        "$\r\n\r",
        "$\r\n\r\n",
        "$0\r\na\r\n",
        "$1\r\nab\r\n",
        "$2\r\na\r\n",
        "$1\r\n\r\n",
        "$1\r\nñ\r\n", // unicode
        "$3\r\nñ\r\n",
    ];
    for input in cases {
        let mut buf = BytesMut::from(input);
        assert!(parse_bulk_string(&mut buf).is_err());
    }
}

#[test]
fn test_parse_integer_ok() {
    let cases = [
        (":1234\r\n", 1234),
        (":1\r\n", 1),
        (":+12\r\n", 12),
        (":-1\r\n", -1),
        (":-123\r\n", -123),
        (":-6666666\r\n", -6666666),
    ];

    for (input, expected) in &cases {
        let mut buf = BytesMut::from(*input);
        let result = parse_integer(&mut buf).unwrap();
        assert_eq!(result, *expected, "input: {:?}", input);
        assert!(buf.is_empty());
    }
}

#[test]
fn test_parse_multiple_integers() {
    let mut double = BytesMut::from(":1\r\n:10\r\n:100\r\n");
    assert_eq!(parse_integer(&mut double).unwrap(), 1);
    assert_eq!(parse_integer(&mut double).unwrap(), 10);
    assert_eq!(parse_integer(&mut double).unwrap(), 100);
    assert!(double.is_empty());
}

#[test]
fn test_parse_integer_errs() {
    let cases = ["1234\r\n", "", ":-1\r", ":-6666666\n", ":abc\r\n"];

    for input in &cases {
        let mut buf = BytesMut::from(*input);
        let result = parse_integer(&mut buf);
        assert!(result.is_err());
    }
}

#[test]
fn test_parse_simple_string_ok() {
    let cases = [("+OK\r\n", "OK"), ("+abcd\r\n", "abcd"), ("+\r\n", "")];

    for (input, expected) in &cases {
        let mut buf = BytesMut::from(*input);
        assert_eq!(parse_simple_string(&mut buf).unwrap(), *expected);
        assert!(buf.is_empty());
    }

    let mut double_buf = BytesMut::from("+OK1\r\n+OK2\r\n");
    assert_eq!(parse_simple_string(&mut double_buf).unwrap(), "OK1");
    assert_eq!(parse_simple_string(&mut double_buf).unwrap(), "OK2");
    assert!(double_buf.is_empty());
}

#[test]
fn test_parse_simple_string_errs() {
    let cases = ["+OK", "+OK\r", "+OK\n", "+", "", "OK", ":123\r\n"];

    for input in &cases {
        let mut b = BytesMut::from(*input);
        assert!(parse_simple_string(&mut b).is_err());
    }
}
