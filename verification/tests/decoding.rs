use resp_client::decode::{parse_declared, try_parse};
use resp_client::error::Error;
use resp_client::text::decode_text;
use resp_client::wire::MAX_DEPTH;
use resp_client::ReturnType;

fn bulk(data: &str, size: usize) -> ReturnType {
    ReturnType::BulkString { data: data.to_string(), size }
}

#[test]
fn status_line_keeps_text_without_terminator() {
    assert_eq!(try_parse(b"+OK\r\n"), Ok((ReturnType::State("OK".to_string()), 5)));
}

#[test]
fn error_line_is_a_status_too() {
    assert_eq!(
        try_parse(b"-ERR unknown command\r\n"),
        Ok((ReturnType::State("ERR unknown command".to_string()), 22))
    );
}

#[test]
fn status_line_keeps_inner_and_trailing_spaces() {
    assert_eq!(try_parse(b"+a b  \r\n"), Ok((ReturnType::State("a b  ".to_string()), 8)));
}

#[test]
fn line_may_end_in_a_bare_line_feed() {
    assert_eq!(try_parse(b"+OK\n"), Ok((ReturnType::State("OK".to_string()), 4)));
}

#[test]
fn only_one_carriage_return_belongs_to_the_terminator() {
    assert_eq!(try_parse(b"+OK\r\r\n"), Ok((ReturnType::State("OK\r".to_string()), 6)));
}

#[test]
fn empty_status_line() {
    assert_eq!(try_parse(b"+\r\n"), Ok((ReturnType::State(String::new()), 3)));
}

#[test]
fn integer_line_is_kept_as_text() {
    assert_eq!(try_parse(b":121\r\n"), Ok((ReturnType::Integer("121".to_string()), 6)));
    assert_eq!(try_parse(b":-7\r\n"), Ok((ReturnType::Integer("-7".to_string()), 5)));
}

#[test]
fn bulk_string_has_declared_size() {
    assert_eq!(try_parse(b"$9\r\naodhneine\r\n"), Ok((bulk("aodhneine", 9), 15)));
}

#[test]
fn empty_bulk_string() {
    assert_eq!(try_parse(b"$0\r\n\r\n"), Ok((bulk("", 0), 6)));
}

#[test]
fn bulk_string_may_hold_terminator_bytes() {
    assert_eq!(try_parse(b"$8\r\nab\r\ncd\r\n\r\n"), Ok((bulk("ab\r\ncd\r\n", 8), 14)));
}

#[test]
fn bulk_string_size_counts_bytes() {
    assert_eq!(try_parse("$4\r\nh\u{e9}!\r\n".as_bytes()), Ok((bulk("h\u{e9}!", 4), 10)));
}

#[test]
fn bulk_string_leaves_following_bytes_alone() {
    assert_eq!(try_parse(b"$3\r\nkyu\r\n+OK\r\n"), Ok((bulk("kyu", 3), 9)));
}

#[test]
fn null_bulk_string() {
    assert_eq!(try_parse(b"$-1\r\n"), Ok((ReturnType::Null, 5)));
}

#[test]
fn null_bulk_string_ignores_what_follows() {
    assert_eq!(try_parse(b"$-1\r\nanything\r\n$$$"), Ok((ReturnType::Null, 5)));
}

#[test]
fn null_array() {
    assert_eq!(try_parse(b"*-1\r\n"), Ok((ReturnType::Null, 5)));
    assert_eq!(try_parse(b"*-1\r\n:1\r\n"), Ok((ReturnType::Null, 5)));
}

#[test]
fn empty_array_takes_only_its_header() {
    assert_eq!(try_parse(b"*0\r\n"), Ok((ReturnType::Array(Vec::new()), 4)));
    assert_eq!(try_parse(b"*0\r\n:1\r\n"), Ok((ReturnType::Array(Vec::new()), 4)));
}

#[test]
fn array_has_declared_number_of_elements() {
    let got = try_parse(b"*3\r\n:1\r\n$3\r\nkyu\r\n+OK\r\n:9\r\n");
    let want = ReturnType::Array(vec![
        Box::new(ReturnType::Integer("1".to_string())),
        Box::new(bulk("kyu", 3)),
        Box::new(ReturnType::State("OK".to_string())),
    ]);
    assert_eq!(got, Ok((want, 22)));
}

#[test]
fn arrays_nest() {
    let got = try_parse(b"*2\r\n*1\r\n$-1\r\n*0\r\n");
    let want = ReturnType::Array(vec![
        Box::new(ReturnType::Array(vec![Box::new(ReturnType::Null)])),
        Box::new(ReturnType::Array(Vec::new())),
    ]);
    assert_eq!(got, Ok((want, 17)));
}

#[test]
fn array_short_of_elements_is_an_empty_read() {
    assert_eq!(try_parse(b"*2\r\n:1\r\n"), Err(Error::ReadEmptyData));
}

#[test]
fn array_fails_as_its_first_bad_element() {
    assert_eq!(try_parse(b"*2\r\n:1\r\n?\r\n"), Err(Error::UnknownType));
}

#[test]
fn unknown_leading_byte() {
    assert_eq!(try_parse(b"?what\r\n"), Err(Error::UnknownType));
    assert_eq!(try_parse(b"\r\n"), Err(Error::UnknownType));
    assert_eq!(try_parse(b"x"), Err(Error::UnknownType));
}

#[test]
fn nothing_to_read_is_an_empty_read() {
    assert_eq!(try_parse(b""), Err(Error::ReadEmptyData));
}

#[test]
fn unfinished_line_is_an_empty_read() {
    assert_eq!(try_parse(b"+OK"), Err(Error::ReadEmptyData));
    assert_eq!(try_parse(b"$9\r\naodh"), Err(Error::ReadEmptyData));
    assert_eq!(try_parse(b"$9\r\naodhneine\r"), Err(Error::ReadEmptyData));
}

#[test]
fn length_that_is_no_integer_is_malformed() {
    assert_eq!(try_parse(b"$abc\r\nabc\r\n"), Err(Error::MalformedLength));
    assert_eq!(try_parse(b"$\r\n"), Err(Error::MalformedLength));
    assert_eq!(try_parse(b"*-\r\n"), Err(Error::MalformedLength));
    assert_eq!(try_parse(b"*1x\r\n:1\r\n"), Err(Error::MalformedLength));
    assert_eq!(try_parse(b"* 1\r\n:1\r\n"), Err(Error::MalformedLength));
}

#[test]
fn length_below_the_null_sentinel_is_malformed() {
    assert_eq!(try_parse(b"$-2\r\n"), Err(Error::MalformedLength));
    assert_eq!(try_parse(b"*-5\r\n"), Err(Error::MalformedLength));
}

#[test]
fn length_that_misses_the_terminator_is_malformed() {
    assert_eq!(try_parse(b"$2\r\nkyu\r\n"), Err(Error::MalformedLength));
}

#[test]
fn length_ends_at_first_whitespace() {
    assert_eq!(try_parse(b"$3 ignored\r\nkyu\r\n"), Ok((bulk("kyu", 3), 17)));
    assert_eq!(try_parse(b"*+1\tx\r\n:5\r\n"), Ok((
        ReturnType::Array(vec![Box::new(ReturnType::Integer("5".to_string()))]),
        11
    )));
}

#[test]
fn text_that_is_not_utf8_fails_the_read() {
    assert_eq!(try_parse(b"+\xff\r\n"), Err(Error::FailedDataRead));
    assert_eq!(try_parse(b":\xc3\r\n"), Err(Error::FailedDataRead));
    assert_eq!(try_parse(b"$1\r\n\x80\r\n"), Err(Error::FailedDataRead));
}

#[test]
fn text_is_decoded_as_utf8() {
    assert_eq!(decode_text("h\u{e9}llo \u{4e16}".as_bytes()), Some("h\u{e9}llo \u{4e16}".to_string()));
    assert_eq!(decode_text(b""), Some(String::new()));
    assert_eq!(decode_text(b"\xe4\xb8"), None);
    assert_eq!(
        try_parse(b"+h\xc3\xa9\r\n"),
        Ok((ReturnType::State("h\u{e9}".to_string()), 6))
    );
}

#[test]
fn declared_integers() {
    assert_eq!(parse_declared(b"0"), Some(0));
    assert_eq!(parse_declared(b"-1"), Some(-1));
    assert_eq!(parse_declared(b"+42"), Some(42));
    assert_eq!(parse_declared(b"007"), Some(7));
    assert_eq!(parse_declared(b"-0"), Some(0));
    assert_eq!(parse_declared(b"12 34"), Some(12));
    assert_eq!(parse_declared(b"9223372036854775807"), Some(i64::MAX));
    assert_eq!(parse_declared(b"-9223372036854775808"), Some(i64::MIN));
}

#[test]
fn undeclared_integers() {
    assert_eq!(parse_declared(b""), None);
    assert_eq!(parse_declared(b" 1"), None);
    assert_eq!(parse_declared(b"+"), None);
    assert_eq!(parse_declared(b"-"), None);
    assert_eq!(parse_declared(b"--1"), None);
    assert_eq!(parse_declared(b"1-"), None);
    assert_eq!(parse_declared(b"12a"), None);
    assert_eq!(parse_declared(b"9223372036854775808"), None);
    assert_eq!(parse_declared(b"-9223372036854775809"), None);
    assert_eq!(parse_declared(b"99999999999999999999999999"), None);
}

#[test]
fn huge_declared_length_is_an_empty_read() {
    assert_eq!(try_parse(b"$9223372036854775807\r\nabc\r\n"), Err(Error::ReadEmptyData));
    assert_eq!(try_parse(b"*9223372036854775807\r\n"), Err(Error::ReadEmptyData));
}

fn nested(levels: usize) -> Vec<u8> {
    let mut bytes = Vec::new();
    for _ in 0..levels {
        bytes.extend_from_slice(b"*1\r\n");
    }
    bytes.extend_from_slice(b":1\r\n");
    bytes
}

#[test]
fn nesting_up_to_the_limit_is_decoded() {
    let bytes = nested(MAX_DEPTH);
    let (mut reply, used) = try_parse(&bytes).unwrap();
    assert_eq!(used, bytes.len());
    for _ in 0..MAX_DEPTH {
        reply = match reply {
            ReturnType::Array(mut items) => {
                assert_eq!(items.len(), 1);
                *items.remove(0)
            }
            other => panic!("no array: {:?}", other),
        };
    }
    assert_eq!(reply, ReturnType::Integer("1".to_string()));
}

#[test]
fn nesting_beyond_the_limit_is_rejected() {
    assert_eq!(try_parse(&nested(MAX_DEPTH + 1)), Err(Error::NestingTooDeep));
}

#[test]
fn empty_array_at_the_limit_is_decoded() {
    let mut bytes = Vec::new();
    for _ in 0..MAX_DEPTH {
        bytes.extend_from_slice(b"*1\r\n");
    }
    bytes.extend_from_slice(b"*0\r\n");
    assert!(try_parse(&bytes).is_ok());
}

#[test]
fn error_messages() {
    assert_eq!(Error::ReadEmptyData.message(), "Read empty data");
    assert_eq!(Error::FailedDataRead.message(), "Failed to read data");
    assert_eq!(Error::UnknownType.message(), "Unknown return type");
    assert_eq!(Error::MalformedLength.message(), "Malformed length");
    assert_eq!(Error::WriteFailed.message(), "Failed to write data");
    assert_eq!(Error::NestingTooDeep.message(), "Arrays nested too deep");
}
