use rusdis::cursor::ByteCursor;
use rusdis::resp::{
    parse, parse_array, parse_bulk_string, parse_error, parse_integer, parse_pipeline,
    parse_string, read_crlf, read_exact, read_i64, read_until_crlf, ser, ser_bulk_string,
    ser_error, ser_int, ser_null_bulk_string, ser_string, Data, ParseError,
};

fn parse_all(bytes: &[u8], inline: bool) -> Result<Option<Data>, ParseError> {
    let mut cursor = ByteCursor::new(bytes);
    parse(&mut cursor, inline)
}

fn parse_with_rest(bytes: &[u8], inline: bool) -> (Result<Option<Data>, ParseError>, usize) {
    let mut cursor = ByteCursor::new(bytes);
    let res = parse(&mut cursor, inline);
    (res, cursor.remaining())
}

fn text(s: &str) -> Data {
    Data::String(s.to_string())
}

fn bulk(s: &str) -> Data {
    Data::BulkString(s.to_string())
}

fn sample_values() -> Vec<Data> {
    vec![
        text("OK"),
        text(""),
        text("with space and \u{e9}\u{4e16}\u{1f600}"),
        text("lone\rcarriage"),
        text("lone\nfeed"),
        text("ends with cr\r"),
        Data::Error("ERR something".to_string()),
        Data::Error(String::new()),
        Data::Integer(0),
        Data::Integer(7),
        Data::Integer(-1),
        Data::Integer(-42),
        Data::Integer(i64::MAX),
        Data::Integer(i64::MIN),
        bulk(""),
        bulk("hello"),
        bulk("line\r\nbreak inside"),
        bulk("\u{e9}t\u{e9}"),
        Data::NullBulkString,
        Data::NullArray,
        Data::Array(vec![]),
        Data::Array(vec![bulk("GET"), bulk("key")]),
        Data::Array(vec![
            Data::Array(vec![]),
            Data::Array(vec![Data::Integer(1), Data::NullArray, Data::NullBulkString]),
            text("x"),
            Data::Array(vec![Data::Array(vec![Data::Array(vec![bulk("deep")])])]),
        ]),
    ]
}

#[test]
fn simple_string_is_written_with_its_lead_byte() {
    assert_eq!(ser(text("OK")), b"+OK\r\n".to_vec());
    assert_eq!(ser(text("")), b"+\r\n".to_vec());
    assert_eq!(ser_string("PONG"), b"+PONG\r\n".to_vec());
}

#[test]
fn error_is_written_with_its_lead_byte() {
    assert_eq!(
        ser(Data::Error("Unknown command".to_string())),
        b"-Unknown command\r\n".to_vec()
    );
    assert_eq!(ser_error("No key provided"), b"-No key provided\r\n".to_vec());
}

#[test]
fn integer_is_written_in_decimal() {
    assert_eq!(ser(Data::Integer(0)), b":0\r\n".to_vec());
    assert_eq!(ser(Data::Integer(1000)), b":1000\r\n".to_vec());
    assert_eq!(ser(Data::Integer(-7)), b":-7\r\n".to_vec());
    assert_eq!(ser_int(42), b":42\r\n".to_vec());
    assert_eq!(
        ser_int(i64::MAX),
        b":9223372036854775807\r\n".to_vec()
    );
    assert_eq!(
        ser_int(i64::MIN),
        b":-9223372036854775808\r\n".to_vec()
    );
}

#[test]
fn bulk_string_is_written_with_its_byte_length() {
    assert_eq!(ser(bulk("hello")), b"$5\r\nhello\r\n".to_vec());
    assert_eq!(ser(bulk("")), b"$0\r\n\r\n".to_vec());
    assert_eq!(ser_bulk_string("v"), b"$1\r\nv\r\n".to_vec());
    assert_eq!(
        ser_bulk_string("\u{e9}"),
        vec![b'$', b'2', b'\r', b'\n', 0xc3, 0xa9, b'\r', b'\n']
    );
    assert_eq!(
        ser_bulk_string("0123456789ab"),
        b"$12\r\n0123456789ab\r\n".to_vec()
    );
}

#[test]
fn array_is_written_with_its_count_and_items() {
    assert_eq!(ser(Data::Array(vec![])), b"*0\r\n".to_vec());
    assert_eq!(
        ser(Data::Array(vec![bulk("GET"), bulk("k")])),
        b"*2\r\n$3\r\nGET\r\n$1\r\nk\r\n".to_vec()
    );
    assert_eq!(
        ser(Data::Array(vec![
            Data::Integer(1),
            Data::Array(vec![text("a"), Data::NullBulkString]),
            Data::NullArray,
        ])),
        b"*3\r\n:1\r\n*2\r\n+a\r\n$-1\r\n*-1\r\n".to_vec()
    );
}

#[test]
fn null_values_are_written_as_their_markers() {
    assert_eq!(ser(Data::NullBulkString), b"$-1\r\n".to_vec());
    assert_eq!(ser_null_bulk_string(), b"$-1\r\n".to_vec());
    assert_eq!(ser(Data::NullArray), b"*-1\r\n".to_vec());
}

#[test]
fn serialization_gives_the_same_bytes_each_time() {
    for value in sample_values() {
        let again = sample_values()
            .into_iter()
            .find(|other| *other == value)
            .unwrap();
        assert_eq!(ser(value), ser(again));
    }
}

#[test]
fn written_values_read_back_as_they_were() {
    for value in sample_values() {
        let expected = sample_values()
            .into_iter()
            .find(|other| *other == value)
            .unwrap();
        let bytes = ser(value);
        assert_eq!(
            parse_with_rest(&bytes, false),
            (Ok(Some(expected)), 0),
            "{:?}",
            bytes
        );
    }
}

#[test]
fn written_values_read_back_with_inline_requests_allowed() {
    for value in sample_values() {
        let expected = sample_values()
            .into_iter()
            .find(|other| *other == value)
            .unwrap();
        let mut bytes = ser(value);
        bytes.extend_from_slice(b"trailing");
        assert_eq!(parse_with_rest(&bytes, true), (Ok(Some(expected)), 8));
    }
}

#[test]
fn simple_string_with_cr_lf_inside_does_not_read_back() {
    let bytes = ser(text("a\r\nb"));
    assert_eq!(parse_with_rest(&bytes, false), (Ok(Some(text("a"))), 3));
}

#[test]
fn null_bulk_string_is_not_the_empty_one() {
    assert_eq!(parse_all(b"$-1\r\n", false), Ok(Some(Data::NullBulkString)));
    assert_eq!(parse_all(b"$0\r\n\r\n", false), Ok(Some(bulk(""))));
    assert_ne!(
        parse_all(b"$-1\r\n", false),
        parse_all(b"$0\r\n\r\n", false)
    );
}

#[test]
fn null_array_is_not_the_empty_one() {
    assert_eq!(parse_all(b"*-1\r\n", false), Ok(Some(Data::NullArray)));
    assert_eq!(parse_all(b"*0\r\n", false), Ok(Some(Data::Array(vec![]))));
    assert_ne!(parse_all(b"*-1\r\n", false), parse_all(b"*0\r\n", false));
}

#[test]
fn nothing_to_read_is_none() {
    assert_eq!(parse_with_rest(b"", false), (Ok(None), 0));
    assert_eq!(parse_with_rest(b"", true), (Ok(None), 0));
}

#[test]
fn simple_string_is_read_up_to_cr_lf() {
    assert_eq!(parse_with_rest(b"+OK\r\n", false), (Ok(Some(text("OK"))), 0));
    assert_eq!(
        parse_with_rest(b"+OK\r\n+next\r\n", false),
        (Ok(Some(text("OK"))), 7)
    );
    assert_eq!(parse_all(b"+\r\n", false), Ok(Some(text(""))));
    assert_eq!(parse_all(b"+a\rb\nc\r\n", false), Ok(Some(text("a\rb\nc"))));
    assert_eq!(parse_all(b"+a\r\r\n", false), Ok(Some(text("a\r"))));
}

#[test]
fn error_is_read_up_to_cr_lf() {
    assert_eq!(
        parse_all(b"-ERR unknown\r\n", false),
        Ok(Some(Data::Error("ERR unknown".to_string())))
    );
}

#[test]
fn integer_is_read_from_its_line() {
    assert_eq!(parse_all(b":0\r\n", false), Ok(Some(Data::Integer(0))));
    assert_eq!(parse_all(b":-12\r\n", false), Ok(Some(Data::Integer(-12))));
    assert_eq!(parse_all(b":+12\r\n", false), Ok(Some(Data::Integer(12))));
    assert_eq!(parse_all(b":007\r\n", false), Ok(Some(Data::Integer(7))));
    assert_eq!(parse_all(b":-0\r\n", false), Ok(Some(Data::Integer(0))));
    assert_eq!(
        parse_all(b":9223372036854775807\r\n", false),
        Ok(Some(Data::Integer(i64::MAX)))
    );
    assert_eq!(
        parse_all(b":-9223372036854775808\r\n", false),
        Ok(Some(Data::Integer(i64::MIN)))
    );
}

#[test]
fn integer_that_is_no_number_is_an_error() {
    assert_eq!(parse_all(b":\r\n", false), Err(ParseError::Int));
    assert_eq!(parse_all(b":-\r\n", false), Err(ParseError::Int));
    assert_eq!(parse_all(b":+\r\n", false), Err(ParseError::Int));
    assert_eq!(parse_all(b":12a\r\n", false), Err(ParseError::Int));
    assert_eq!(parse_all(b": 12\r\n", false), Err(ParseError::Int));
    assert_eq!(parse_all(b":1_000\r\n", false), Err(ParseError::Int));
    assert_eq!(parse_all(b":--1\r\n", false), Err(ParseError::Int));
    assert_eq!(
        parse_all(b":9223372036854775808\r\n", false),
        Err(ParseError::Int)
    );
    assert_eq!(
        parse_all(b":-9223372036854775809\r\n", false),
        Err(ParseError::Int)
    );
    assert_eq!(
        parse_with_rest(b":x\r\nrest", false),
        (Err(ParseError::Int), 4)
    );
}

#[test]
fn line_without_cr_lf_is_an_error() {
    assert_eq!(
        parse_with_rest(b"+OK", false),
        (Err(ParseError::MissingCRLF), 0)
    );
    assert_eq!(parse_all(b"+OK\r", false), Err(ParseError::MissingCRLF));
    assert_eq!(parse_all(b"+OK\n", false), Err(ParseError::MissingCRLF));
    assert_eq!(parse_all(b"-", false), Err(ParseError::MissingCRLF));
    assert_eq!(parse_all(b":12", false), Err(ParseError::MissingCRLF));
    assert_eq!(parse_all(b"$3", false), Err(ParseError::MissingCRLF));
    assert_eq!(parse_all(b"*2", false), Err(ParseError::MissingCRLF));
}

#[test]
fn text_that_is_not_utf8_is_an_error() {
    assert_eq!(parse_all(b"+\xff\r\n", false), Err(ParseError::Utf8));
    assert_eq!(parse_all(b"-\xc3\r\n", false), Err(ParseError::Utf8));
    assert_eq!(parse_all(b":\xff\r\n", false), Err(ParseError::Utf8));
    assert_eq!(parse_all(b"$1\r\n\xff\r\n", false), Err(ParseError::Utf8));
    assert_eq!(parse_all(b"$2\r\n\xed\xa0\r\n", false), Err(ParseError::Utf8));
    assert_eq!(parse_all(b"$3\r\n\xed\xa0\x80\r\n", false), Err(ParseError::Utf8));
    assert_eq!(parse_all(b"$2\r\n\xc0\x80\r\n", false), Err(ParseError::Utf8));
    assert_eq!(parse_all(b"$1\r\n\xffXX", false), Err(ParseError::Utf8));
}

#[test]
fn text_of_several_bytes_a_character_is_read() {
    assert_eq!(
        parse_all(b"+h\xc3\xa9\r\n", false),
        Ok(Some(text("h\u{e9}")))
    );
    assert_eq!(
        parse_all(b"$4\r\n\xf0\x9f\x98\x80\r\n", false),
        Ok(Some(bulk("\u{1f600}")))
    );
    assert_eq!(
        parse_all(b"$3\r\n\xe4\xb8\x96\r\n", false),
        Ok(Some(bulk("\u{4e16}")))
    );
}

#[test]
fn bulk_string_is_read_by_its_length() {
    assert_eq!(
        parse_with_rest(b"$5\r\nhello\r\n", false),
        (Ok(Some(bulk("hello"))), 0)
    );
    assert_eq!(
        parse_with_rest(b"$5\r\nhe\r\nl\r\nmore", false),
        (Ok(Some(bulk("he\r\nl"))), 4)
    );
    assert_eq!(
        parse_with_rest(b"$0\r\n\r\n$1\r\n", false),
        (Ok(Some(bulk(""))), 4)
    );
    assert_eq!(parse_all(b"$+3\r\nabc\r\n", false), Ok(Some(bulk("abc"))));
}

#[test]
fn bulk_string_that_ends_early_is_an_error() {
    assert_eq!(
        parse_with_rest(b"$5\r\nhel", false),
        (Err(ParseError::UnexpectedEnding), 0)
    );
    assert_eq!(
        parse_all(b"$1\r\n", false),
        Err(ParseError::UnexpectedEnding)
    );
    assert_eq!(
        parse_all(b"$9223372036854775807\r\nabc\r\n", false),
        Err(ParseError::UnexpectedEnding)
    );
}

#[test]
fn bulk_string_without_closing_cr_lf_is_an_error() {
    assert_eq!(
        parse_all(b"$5\r\nhello", false),
        Err(ParseError::MissingCRLF)
    );
    assert_eq!(
        parse_all(b"$5\r\nhello\r", false),
        Err(ParseError::MissingCRLF)
    );
    assert_eq!(
        parse_with_rest(b"$5\r\nhelloXY+OK\r\n", false),
        (Err(ParseError::MissingCRLF), 5)
    );
    assert_eq!(
        parse_all(b"$0\r\nab", false),
        Err(ParseError::MissingCRLF)
    );
}

#[test]
fn negative_length_is_an_error() {
    assert_eq!(
        parse_all(b"$-2\r\nab\r\n", false),
        Err(ParseError::NegativeInt)
    );
    assert_eq!(
        parse_all(b"*-2\r\n", false),
        Err(ParseError::NegativeInt)
    );
    assert_eq!(
        parse_all(b"$-9223372036854775808\r\n", false),
        Err(ParseError::NegativeInt)
    );
    assert_eq!(
        parse_with_rest(b"*-5\r\nrest", false),
        (Err(ParseError::NegativeInt), 4)
    );
}

#[test]
fn length_that_is_no_number_is_an_error() {
    assert_eq!(parse_all(b"$abc\r\n", false), Err(ParseError::Int));
    assert_eq!(parse_all(b"*\r\n", false), Err(ParseError::Int));
    assert_eq!(
        parse_all(b"*99999999999999999999\r\n", false),
        Err(ParseError::Int)
    );
}

#[test]
fn array_holds_exactly_the_announced_items() {
    assert_eq!(
        parse_with_rest(b"*2\r\n$3\r\nGET\r\n$1\r\nk\r\n", false),
        (Ok(Some(Data::Array(vec![bulk("GET"), bulk("k")]))), 0)
    );
    assert_eq!(
        parse_with_rest(b"*1\r\n+a\r\n+b\r\n", false),
        (Ok(Some(Data::Array(vec![text("a")]))), 4)
    );
    assert_eq!(
        parse_with_rest(b"*0\r\n+b\r\n", false),
        (Ok(Some(Data::Array(vec![]))), 4)
    );
    assert_eq!(
        parse_all(b"*3\r\n:1\r\n*2\r\n+a\r\n$-1\r\n*-1\r\n", true),
        Ok(Some(Data::Array(vec![
            Data::Integer(1),
            Data::Array(vec![text("a"), Data::NullBulkString]),
            Data::NullArray,
        ])))
    );
}

#[test]
fn array_with_fewer_items_than_announced_is_an_error() {
    assert_eq!(
        parse_all(b"*2\r\n+a\r\n", false),
        Err(ParseError::UnexpectedEnding)
    );
    assert_eq!(
        parse_all(b"*1\r\n", false),
        Err(ParseError::UnexpectedEnding)
    );
    assert_eq!(
        parse_all(b"*3\r\n+a\r\n+b\r\n", true),
        Err(ParseError::UnexpectedEnding)
    );
    assert_eq!(
        parse_all(b"*2\r\n*1\r\n+a\r\n", false),
        Err(ParseError::UnexpectedEnding)
    );
    assert_eq!(
        parse_all(b"*9223372036854775807\r\n+a\r\n", false),
        Err(ParseError::UnexpectedEnding)
    );
}

#[test]
fn array_whose_item_cannot_be_read_is_an_error() {
    assert_eq!(
        parse_all(b"*1\r\n+a", false),
        Err(ParseError::UnexpectedEnding)
    );
    assert_eq!(
        parse_all(b"*1\r\n:x\r\n", false),
        Err(ParseError::UnexpectedEnding)
    );
    assert_eq!(
        parse_all(b"*1\r\n$1\r\n\xff\r\n", false),
        Err(ParseError::UnexpectedEnding)
    );
    assert_eq!(
        parse_all(b"*2\r\n+a\r\n$-3\r\n", false),
        Err(ParseError::UnexpectedEnding)
    );
}

#[test]
fn inline_request_is_not_read_inside_an_array() {
    assert_eq!(
        parse_all(b"*1\r\nPING\r\n", true),
        Err(ParseError::UnexpectedEnding)
    );
    assert_eq!(
        parse_with_rest(b"*2\r\n+a\r\nGET k\r\n", true),
        (Err(ParseError::UnexpectedEnding), 6)
    );
}

#[test]
fn unknown_lead_byte_is_an_error_without_inline_requests() {
    assert_eq!(
        parse_with_rest(b"PING\r\n", false),
        (Err(ParseError::UnexpectedEnding), 5)
    );
    assert_eq!(parse_all(b"\r\n", false), Err(ParseError::UnexpectedEnding));
    assert_eq!(parse_all(b"!", false), Err(ParseError::UnexpectedEnding));
}

#[test]
fn inline_request_is_split_into_words() {
    assert_eq!(
        parse_with_rest(b"PING\r\n", true),
        (Ok(Some(Data::Array(vec![text("PING")]))), 0)
    );
    assert_eq!(
        parse_with_rest(b"SET key value\r\nGET key\r\n", true),
        (
            Ok(Some(Data::Array(vec![
                text("SET"),
                text("key"),
                text("value")
            ]))),
            9
        )
    );
    assert_eq!(
        parse_all(b"  GET   key  \r\n", true),
        Ok(Some(Data::Array(vec![text("GET"), text("key")])))
    );
    assert_eq!(
        parse_all(b" \r\n", true),
        Ok(Some(Data::Array(vec![])))
    );
    assert_eq!(
        parse_all(b"a\tb c\r\n", true),
        Ok(Some(Data::Array(vec![text("a\tb"), text("c")])))
    );
}

#[test]
fn inline_words_that_are_numbers_become_integers() {
    assert_eq!(
        parse_all(b"SET a 1\r\n", true),
        Ok(Some(Data::Array(vec![
            text("SET"),
            text("a"),
            Data::Integer(1)
        ])))
    );
    assert_eq!(
        parse_all(b"1 -2 +3 004 x5 6y - + 9223372036854775808\r\n", true),
        Ok(Some(Data::Array(vec![
            Data::Integer(1),
            Data::Integer(-2),
            Data::Integer(3),
            Data::Integer(4),
            text("x5"),
            text("6y"),
            text("-"),
            text("+"),
            text("9223372036854775808"),
        ])))
    );
}

#[test]
fn inline_request_ends_with_the_input_where_no_cr_lf_comes() {
    assert_eq!(
        parse_with_rest(b"PING", true),
        (Ok(Some(Data::Array(vec![text("PING")]))), 0)
    );
    assert_eq!(
        parse_with_rest(b"GET key\r", true),
        (Ok(Some(Data::Array(vec![text("GET"), text("key\r")]))), 0)
    );
    assert_eq!(
        parse_with_rest(b"GET key\n", true),
        (Ok(Some(Data::Array(vec![text("GET"), text("key\n")]))), 0)
    );
    assert_eq!(
        parse_with_rest(b"x", true),
        (Ok(Some(Data::Array(vec![text("x")]))), 0)
    );
}

#[test]
fn inline_request_may_hold_text_of_several_bytes_a_character() {
    assert_eq!(
        parse_all(b"SET cl\xc3\xa9 \xe4\xb8\x96\xe7\x95\x8c\r\n", true),
        Ok(Some(Data::Array(vec![
            text("SET"),
            text("cl\u{e9}"),
            text("\u{4e16}\u{754c}")
        ])))
    );
    assert_eq!(
        parse_all(b"\xc3\xa9 a\r\n", true),
        Ok(Some(Data::Array(vec![text("\u{e9}"), text("a")])))
    );
}

#[test]
fn inline_request_that_is_not_utf8_is_an_error() {
    assert_eq!(
        parse_with_rest(b"GET \xff\r\nPING\r\n", true),
        (Err(ParseError::Utf8), 6)
    );
    assert_eq!(parse_all(b"\xff\r\n", true), Err(ParseError::Utf8));
    assert_eq!(parse_all(b"\xc3", true), Err(ParseError::Utf8));
    assert_eq!(parse_all(b"a \xc3 \xa9\r\n", true), Err(ParseError::Utf8));
}

#[test]
fn inline_line_starts_with_its_first_byte() {
    assert_eq!(
        parse_with_rest(b"\r\nPING\r\n", true),
        (Ok(Some(Data::Array(vec![text("\r\nPING")]))), 0)
    );
    assert_eq!(
        parse_with_rest(b"\n\r\nPING\r\n", true),
        (Ok(Some(Data::Array(vec![text("\n")]))), 6)
    );
}

#[test]
fn read_until_crlf_takes_the_line_and_its_end() {
    let mut cursor = ByteCursor::new(b"abc\r\ndef");
    assert_eq!(read_until_crlf(&mut cursor), Ok("abc".to_string()));
    assert_eq!(cursor.remaining(), 3);
    assert_eq!(read_until_crlf(&mut cursor), Err(ParseError::MissingCRLF));
    assert_eq!(cursor.remaining(), 0);
    let mut other = ByteCursor::new(b"\xff\r\nrest");
    assert_eq!(read_until_crlf(&mut other), Err(ParseError::Utf8));
    assert_eq!(other.remaining(), 4);
}

#[test]
fn read_exact_takes_that_many_bytes() {
    let mut cursor = ByteCursor::new(b"abcdef");
    assert_eq!(read_exact(&mut cursor, 0), Ok(String::new()));
    assert_eq!(cursor.remaining(), 6);
    assert_eq!(read_exact(&mut cursor, 4), Ok("abcd".to_string()));
    assert_eq!(cursor.remaining(), 2);
    assert_eq!(read_exact(&mut cursor, 3), Err(ParseError::UnexpectedEnding));
    assert_eq!(cursor.remaining(), 0);
    let mut other = ByteCursor::new(b"\xc3\xa9\xc3\xa9");
    assert_eq!(read_exact(&mut other, 1), Err(ParseError::Utf8));
    assert_eq!(other.remaining(), 3);
}

#[test]
fn read_crlf_wants_cr_lf() {
    let mut cursor = ByteCursor::new(b"\r\nab");
    assert_eq!(read_crlf(&mut cursor), Ok(()));
    assert_eq!(cursor.remaining(), 2);
    assert_eq!(read_crlf(&mut cursor), Err(ParseError::MissingCRLF));
    assert_eq!(cursor.remaining(), 0);
    let mut short = ByteCursor::new(b"\r");
    assert_eq!(read_crlf(&mut short), Err(ParseError::MissingCRLF));
    let mut wrong = ByteCursor::new(b"\n\rxyz");
    assert_eq!(read_crlf(&mut wrong), Err(ParseError::MissingCRLF));
    assert_eq!(wrong.remaining(), 3);
}

#[test]
fn read_i64_reads_a_line_of_digits() {
    let mut cursor = ByteCursor::new(b"-15\r\n+15\r\nabc\r\n15");
    assert_eq!(read_i64(&mut cursor), Ok(-15));
    assert_eq!(read_i64(&mut cursor), Ok(15));
    assert_eq!(read_i64(&mut cursor), Err(ParseError::Int));
    assert_eq!(read_i64(&mut cursor), Err(ParseError::MissingCRLF));
}

#[test]
fn parts_of_parse_read_what_follows_the_lead_byte() {
    let mut cursor = ByteCursor::new(b"hello\r\n");
    assert_eq!(parse_string(&mut cursor), Ok(text("hello")));
    let mut cursor = ByteCursor::new(b"oops\r\n");
    assert_eq!(parse_error(&mut cursor), Ok(Data::Error("oops".to_string())));
    let mut cursor = ByteCursor::new(b"12\r\n");
    assert_eq!(parse_integer(&mut cursor), Ok(Data::Integer(12)));
    let mut cursor = ByteCursor::new(b"2\r\nhi\r\n");
    assert_eq!(parse_bulk_string(&mut cursor), Ok(bulk("hi")));
    let mut cursor = ByteCursor::new(b"2\r\n:1\r\n:2\r\n");
    assert_eq!(
        parse_array(&mut cursor),
        Ok(Data::Array(vec![Data::Integer(1), Data::Integer(2)]))
    );
    let mut cursor = ByteCursor::new(b"ING now\r\nrest");
    assert_eq!(
        parse_pipeline(&mut cursor, b'P'),
        Ok(Data::Array(vec![text("PING"), text("now")]))
    );
    assert_eq!(cursor.remaining(), 4);
}
