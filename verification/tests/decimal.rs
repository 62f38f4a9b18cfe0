use rusdis::decimal::{parse_i64, push_int_text, push_nat_digits};

fn int_text(i: i64) -> Vec<u8> {
    let mut out = Vec::new();
    push_int_text(&mut out, i);
    out
}

#[test]
fn parse_i64_reads_signed_decimal() {
    assert_eq!(parse_i64(b"0"), Some(0));
    assert_eq!(parse_i64(b"42"), Some(42));
    assert_eq!(parse_i64(b"-42"), Some(-42));
    assert_eq!(parse_i64(b"+42"), Some(42));
    assert_eq!(parse_i64(b"0042"), Some(42));
    assert_eq!(parse_i64(b"-0"), Some(0));
    assert_eq!(parse_i64(b"9223372036854775807"), Some(i64::MAX));
    assert_eq!(parse_i64(b"-9223372036854775808"), Some(i64::MIN));
    assert_eq!(
        parse_i64(b"000000000000000000000000000000000000000001"),
        Some(1)
    );
}

#[test]
fn parse_i64_refuses_what_is_no_number() {
    assert_eq!(parse_i64(b""), None);
    assert_eq!(parse_i64(b"-"), None);
    assert_eq!(parse_i64(b"+"), None);
    assert_eq!(parse_i64(b"+-1"), None);
    assert_eq!(parse_i64(b"1 "), None);
    assert_eq!(parse_i64(b" 1"), None);
    assert_eq!(parse_i64(b"1.5"), None);
    assert_eq!(parse_i64(b"0x10"), None);
    assert_eq!(parse_i64(b"12\xc3\xa9"), None);
    assert_eq!(parse_i64(b"9223372036854775808"), None);
    assert_eq!(parse_i64(b"-9223372036854775809"), None);
    assert_eq!(parse_i64(b"99999999999999999999999999999999999999999"), None);
    assert_eq!(parse_i64(b"99999999999999999999999999999999999999999x"), None);
}

#[test]
fn parse_i64_agrees_with_the_standard_library() {
    let texts: [&str; 14] = [
        "", "0", "-0", "+0", "7", "-7", "+7", "007", "1a", "a1", "-", "+",
        "9223372036854775807", "-9223372036854775808",
    ];
    for text in texts {
        assert_eq!(parse_i64(text.as_bytes()), text.parse::<i64>().ok(), "{}", text);
    }
}

#[test]
fn integers_are_written_in_shortest_decimal() {
    assert_eq!(int_text(0), b"0".to_vec());
    assert_eq!(int_text(9), b"9".to_vec());
    assert_eq!(int_text(10), b"10".to_vec());
    assert_eq!(int_text(-1), b"-1".to_vec());
    assert_eq!(int_text(1234567890), b"1234567890".to_vec());
    assert_eq!(int_text(i64::MAX), b"9223372036854775807".to_vec());
    assert_eq!(int_text(i64::MIN), b"-9223372036854775808".to_vec());
}

#[test]
fn digits_are_added_behind_what_is_there() {
    let mut out = b"n=".to_vec();
    push_nat_digits(&mut out, 305);
    assert_eq!(out, b"n=305".to_vec());
    push_nat_digits(&mut out, u64::MAX);
    assert_eq!(out, b"n=30518446744073709551615".to_vec());
}

#[test]
fn written_integers_read_back() {
    let numbers: [i64; 9] = [0, 1, -1, 10, -10, 99, 1000000, i64::MAX, i64::MIN];
    for number in numbers {
        assert_eq!(parse_i64(&int_text(number)), Some(number));
        assert_eq!(int_text(number), format!("{}", number).into_bytes());
    }
}
