use rusdis::cursor::ByteCursor;

#[test]
fn cursor_gives_the_bytes_in_order() {
    let mut cursor = ByteCursor::new(b"ab");
    assert_eq!(cursor.remaining(), 2);
    assert_eq!(cursor.next(), Some(b'a'));
    assert_eq!(cursor.remaining(), 1);
    assert_eq!(cursor.next(), Some(b'b'));
    assert_eq!(cursor.remaining(), 0);
    assert_eq!(cursor.next(), None);
    assert_eq!(cursor.next(), None);
    assert_eq!(cursor.remaining(), 0);
}

#[test]
fn cursor_over_nothing_gives_nothing() {
    let mut cursor = ByteCursor::new(b"");
    assert_eq!(cursor.remaining(), 0);
    assert_eq!(cursor.next(), None);
}
