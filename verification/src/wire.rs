//! The wire format as mathematics: what each value looks like in bytes, and
//! what a run of bytes reads as.
use crate::decimal::{spec_int_text, spec_nat_digits, spec_parse_i64};
use crate::resp::ParseError;
use vstd::prelude::*;
use vstd::utf8::{decode_utf8, encode_utf8, valid_utf8};

verus! {

/// Carriage return.
pub const CR: u8 = 13;

/// Line feed.
pub const LF: u8 = 10;

/// The byte that separates the words of an inline request.
pub const SPACE: u8 = 32;

/// Lead byte `+` of a simple string.
pub const LEAD_STRING: u8 = 43;

/// Lead byte `-` of an error.
pub const LEAD_ERROR: u8 = 45;

/// Lead byte `:` of an integer.
pub const LEAD_INTEGER: u8 = 58;

/// Lead byte `$` of a bulk string.
pub const LEAD_BULK: u8 = 36;

/// Lead byte `*` of an array.
pub const LEAD_ARRAY: u8 = 42;

/// A value of the protocol, as a mathematical object.
pub enum Value {
    String(Seq<char>),
    Error(Seq<char>),
    Integer(i64),
    BulkString(Seq<char>),
    Array(Seq<Value>),
    NullBulkString,
    NullArray,
}

/// CR LF, the end of every line.
pub open spec fn crlf() -> Seq<u8> {
    seq![CR, LF]
}

/// The bytes of the null bulk string, `$-1` and CR LF.
pub open spec fn null_bulk_bytes() -> Seq<u8> {
    seq![LEAD_BULK, 45u8, 49u8, CR, LF]
}

/// The bytes of the null array, `*-1` and CR LF.
pub open spec fn null_array_bytes() -> Seq<u8> {
    seq![LEAD_ARRAY, 45u8, 49u8, CR, LF]
}

/// The bytes that stand for `v` on the wire.
pub open spec fn spec_ser(v: Value) -> Seq<u8>
    decreases v,
{
    match v {
        Value::String(s) => seq![LEAD_STRING] + encode_utf8(s) + crlf(),
        Value::Error(s) => seq![LEAD_ERROR] + encode_utf8(s) + crlf(),
        Value::Integer(i) => seq![LEAD_INTEGER] + spec_int_text(i as int) + crlf(),
        Value::BulkString(s) => seq![LEAD_BULK] + spec_nat_digits(encode_utf8(s).len()) + crlf()
            + encode_utf8(s) + crlf(),
        Value::Array(items) => seq![LEAD_ARRAY] + spec_nat_digits(items.len()) + crlf()
            + spec_ser_all(items),
        Value::NullBulkString => null_bulk_bytes(),
        Value::NullArray => null_array_bytes(),
    }
}

/// The bytes of several values, one after the other.
pub open spec fn spec_ser_all(items: Seq<Value>) -> Seq<u8>
    decreases items,
{
    if items.len() == 0 {
        Seq::empty()
    } else {
        spec_ser(items[0]) + spec_ser_all(items.drop_first())
    }
}

/// No CR in `b` is directly followed by LF.
pub open spec fn no_crlf(b: Seq<u8>) -> bool {
    forall|j: int| !crlf_at(b, j)
}

/// Whether `v` can be sent and read back: the text of a simple string or of
/// an error holds no CR LF, and the length of a bulk string and the count of
/// an array fit a length line and the platform's index type. The same holds
/// of the items of an array.
pub open spec fn well_formed(v: Value) -> bool
    decreases v,
{
    match v {
        Value::String(s) => no_crlf(encode_utf8(s)),
        Value::Error(s) => no_crlf(encode_utf8(s)),
        Value::Integer(i) => true,
        Value::BulkString(s) => encode_utf8(s).len() <= i64::MAX && encode_utf8(s).len()
            <= usize::MAX,
        Value::Array(items) => items.len() <= i64::MAX && items.len() <= usize::MAX && forall|
            i: int,
        | 0 <= i < items.len() ==> well_formed(#[trigger] items[i]),
        Value::NullBulkString => true,
        Value::NullArray => true,
    }
}

/// CR stands at `i` and LF directly after it.
pub open spec fn crlf_at(b: Seq<u8>, i: int) -> bool {
    0 <= i && i + 1 < b.len() && b[i] == CR && b[i + 1] == LF
}

/// `i` is where the first CR LF of `b` starts.
pub open spec fn first_crlf(b: Seq<u8>, i: int) -> bool {
    crlf_at(b, i) && forall|j: int| 0 <= j < i ==> !crlf_at(b, j)
}

/// Somewhere in `b` CR is directly followed by LF.
pub open spec fn has_crlf(b: Seq<u8>) -> bool {
    exists|i: int| first_crlf(b, i)
}

/// Where the first CR LF of `b` starts, if it has one.
pub open spec fn crlf_index(b: Seq<u8>) -> int {
    choose|i: int| first_crlf(b, i)
}

/// The bytes before the first CR LF, and the bytes after it.
pub open spec fn spec_line(b: Seq<u8>) -> Option<(Seq<u8>, Seq<u8>)> {
    if has_crlf(b) {
        Some((b.take(crlf_index(b)), b.skip(crlf_index(b) + 2)))
    } else {
        None
    }
}

/// Reading a line of text: all up to the first CR LF, which is consumed too.
/// Without one, everything is consumed and the read fails.
pub open spec fn spec_read_until_crlf(b: Seq<u8>) -> (Result<Seq<char>, ParseError>, Seq<u8>) {
    match spec_line(b) {
        None => (Err(ParseError::MissingCRLF), Seq::empty()),
        Some((line, rest)) => if valid_utf8(line) {
            (Ok(decode_utf8(line)), rest)
        } else {
            (Err(ParseError::Utf8), rest)
        },
    }
}

/// Reading exactly `n` bytes of text. Where fewer are left, everything is
/// consumed and the read fails.
pub open spec fn spec_read_exact(b: Seq<u8>, n: nat) -> (Result<Seq<char>, ParseError>, Seq<u8>) {
    if b.len() < n {
        (Err(ParseError::UnexpectedEnding), Seq::empty())
    } else if valid_utf8(b.take(n as int)) {
        (Ok(decode_utf8(b.take(n as int))), b.skip(n as int))
    } else {
        (Err(ParseError::Utf8), b.skip(n as int))
    }
}

/// Reading the CR LF that closes a bulk string's payload. Two bytes are
/// consumed whatever they are, or all that is left.
pub open spec fn spec_read_crlf(b: Seq<u8>) -> (Result<(), ParseError>, Seq<u8>) {
    if b.len() < 2 {
        (Err(ParseError::MissingCRLF), Seq::empty())
    } else if b[0] == CR && b[1] == LF {
        (Ok(()), b.skip(2))
    } else {
        (Err(ParseError::MissingCRLF), b.skip(2))
    }
}

/// Reading a line that holds a decimal integer.
pub open spec fn spec_read_i64(b: Seq<u8>) -> (Result<i64, ParseError>, Seq<u8>) {
    match spec_read_until_crlf(b) {
        (Ok(text), rest) => match spec_parse_i64(encode_utf8(text)) {
            Some(i) => (Ok(i), rest),
            None => (Err(ParseError::Int), rest),
        },
        (Err(e), rest) => (Err(e), rest),
    }
}

/// What follows the lead byte of a simple string.
pub open spec fn spec_parse_string(b: Seq<u8>) -> (Result<Value, ParseError>, Seq<u8>) {
    match spec_read_until_crlf(b) {
        (Ok(text), rest) => (Ok(Value::String(text)), rest),
        (Err(e), rest) => (Err(e), rest),
    }
}

/// What follows the lead byte of an error.
pub open spec fn spec_parse_error(b: Seq<u8>) -> (Result<Value, ParseError>, Seq<u8>) {
    match spec_read_until_crlf(b) {
        (Ok(text), rest) => (Ok(Value::Error(text)), rest),
        (Err(e), rest) => (Err(e), rest),
    }
}

/// What follows the lead byte of an integer.
pub open spec fn spec_parse_integer(b: Seq<u8>) -> (Result<Value, ParseError>, Seq<u8>) {
    match spec_read_i64(b) {
        (Ok(i), rest) => (Ok(Value::Integer(i)), rest),
        (Err(e), rest) => (Err(e), rest),
    }
}

/// What follows the lead byte of a bulk string: the length line, then the
/// payload of exactly that many bytes, then CR LF. Length `-1` is the null
/// bulk string, which has no payload.
pub open spec fn spec_parse_bulk_string(b: Seq<u8>) -> (Result<Value, ParseError>, Seq<u8>) {
    match spec_read_i64(b) {
        (Err(e), rest) => (Err(e), rest),
        (Ok(length), rest) => if length == -1 {
            (Ok(Value::NullBulkString), rest)
        } else if length < 0 || length > usize::MAX {
            (Err(ParseError::NegativeInt), rest)
        } else {
            match spec_read_exact(rest, length as nat) {
                (Err(e), after) => (Err(e), after),
                (Ok(text), after) => match spec_read_crlf(after) {
                    (Err(e), end) => (Err(e), end),
                    (Ok(_), end) => (Ok(Value::BulkString(text)), end),
                },
            }
        },
    }
}

/// The length of the word that `s` starts with: the bytes before its first
/// space.
pub open spec fn word_len(s: Seq<u8>) -> nat
    decreases s.len(),
{
    if s.len() == 0 || s[0] == SPACE {
        0
    } else {
        1 + word_len(s.drop_first())
    }
}

/// `w` is not empty and holds no space.
pub open spec fn is_word(w: Seq<u8>) -> bool {
    w.len() > 0 && forall|i: int| 0 <= i < w.len() ==> #[trigger] w[i] != SPACE
}

/// The words of a line: its maximal runs of bytes that are no space, in order.
pub open spec fn spec_words(s: Seq<u8>) -> Seq<Seq<u8>>
    decreases s.len(),
    via spec_words_decreases
{
    if s.len() == 0 {
        Seq::empty()
    } else if s[0] == SPACE {
        spec_words(s.drop_first())
    } else {
        seq![s.take(word_len(s) as int)] + spec_words(s.skip(word_len(s) as int))
    }
}

#[via_fn]
proof fn spec_words_decreases(s: Seq<u8>) {
    if s.len() != 0 && s[0] != SPACE {
        lemma_word_len_bounds(s);
    }
}

/// A word is a part of its line, holds no space, and ends before a space or
/// with the line.
pub proof fn lemma_word_len_bounds(s: Seq<u8>)
    ensures
        word_len(s) <= s.len(),
        s.len() > 0 && s[0] != SPACE ==> word_len(s) >= 1,
        forall|i: int| 0 <= i < word_len(s) ==> #[trigger] s[i] != SPACE,
        word_len(s) < s.len() ==> s[word_len(s) as int] == SPACE,
    decreases s.len(),
{
    if s.len() == 0 || s[0] == SPACE {
    } else {
        let t: Seq<u8> = s.drop_first();
        lemma_word_len_bounds(t);
        assert forall|i: int| 0 <= i < word_len(s) implies #[trigger] s[i] != SPACE by {
            if i > 0 {
                assert(s[i] == t[i - 1]);
            }
        }
        if word_len(s) < s.len() {
            assert(s[word_len(s) as int] == t[word_len(t) as int]);
        }
    }
}

/// The line that holds `words` with one space between each two of them.
pub open spec fn join_words(words: Seq<Seq<u8>>) -> Seq<u8>
    decreases words.len(),
{
    if words.len() == 0 {
        Seq::empty()
    } else if words.len() == 1 {
        words[0]
    } else {
        words[0] + seq![SPACE] + join_words(words.drop_first())
    }
}

/// What one word of an inline request stands for: an integer where it reads
/// as one, else a simple string.
pub open spec fn spec_word_value(word: Seq<u8>) -> Value {
    match spec_parse_i64(word) {
        Some(i) => Value::Integer(i),
        None => Value::String(decode_utf8(word)),
    }
}

/// What the words of an inline request stand for, in order.
pub open spec fn spec_word_values(words: Seq<Seq<u8>>) -> Seq<Value> {
    Seq::new(words.len(), |i: int| spec_word_value(words[i]))
}

/// A word ends before the first space, or with the line.
pub proof fn lemma_word_len_is(s: Seq<u8>, n: int)
    requires
        0 <= n <= s.len(),
        forall|j: int| 0 <= j < n ==> #[trigger] s[j] != SPACE,
        n < s.len() ==> s[n] == SPACE,
    ensures
        word_len(s) == n,
    decreases n,
{
    if n > 0 {
        let t: Seq<u8> = s.drop_first();
        assert forall|j: int| 0 <= j < n - 1 implies #[trigger] t[j] != SPACE by {
            assert(t[j] == s[j + 1]);
        }
        lemma_word_len_is(t, n - 1);
    }
}

/// The line of an inline request that starts with the first byte of `b`, and
/// the bytes after it. The line ends before the first CR LF that starts
/// behind the first byte, or with the input.
pub open spec fn spec_inline_line(b: Seq<u8>) -> (Seq<u8>, Seq<u8>) {
    match spec_line(b.drop_first()) {
        Some((line, rest)) => (seq![b[0]] + line, rest),
        None => (b, Seq::empty()),
    }
}

/// An inline request: a line of words that are set apart by single spaces.
pub open spec fn spec_parse_pipeline(b: Seq<u8>) -> (Result<Value, ParseError>, Seq<u8>) {
    let (line, rest) = spec_inline_line(b);
    if valid_utf8(line) {
        (Ok(Value::Array(spec_word_values(spec_words(line)))), rest)
    } else {
        (Err(ParseError::Utf8), rest)
    }
}

/// Wraps a result in `Some`: a value was there.
pub open spec fn present(r: (Result<Value, ParseError>, Seq<u8>)) -> (
    Result<Option<Value>, ParseError>,
    Seq<u8>,
) {
    match r.0 {
        Ok(v) => (Ok(Some(v)), r.1),
        Err(e) => (Err(e), r.1),
    }
}

/// What `b` reads as, and the bytes that are left after it.
///
/// Nothing at all reads as `Ok(None)`. Else the first byte says what follows.
/// A byte that is no lead byte starts an inline request where `inline` holds,
/// and is an error where it does not.
pub open spec fn spec_parse(b: Seq<u8>, inline: bool) -> (
    Result<Option<Value>, ParseError>,
    Seq<u8>,
)
    decreases b.len(), 0nat,
{
    if b.len() == 0 {
        (Ok(None), b)
    } else if b[0] == LEAD_STRING {
        present(spec_parse_string(b.drop_first()))
    } else if b[0] == LEAD_ERROR {
        present(spec_parse_error(b.drop_first()))
    } else if b[0] == LEAD_INTEGER {
        present(spec_parse_integer(b.drop_first()))
    } else if b[0] == LEAD_ARRAY {
        present(spec_parse_array(b.drop_first()))
    } else if b[0] == LEAD_BULK {
        present(spec_parse_bulk_string(b.drop_first()))
    } else if inline {
        present(spec_parse_pipeline(b))
    } else {
        (Err(ParseError::UnexpectedEnding), b.drop_first())
    }
}

/// What follows the lead byte of an array: the count line, then exactly that
/// many values. Count `-1` is the null array.
pub open spec fn spec_parse_array(b: Seq<u8>) -> (Result<Value, ParseError>, Seq<u8>)
    decreases b.len(), 2nat,
    via spec_parse_array_decreases
{
    match spec_read_i64(b) {
        (Err(e), rest) => (Err(e), rest),
        (Ok(length), rest) => if length == -1 {
            (Ok(Value::NullArray), rest)
        } else if length < 0 || length > usize::MAX {
            (Err(ParseError::NegativeInt), rest)
        } else {
            match spec_parse_items(rest, length as nat) {
                (Some(items), end) => (Ok(Value::Array(items)), end),
                (None, end) => (Err(ParseError::UnexpectedEnding), end),
            }
        },
    }
}

/// Reading `n` values in a row, none of them inline. Where one of them
/// cannot be read, for whatever reason, there is no result.
///
/// A value that was read took its lead byte at least (`lemma_parse_rest`), so
/// the test on the lengths always holds: it bounds the recursion and decides
/// nothing.
pub open spec fn spec_parse_items(b: Seq<u8>, n: nat) -> (Option<Seq<Value>>, Seq<u8>)
    decreases b.len(), 1nat,
{
    if n == 0 {
        (Some(Seq::empty()), b)
    } else {
        match spec_parse(b, false) {
            (Ok(Some(first)), rest) => if rest.len() < b.len() {
                match spec_parse_items(rest, (n - 1) as nat) {
                    (Some(others), end) => (Some(seq![first] + others), end),
                    (None, end) => (None, end),
                }
            } else {
                (None, rest)
            },
            (_, rest) => (None, rest),
        }
    }
}

#[via_fn]
proof fn spec_parse_array_decreases(b: Seq<u8>) {
    lemma_read_i64_rest(b);
}

/// The first CR LF is where `crlf_index` says.
pub proof fn lemma_first_crlf_unique(b: Seq<u8>, i: int)
    requires
        first_crlf(b, i),
    ensures
        has_crlf(b),
        crlf_index(b) == i,
        spec_line(b) == Some((b.take(i), b.skip(i + 2))),
{
    let j: int = crlf_index(b);
    assert(first_crlf(b, j));
    if j < i {
        assert(!crlf_at(b, j));
    }
    if i < j {
        assert(!crlf_at(b, i));
    }
}

/// Bytes without any CR LF hold no line.
pub proof fn lemma_no_crlf(b: Seq<u8>)
    requires
        forall|j: int| !crlf_at(b, j),
    ensures
        !has_crlf(b),
        spec_line(b) is None,
{
}

/// What is left after a line is a part of what was there.
pub proof fn lemma_line_rest(b: Seq<u8>)
    ensures
        spec_line(b) matches Some((line, rest)) ==> first_crlf(b, line.len() as int) && line
            == b.take(line.len() as int) && rest == b.skip(line.len() as int + 2) && rest.len()
            + line.len() + 2 == b.len(),
{
    if has_crlf(b) {
        let i: int = crlf_index(b);
        assert(first_crlf(b, i));
    }
}

/// Reading an integer line leaves no more than was there, and less by the
/// CR LF at least where it succeeds.
pub proof fn lemma_read_i64_rest(b: Seq<u8>)
    ensures
        spec_read_i64(b).1.len() <= b.len(),
        spec_read_i64(b).0 is Ok ==> spec_read_i64(b).1.len() + 2 <= b.len(),
{
    lemma_line_rest(b);
}

/// Reading a bulk string leaves no more than was there.
pub proof fn lemma_parse_bulk_string_rest(b: Seq<u8>)
    ensures
        spec_parse_bulk_string(b).1.len() <= b.len(),
{
    lemma_read_i64_rest(b);
}

/// Reading, whatever comes of it, leaves no more than was there, and less
/// where there was anything at all.
pub proof fn lemma_parse_rest(b: Seq<u8>, inline: bool)
    ensures
        spec_parse(b, inline).1.len() <= b.len(),
        b.len() > 0 ==> spec_parse(b, inline).1.len() < b.len(),
    decreases b.len(), 0nat,
{
    if b.len() > 0 {
        let body: Seq<u8> = b.drop_first();
        lemma_line_rest(body);
        lemma_read_i64_rest(body);
        lemma_parse_bulk_string_rest(body);
        if b[0] == LEAD_ARRAY {
            lemma_parse_array_rest(body);
        }
    }
}

/// Reading an array leaves no more than was there.
pub proof fn lemma_parse_array_rest(b: Seq<u8>)
    ensures
        spec_parse_array(b).1.len() <= b.len(),
    decreases b.len(), 2nat,
{
    lemma_read_i64_rest(b);
    match spec_read_i64(b) {
        (Ok(length), rest) => {
            if length != -1 && !(length < 0 || length > usize::MAX) {
                lemma_parse_items_rest(rest, length as nat);
            }
        },
        _ => {},
    }
}

/// Reading values in a row leaves no more than was there.
pub proof fn lemma_parse_items_rest(b: Seq<u8>, n: nat)
    ensures
        spec_parse_items(b, n).1.len() <= b.len(),
    decreases b.len(), 1nat,
{
    if n > 0 {
        lemma_parse_rest(b, false);
        match spec_parse(b, false) {
            (Ok(Some(first)), rest) => {
                if rest.len() < b.len() {
                    lemma_parse_items_rest(rest, (n - 1) as nat);
                }
            },
            _ => {},
        }
    }
}

} // verus!
