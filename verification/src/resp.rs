//! Values of the protocol and their codec: `ser` writes a value as bytes,
//! `parse` reads one from a cursor.
use crate::cursor::ByteCursor;
use crate::decimal::{parse_i64, push_int_text, push_nat_digits, spec_nat_digits};
use crate::text::{lemma_boundary_after_ascii, lemma_boundary_at_ascii, string_from_utf8};
use crate::wire::{
    crlf, crlf_at, first_crlf, lemma_first_crlf_unique, lemma_no_crlf, lemma_parse_rest,
    lemma_read_i64_rest, lemma_word_len_is, spec_inline_line, spec_line, spec_parse,
    spec_parse_array, spec_parse_bulk_string, spec_parse_error, spec_parse_integer,
    spec_parse_items, spec_parse_pipeline, spec_parse_string, spec_read_crlf, spec_read_exact,
    spec_read_i64, spec_read_until_crlf, spec_ser, spec_ser_all, spec_word_value,
    spec_word_values, spec_words, Value, CR, LEAD_ARRAY, LEAD_BULK, LEAD_ERROR, LEAD_INTEGER,
    LEAD_STRING, LF, SPACE,
};
use vstd::prelude::*;
use vstd::string::StringSliceAdditionalSpecFns;
use vstd::utf8::{
    decode_utf8_encode_utf8, encode_utf8, encode_utf8_decode_utf8, encode_utf8_valid_utf8,
};

verus! {

/// A value of the protocol.
#[derive(Debug, PartialEq, Eq)]
pub enum Data {
    String(String),
    Error(String),
    Integer(i64),
    BulkString(String),
    Array(Vec<Data>),
    NullBulkString,
    NullArray,
}

/// Why a run of bytes could not be read as a value.
#[derive(Debug, Clone, Copy, PartialEq, Eq)]
pub enum ParseError {
    /// A length or integer line is not a decimal 64-bit integer.
    Int,
    /// Text is not valid UTF-8.
    Utf8,
    /// A length is negative without being the null marker `-1`, or does not
    /// fit the platform's index type.
    NegativeInt,
    /// A line, or the payload of a bulk string, is not closed by CR LF.
    MissingCRLF,
    /// The bytes end, or hold something that is no value, before what was
    /// announced is complete.
    UnexpectedEnding,
}

impl View for Data {
    type V = Value;

    open spec fn view(&self) -> Value {
        value_of(*self)
    }
}

/// The mathematical value that `data` holds.
pub open spec fn value_of(data: Data) -> Value
    decreases data,
{
    match data {
        Data::String(s) => Value::String(s@),
        Data::Error(s) => Value::Error(s@),
        Data::Integer(i) => Value::Integer(i),
        Data::BulkString(s) => Value::BulkString(s@),
        Data::Array(items) => Value::Array(views(items@)),
        Data::NullBulkString => Value::NullBulkString,
        Data::NullArray => Value::NullArray,
    }
}

/// The views of the values in `items`, in order.
pub open spec fn views(items: Seq<Data>) -> Seq<Value>
    decreases items,
{
    if items.len() == 0 {
        Seq::empty()
    } else {
        views(items.drop_last()).push(value_of(items.last()))
    }
}

/// `views` keeps the length and views each item where it stands.
pub proof fn lemma_views(items: Seq<Data>)
    ensures
        views(items).len() == items.len(),
        forall|i: int| 0 <= i < items.len() ==> (#[trigger] views(items)[i]) == items[i]@,
    decreases items.len(),
{
    if items.len() > 0 {
        lemma_views(items.drop_last());
        assert forall|i: int| 0 <= i < items.len() implies (#[trigger] views(items)[i])
            == items[i]@ by {
            if i < items.len() - 1 {
                assert(items.drop_last()[i] == items[i]);
            }
        }
    }
}

/// Appends CR LF to `out`.
fn push_crlf(out: &mut Vec<u8>)
    ensures
        final(out)@ == old(out)@ + seq![CR, LF],
{
    out.push(CR);
    out.push(LF);
    assert(final(out)@ =~= old(out)@ + seq![CR, LF]);
}

/// Appends the UTF-8 bytes of `text` to `out`.
fn push_text(out: &mut Vec<u8>, text: &str)
    ensures
        final(out)@ == old(out)@ + encode_utf8(text@),
{
    out.extend_from_slice(text.as_bytes());
    assert(final(out)@ =~= old(out)@ + text.spec_bytes());
}

/// Appends the bytes of `data` to `out`.
fn write_data(data: &Data, out: &mut Vec<u8>)
    ensures
        final(out)@ == old(out)@ + spec_ser(data@),
    decreases data,
{
    match data {
        Data::String(text) => {
            out.push(LEAD_STRING);
            push_text(out, text.as_str());
            push_crlf(out);
            assert(final(out)@ =~= old(out)@ + spec_ser(data@));
        },
        Data::Error(text) => {
            out.push(LEAD_ERROR);
            push_text(out, text.as_str());
            push_crlf(out);
            assert(final(out)@ =~= old(out)@ + spec_ser(data@));
        },
        Data::Integer(number) => {
            out.push(LEAD_INTEGER);
            push_int_text(out, *number);
            push_crlf(out);
            assert(final(out)@ =~= old(out)@ + spec_ser(data@));
        },
        Data::BulkString(text) => {
            out.push(LEAD_BULK);
            push_nat_digits(out, text.as_str().as_bytes().len() as u64);
            push_crlf(out);
            push_text(out, text.as_str());
            push_crlf(out);
            assert(final(out)@ =~= old(out)@ + spec_ser(data@));
        },
        Data::Array(items) => {
            proof {
                lemma_views(items@);
                assert(decreases_to!(data => items));
            }
            let ghost all: Seq<Value> = views(items@);
            out.push(LEAD_ARRAY);
            push_nat_digits(out, items.len() as u64);
            push_crlf(out);
            let ghost head: Seq<u8> = out@;
            assert(head =~= old(out)@ + (seq![LEAD_ARRAY] + spec_nat_digits(all.len()) + crlf()));
            let mut i: usize = 0;
            assert(all.skip(0) =~= all);
            while i < items.len()
                invariant
                    0 <= i <= items.len(),
                    all == views(items@),
                    *data == Data::Array(*items),
                    decreases_to!(data => items),
                    out@ + spec_ser_all(all.skip(i as int)) == head + spec_ser_all(all),
                decreases items.len() - i,
            {
                let ghost before: Seq<u8> = out@;
                proof {
                    lemma_views(items@);
                    assert(all.skip(i as int).drop_first() =~= all.skip(i as int + 1));
                    assert(all.skip(i as int)[0] == items@[i as int]@);
                    vstd::std_specs::vec::axiom_vec_index_decreases(*items, i as int);
                }
                write_data(&items[i], out);
                assert(out@ + spec_ser_all(all.skip(i as int + 1)) =~= before + spec_ser_all(
                    all.skip(i as int),
                ));
                i += 1;
            }
            assert(spec_ser_all(all.skip(i as int)) =~= Seq::<u8>::empty());
            assert(final(out)@ =~= old(out)@ + spec_ser(data@));
        },
        Data::NullBulkString => {
            out.push(LEAD_BULK);
            out.push(45u8);
            out.push(49u8);
            push_crlf(out);
            assert(final(out)@ =~= old(out)@ + spec_ser(data@));
        },
        Data::NullArray => {
            out.push(LEAD_ARRAY);
            out.push(45u8);
            out.push(49u8);
            push_crlf(out);
            assert(final(out)@ =~= old(out)@ + spec_ser(data@));
        },
    }
}

/// The bytes that stand for `data` on the wire. They depend on nothing but
/// the value.
pub fn ser(data: Data) -> (out: Vec<u8>)
    ensures
        out@ == spec_ser(data@),
{
    let mut out: Vec<u8> = Vec::new();
    write_data(&data, &mut out);
    assert(out@ =~= spec_ser(data@));
    out
}

/// The bytes of the simple string `str`.
pub fn ser_string(str: &str) -> (out: Vec<u8>)
    ensures
        out@ == spec_ser(Value::String(str@)),
{
    ser(Data::String(str.to_owned()))
}

/// The bytes of the error `str`.
pub fn ser_error(str: &str) -> (out: Vec<u8>)
    ensures
        out@ == spec_ser(Value::Error(str@)),
{
    ser(Data::Error(str.to_owned()))
}

/// The bytes of the integer `number`.
pub fn ser_int(number: i64) -> (out: Vec<u8>)
    ensures
        out@ == spec_ser(Value::Integer(number)),
{
    ser(Data::Integer(number))
}

/// The bytes of the bulk string `str`.
pub fn ser_bulk_string(str: &str) -> (out: Vec<u8>)
    ensures
        out@ == spec_ser(Value::BulkString(str@)),
{
    ser(Data::BulkString(str.to_owned()))
}

/// The bytes of the null bulk string.
pub fn ser_null_bulk_string() -> (out: Vec<u8>)
    ensures
        out@ == spec_ser(Value::NullBulkString),
{
    ser(Data::NullBulkString)
}

/// A result that holds text, with the text as characters.
pub open spec fn text_result(res: Result<String, ParseError>) -> Result<Seq<char>, ParseError> {
    match res {
        Ok(s) => Ok(s@),
        Err(e) => Err(e),
    }
}

/// A result that holds a value, with the value as mathematics.
pub open spec fn value_result(res: Result<Data, ParseError>) -> Result<Value, ParseError> {
    match res {
        Ok(d) => Ok(d@),
        Err(e) => Err(e),
    }
}

/// The result of `parse`, with the value as mathematics.
pub open spec fn frame_result(res: Result<Option<Data>, ParseError>) -> Result<
    Option<Value>,
    ParseError,
> {
    match res {
        Ok(Some(d)) => Ok(Some(d@)),
        Ok(None) => Ok(None),
        Err(e) => Err(e),
    }
}

/// Takes the bytes before the first CR LF, and the CR LF itself. Without a
/// CR LF it takes everything and says so with `false`.
fn take_line(read_buf: &mut ByteCursor) -> (res: (Vec<u8>, bool))
    ensures
        match spec_line(old(read_buf)@) {
            Some((line, rest)) => res.1 && res.0@ == line && final(read_buf)@ == rest,
            None => !res.1 && res.0@ == old(read_buf)@ && final(read_buf)@ == Seq::<u8>::empty(),
        },
{
    let ghost start: Seq<u8> = read_buf@;
    let mut write_buf: Vec<u8> = Vec::new();
    let mut after_cr: bool = false;
    assert(start.skip(0) =~= start);
    loop
        invariant
            start == old(read_buf)@,
            write_buf@.len() <= start.len(),
            write_buf@ == start.take(write_buf@.len() as int),
            read_buf@ == start.skip(write_buf@.len() as int),
            after_cr == (write_buf@.len() > 0 && write_buf@.last() == CR),
            forall|j: int| 0 <= j && j + 1 < write_buf@.len() ==> !crlf_at(start, j),
        decreases read_buf@.len(),
    {
        let ghost taken: int = write_buf@.len() as int;
        match read_buf.next() {
            None => {
                proof {
                    assert(write_buf@ =~= start);
                    assert(read_buf@ =~= Seq::<u8>::empty());
                    lemma_no_crlf(start);
                }
                return (write_buf, false);
            },
            Some(x) => {
                assert(x == start[taken]);
                assert(read_buf@ =~= start.skip(taken + 1));
                if after_cr && x == LF {
                    write_buf.pop();
                    proof {
                        assert(start[taken - 1] == CR);
                        assert(first_crlf(start, taken - 1));
                        lemma_first_crlf_unique(start, taken - 1);
                        assert(write_buf@ =~= start.take(taken - 1));
                    }
                    return (write_buf, true);
                }
                write_buf.push(x);
                after_cr = x == CR;
                assert(write_buf@ =~= start.take(taken + 1));
            },
        }
    }
}

/// Reads two bytes, which must be CR LF.
pub fn read_crlf(read_buf: &mut ByteCursor) -> (res: Result<(), ParseError>)
    ensures
        (res, final(read_buf)@) == spec_read_crlf(old(read_buf)@),
{
    let ghost start: Seq<u8> = read_buf@;
    match read_buf.next() {
        None => {
            assert(read_buf@ =~= Seq::<u8>::empty());
            Err(ParseError::MissingCRLF)
        },
        Some(first) => match read_buf.next() {
            None => {
                assert(read_buf@ =~= Seq::<u8>::empty());
                Err(ParseError::MissingCRLF)
            },
            Some(second) => {
                assert(read_buf@ =~= start.skip(2));
                if first == CR && second == LF {
                    Ok(())
                } else {
                    Err(ParseError::MissingCRLF)
                }
            },
        },
    }
}

/// Reads exactly `length` bytes of text.
pub fn read_exact(read_buf: &mut ByteCursor, length: usize) -> (res: Result<String, ParseError>)
    ensures
        (text_result(res), final(read_buf)@) == spec_read_exact(old(read_buf)@, length as nat),
{
    let ghost start: Seq<u8> = read_buf@;
    let mut write_buf: Vec<u8> = Vec::new();
    let mut count: usize = 0;
    assert(start.skip(0) =~= start);
    while count < length
        invariant
            start == old(read_buf)@,
            count <= length,
            count <= start.len(),
            write_buf@ == start.take(count as int),
            read_buf@ == start.skip(count as int),
        decreases length - count,
    {
        match read_buf.next() {
            None => {
                assert(read_buf@ =~= Seq::<u8>::empty());
                return Err(ParseError::UnexpectedEnding);
            },
            Some(x) => {
                write_buf.push(x);
                assert(write_buf@ =~= start.take(count + 1));
                assert(read_buf@ =~= start.skip(count + 1));
                count += 1;
            },
        }
    }
    match string_from_utf8(write_buf) {
        Some(text) => Ok(text),
        None => Err(ParseError::Utf8),
    }
}

/// Reads a line of text and the CR LF that closes it.
pub fn read_until_crlf(read_buf: &mut ByteCursor) -> (res: Result<String, ParseError>)
    ensures
        (text_result(res), final(read_buf)@) == spec_read_until_crlf(old(read_buf)@),
{
    let (write_buf, closed) = take_line(read_buf);
    if !closed {
        return Err(ParseError::MissingCRLF);
    }
    match string_from_utf8(write_buf) {
        Some(text) => Ok(text),
        None => Err(ParseError::Utf8),
    }
}

/// Reads a line that holds a decimal integer.
pub fn read_i64(read_buf: &mut ByteCursor) -> (res: Result<i64, ParseError>)
    ensures
        (res, final(read_buf)@) == spec_read_i64(old(read_buf)@),
{
    match read_until_crlf(read_buf) {
        Ok(text) => match parse_i64(text.as_str().as_bytes()) {
            Some(number) => Ok(number),
            None => Err(ParseError::Int),
        },
        Err(e) => Err(e),
    }
}

/// Reads what follows the lead byte of a simple string.
pub fn parse_string(read_buf: &mut ByteCursor) -> (res: Result<Data, ParseError>)
    ensures
        (value_result(res), final(read_buf)@) == spec_parse_string(old(read_buf)@),
{
    match read_until_crlf(read_buf) {
        Ok(text) => Ok(Data::String(text)),
        Err(e) => Err(e),
    }
}

/// Reads what follows the lead byte of an error.
pub fn parse_error(read_buf: &mut ByteCursor) -> (res: Result<Data, ParseError>)
    ensures
        (value_result(res), final(read_buf)@) == spec_parse_error(old(read_buf)@),
{
    match read_until_crlf(read_buf) {
        Ok(text) => Ok(Data::Error(text)),
        Err(e) => Err(e),
    }
}

/// Reads what follows the lead byte of an integer.
pub fn parse_integer(read_buf: &mut ByteCursor) -> (res: Result<Data, ParseError>)
    ensures
        (value_result(res), final(read_buf)@) == spec_parse_integer(old(read_buf)@),
{
    match read_i64(read_buf) {
        Ok(number) => Ok(Data::Integer(number)),
        Err(e) => Err(e),
    }
}

/// Reads what follows the lead byte of a bulk string.
pub fn parse_bulk_string(read_buf: &mut ByteCursor) -> (res: Result<Data, ParseError>)
    ensures
        (value_result(res), final(read_buf)@) == spec_parse_bulk_string(old(read_buf)@),
{
    let length: i64 = match read_i64(read_buf) {
        Ok(length) => length,
        Err(e) => {
            return Err(e);
        },
    };
    if length == -1 {
        return Ok(Data::NullBulkString);
    }
    if length < 0 || length as u64 > usize::MAX as u64 {
        return Err(ParseError::NegativeInt);
    }
    let content: String = match read_exact(read_buf, length as usize) {
        Ok(content) => content,
        Err(e) => {
            return Err(e);
        },
    };
    match read_crlf(read_buf) {
        Ok(_) => Ok(Data::BulkString(content)),
        Err(e) => Err(e),
    }
}

/// The values that the words of `text` stand for.
fn split_words(text: &str) -> (out: Vec<Data>)
    ensures
        views(out@) == spec_word_values(spec_words(text.spec_bytes())),
{
    let ghost line: Seq<u8> = text.spec_bytes();
    let mut out: Vec<Data> = Vec::new();
    let mut tail: &str = text;
    proof {
        lemma_views(out@);
        assert(views(out@) + spec_word_values(spec_words(line)) =~= spec_word_values(
            spec_words(line),
        ));
    }
    loop
        invariant
            line == text.spec_bytes(),
            views(out@) + spec_word_values(spec_words(tail.spec_bytes())) == spec_word_values(
                spec_words(line),
            ),
        decreases tail.spec_bytes().len(),
    {
        let bytes: &[u8] = tail.as_bytes();
        let n: usize = bytes.len();
        let ghost b: Seq<u8> = tail.spec_bytes();
        proof {
            encode_utf8_valid_utf8(tail@);
        }
        if n == 0 {
            proof {
                assert(spec_words(b) =~= Seq::<Seq<u8>>::empty());
                assert(views(out@) + spec_word_values(spec_words(b)) =~= views(out@));
            }
            return out;
        }
        if bytes[0] == SPACE {
            proof {
                lemma_boundary_after_ascii(b);
            }
            let (_, rest) = tail.split_at(1);
            assert(rest.spec_bytes() =~= b.drop_first());
            tail = rest;
        } else {
            let mut end: usize = 1;
            while end < n && bytes[end] != SPACE
                invariant
                    1 <= end <= n,
                    n == bytes@.len(),
                    forall|j: int| 0 <= j < end ==> #[trigger] bytes@[j] != SPACE,
                decreases n - end,
            {
                end += 1;
            }
            proof {
                lemma_word_len_is(b, end as int);
                lemma_boundary_at_ascii(b, end as int);
            }
            let (word, rest) = tail.split_at(end);
            let ghost w: Seq<u8> = b.take(end as int);
            assert(word.spec_bytes() =~= w);
            assert(rest.spec_bytes() =~= b.skip(end as int));
            let item: Data = match parse_i64(word.as_bytes()) {
                Some(number) => Data::Integer(number),
                None => {
                    proof {
                        encode_utf8_decode_utf8(word@);
                    }
                    Data::String(word.to_owned())
                },
            };
            assert(item@ == spec_word_value(w));
            let ghost before: Seq<Data> = out@;
            out.push(item);
            proof {
                assert(out@.drop_last() =~= before);
                lemma_views(before);
                lemma_views(out@);
                assert(views(out@) =~= views(before).push(spec_word_value(w)));
                assert(spec_words(b) == seq![w] + spec_words(b.skip(end as int)));
                assert(spec_word_values(spec_words(b)) =~= seq![spec_word_value(w)]
                    + spec_word_values(spec_words(b.skip(end as int))));
                assert(views(out@) + spec_word_values(spec_words(rest.spec_bytes())) =~= views(
                    before,
                ) + spec_word_values(spec_words(b)));
            }
            tail = rest;
        }
    }
}

/// Reads an inline request whose first byte, `first`, was taken already.
pub fn parse_pipeline(read_buf: &mut ByteCursor, first: u8) -> (res: Result<Data, ParseError>)
    ensures
        (value_result(res), final(read_buf)@) == spec_parse_pipeline(
            seq![first] + old(read_buf)@,
        ),
{
    let ghost whole: Seq<u8> = seq![first] + old(read_buf)@;
    assert(whole.drop_first() =~= old(read_buf)@);
    let (mut tail, _closed) = take_line(read_buf);
    let mut line: Vec<u8> = Vec::new();
    line.push(first);
    line.append(&mut tail);
    let ghost line_bytes: Seq<u8> = line@;
    assert(line_bytes =~= spec_inline_line(whole).0);
    let content: String = match string_from_utf8(line) {
        Some(content) => content,
        None => {
            return Err(ParseError::Utf8);
        },
    };
    proof {
        decode_utf8_encode_utf8(line_bytes);
    }
    let items: Vec<Data> = split_words(content.as_str());
    Ok(Data::Array(items))
}

/// Reads what follows the lead byte of an array.
pub fn parse_array(read_buf: &mut ByteCursor) -> (res: Result<Data, ParseError>)
    ensures
        (value_result(res), final(read_buf)@) == spec_parse_array(old(read_buf)@),
    decreases old(read_buf)@.len(), 1nat,
{
    proof {
        lemma_read_i64_rest(old(read_buf)@);
    }
    let length: i64 = match read_i64(read_buf) {
        Ok(length) => length,
        Err(e) => {
            return Err(e);
        },
    };
    if length == -1 {
        return Ok(Data::NullArray);
    }
    if length < 0 || length as u64 > usize::MAX as u64 {
        return Err(ParseError::NegativeInt);
    }
    let count: usize = length as usize;
    let ghost body: Seq<u8> = read_buf@;
    let mut results: Vec<Data> = Vec::new();
    let mut i: usize = 0;
    proof {
        lemma_views(results@);
        match spec_parse_items(body, count as nat) {
            (Some(others), end) => {
                assert(views(results@) + others =~= others);
            },
            (None, end) => {},
        }
    }
    while i < count
        invariant
            i <= count,
            count == length,
            spec_read_i64(old(read_buf)@) == (Ok::<i64, ParseError>(length), body),
            body.len() <= old(read_buf)@.len(),
            read_buf@.len() <= body.len(),
            match spec_parse_items(read_buf@, (count - i) as nat) {
                (Some(others), end) => spec_parse_items(body, count as nat) == (
                    Some(views(results@) + others),
                    end,
                ),
                (None, end) => spec_parse_items(body, count as nat) == (None::<Seq<Value>>, end),
            },
        decreases count - i,
    {
        let ghost here: Seq<u8> = read_buf@;
        let ghost before: Seq<Data> = results@;
        proof {
            lemma_parse_rest(here, false);
        }
        match parse(read_buf, false) {
            Ok(Some(item)) => {
                results.push(item);
                proof {
                    assert(results@.drop_last() =~= before);
                    lemma_views(before);
                    lemma_views(results@);
                    assert(views(results@) =~= views(before).push(item@));
                    match spec_parse_items(read_buf@, (count - i - 1) as nat) {
                        (Some(others), end) => {
                            assert(views(results@) + others =~= views(before) + (seq![item@]
                                + others));
                        },
                        (None, end) => {},
                    }
                }
            },
            _ => {
                return Err(ParseError::UnexpectedEnding);
            },
        }
        i += 1;
    }
    proof {
        assert(views(results@) + Seq::<Value>::empty() =~= views(results@));
    }
    Ok(Data::Array(results))
}

/// Reads one value from `read_buf`.
///
/// `Ok(None)` comes when nothing is left to read, and then only. A first byte
/// that is no lead byte starts an inline request where `allow_pipeline` holds;
/// where it does not, it is an error.
pub fn parse(read_buf: &mut ByteCursor, allow_pipeline: bool) -> (res: Result<
    Option<Data>,
    ParseError,
>)
    ensures
        (frame_result(res), final(read_buf)@) == spec_parse(old(read_buf)@, allow_pipeline),
    decreases old(read_buf)@.len(), 0nat,
{
    let ghost start: Seq<u8> = read_buf@;
    let lead: u8 = match read_buf.next() {
        Some(x) => x,
        None => {
            return Ok(None);
        },
    };
    let parsed: Result<Data, ParseError> = if lead == LEAD_STRING {
        parse_string(read_buf)
    } else if lead == LEAD_ERROR {
        parse_error(read_buf)
    } else if lead == LEAD_INTEGER {
        parse_integer(read_buf)
    } else if lead == LEAD_ARRAY {
        parse_array(read_buf)
    } else if lead == LEAD_BULK {
        parse_bulk_string(read_buf)
    } else if allow_pipeline {
        assert(seq![lead] + start.drop_first() =~= start);
        parse_pipeline(read_buf, lead)
    } else {
        return Err(ParseError::UnexpectedEnding);
    };
    match parsed {
        Ok(data) => Ok(Some(data)),
        Err(e) => Err(e),
    }
}

} // verus!
