//! Laws of the codec and of the commands: what was written reads back as it
//! was, arrays hold what they announce, and what the commands do to the store
//! shows in the replies that follow.
use crate::commands::{
    spec_arg, spec_del_contents, spec_del_keys, spec_get, spec_set_contents, spec_set_reply,
};
use crate::decimal::{
    is_digit, lemma_int_text_bytes, lemma_int_text_roundtrip, spec_int_text, spec_nat_digits,
    spec_parse_i64, MINUS,
};
use crate::resp::ParseError;
use crate::server::{
    spec_command, spec_frames, spec_next_state, spec_requests_all, spec_requests_of, spec_run,
    spec_run_all, unknown_command, Command, ConnectionState,
};
use crate::store::present_count;
use crate::wire::{
    crlf, crlf_at, first_crlf, is_word, join_words, lemma_first_crlf_unique, lemma_parse_rest,
    lemma_word_len_bounds, lemma_word_len_is, no_crlf, spec_word_value, word_len, SPACE,
    spec_inline_line, spec_line, spec_parse, spec_parse_array, spec_parse_bulk_string,
    spec_parse_items, spec_parse_pipeline, spec_read_crlf, spec_read_exact, spec_read_i64,
    spec_read_until_crlf, spec_ser, spec_ser_all, spec_word_values, spec_words, well_formed,
    Value, CR, LEAD_ARRAY, LEAD_BULK, LEAD_ERROR, LEAD_INTEGER, LEAD_STRING, LF,
};
use vstd::prelude::*;
use vstd::utf8::{
    decode_utf8, is_ascii_chars, is_ascii_chars_encode_utf8, valid_utf8_concat,
    decode_utf8_encode_utf8, encode_utf8, encode_utf8_decode_utf8, encode_utf8_valid_utf8,
    is_leading_byte_width_1, partial_valid_utf8, partial_valid_utf8_extend_ascii_block,
    valid_utf8,
};

verus! {

/// Bytes that are all ASCII are valid UTF-8.
pub proof fn lemma_ascii_is_valid_utf8(b: Seq<u8>)
    requires
        forall|k: int| 0 <= k < b.len() ==> #[trigger] b[k] < 0x80,
    ensures
        valid_utf8(b),
{
    assert(b.subrange(0, 0) =~= Seq::<u8>::empty());
    assert(partial_valid_utf8(b, 0));
    assert forall|k: int| 0 <= 0 <= k < b.len() <= b.len() implies #[trigger]
    is_leading_byte_width_1(b[k]) by {
        assert(b[k] < 0x80);
    }
    partial_valid_utf8_extend_ascii_block(b, 0, b.len() as int);
    assert(b.subrange(0, b.len() as int) =~= b);
}

/// A text without CR LF, closed by CR LF, is the first line of what it
/// stands in front of.
pub proof fn lemma_line(text: Seq<u8>, rest: Seq<u8>)
    requires
        no_crlf(text),
    ensures
        spec_line(text + crlf() + rest) == Some((text, rest)),
{
    let b: Seq<u8> = text + crlf() + rest;
    let n: int = text.len() as int;
    assert(b[n] == CR && b[n + 1] == LF);
    assert forall|j: int| 0 <= j < n implies !crlf_at(b, j) by {
        if j + 1 < n {
            assert(!crlf_at(text, j));
            assert(b[j] == text[j] && b[j + 1] == text[j + 1]);
        } else {
            assert(b[j + 1] == CR);
        }
    }
    assert(first_crlf(b, n));
    lemma_first_crlf_unique(b, n);
    assert(b.take(n) =~= text);
    assert(b.skip(n + 2) =~= rest);
}

/// The line that holds the text of `i` reads as `i`.
pub proof fn lemma_read_i64_of_text(i: i64, rest: Seq<u8>)
    ensures
        spec_read_i64(spec_int_text(i as int) + crlf() + rest) == (Ok::<i64, ParseError>(i), rest),
{
    let text: Seq<u8> = spec_int_text(i as int);
    lemma_int_text_bytes(i as int);
    assert forall|k: int| 0 <= k < text.len() implies #[trigger] text[k] < 0x80 by {
        assert(is_digit(text[k]) || text[k] == MINUS);
    }
    assert forall|j: int| !crlf_at(text, j) by {
        if 0 <= j && j + 1 < text.len() {
            assert(is_digit(text[j]) || text[j] == MINUS);
        }
    }
    lemma_ascii_is_valid_utf8(text);
    lemma_line(text, rest);
    decode_utf8_encode_utf8(text);
    lemma_int_text_roundtrip(i);
}

/// Every value takes at least one byte.
pub proof fn lemma_ser_nonempty(v: Value)
    ensures
        spec_ser(v).len() >= 1,
{
}

/// Round trip of a simple string.
proof fn lemma_roundtrip_string(s: Seq<char>, rest: Seq<u8>, inline: bool)
    requires
        well_formed(Value::String(s)),
    ensures
        spec_parse(spec_ser(Value::String(s)) + rest, inline) == (
            Ok::<Option<Value>, ParseError>(Some(Value::String(s))),
            rest,
        ),
{
    let b: Seq<u8> = spec_ser(Value::String(s)) + rest;
    let text: Seq<u8> = encode_utf8(s);
    assert(b[0] == LEAD_STRING);
    assert(b.drop_first() =~= text + crlf() + rest);
    lemma_line(text, rest);
    encode_utf8_valid_utf8(s);
    encode_utf8_decode_utf8(s);
    assert(spec_read_until_crlf(b.drop_first()) == (Ok::<Seq<char>, ParseError>(s), rest));
}

/// Round trip of an error.
proof fn lemma_roundtrip_error(s: Seq<char>, rest: Seq<u8>, inline: bool)
    requires
        well_formed(Value::Error(s)),
    ensures
        spec_parse(spec_ser(Value::Error(s)) + rest, inline) == (
            Ok::<Option<Value>, ParseError>(Some(Value::Error(s))),
            rest,
        ),
{
    let b: Seq<u8> = spec_ser(Value::Error(s)) + rest;
    let text: Seq<u8> = encode_utf8(s);
    assert(b[0] == LEAD_ERROR);
    assert(b.drop_first() =~= text + crlf() + rest);
    lemma_line(text, rest);
    encode_utf8_valid_utf8(s);
    encode_utf8_decode_utf8(s);
    assert(spec_read_until_crlf(b.drop_first()) == (Ok::<Seq<char>, ParseError>(s), rest));
}

/// Round trip of an integer.
proof fn lemma_roundtrip_integer(i: i64, rest: Seq<u8>, inline: bool)
    ensures
        spec_parse(spec_ser(Value::Integer(i)) + rest, inline) == (
            Ok::<Option<Value>, ParseError>(Some(Value::Integer(i))),
            rest,
        ),
{
    let b: Seq<u8> = spec_ser(Value::Integer(i)) + rest;
    assert(b[0] == LEAD_INTEGER);
    assert(b.drop_first() =~= spec_int_text(i as int) + crlf() + rest);
    lemma_read_i64_of_text(i, rest);
}

/// Round trip of a bulk string.
proof fn lemma_roundtrip_bulk_string(s: Seq<char>, rest: Seq<u8>, inline: bool)
    requires
        well_formed(Value::BulkString(s)),
    ensures
        spec_parse(spec_ser(Value::BulkString(s)) + rest, inline) == (
            Ok::<Option<Value>, ParseError>(Some(Value::BulkString(s))),
            rest,
        ),
{
    let b: Seq<u8> = spec_ser(Value::BulkString(s)) + rest;
    let body: Seq<u8> = b.drop_first();
    let payload: Seq<u8> = encode_utf8(s);
    let n: i64 = payload.len() as i64;
    let after: Seq<u8> = payload + crlf() + rest;
    assert(b[0] == LEAD_BULK);
    assert(spec_int_text(n as int) == spec_nat_digits(payload.len()));
    assert(body =~= spec_int_text(n as int) + crlf() + after);
    lemma_read_i64_of_text(n, after);
    assert(spec_read_i64(body) == (Ok::<i64, ParseError>(n), after));
    assert(after.take(n as int) =~= payload);
    assert(after.skip(n as int) =~= crlf() + rest);
    encode_utf8_valid_utf8(s);
    encode_utf8_decode_utf8(s);
    assert(spec_read_exact(after, n as nat) == (Ok::<Seq<char>, ParseError>(s), crlf() + rest));
    assert((crlf() + rest).skip(2) =~= rest);
    assert(spec_read_crlf(crlf() + rest) == (Ok::<(), ParseError>(()), rest));
    assert(spec_parse_bulk_string(body) == (
        Ok::<Value, ParseError>(Value::BulkString(s)),
        rest,
    ));
}

/// The line that holds `-1` reads as the null marker.
proof fn lemma_read_null_marker(rest: Seq<u8>)
    ensures
        spec_read_i64(seq![45u8, 49u8, CR, LF] + rest) == (Ok::<i64, ParseError>(-1i64), rest),
{
    assert(spec_int_text(-1) =~= seq![45u8, 49u8]) by {
        assert(spec_nat_digits(1) =~= seq![49u8]);
    }
    assert(seq![45u8, 49u8, CR, LF] + rest =~= spec_int_text(-1) + crlf() + rest);
    lemma_read_i64_of_text(-1i64, rest);
}

/// Round trip of the null bulk string and of the null array.
proof fn lemma_roundtrip_null(rest: Seq<u8>, inline: bool)
    ensures
        spec_parse(spec_ser(Value::NullBulkString) + rest, inline) == (
            Ok::<Option<Value>, ParseError>(Some(Value::NullBulkString)),
            rest,
        ),
        spec_parse(spec_ser(Value::NullArray) + rest, inline) == (
            Ok::<Option<Value>, ParseError>(Some(Value::NullArray)),
            rest,
        ),
{
    lemma_read_null_marker(rest);
    let b: Seq<u8> = spec_ser(Value::NullBulkString) + rest;
    assert(b[0] == LEAD_BULK);
    assert(b.drop_first() =~= seq![45u8, 49u8, CR, LF] + rest);
    assert(spec_parse_bulk_string(b.drop_first()) == (
        Ok::<Value, ParseError>(Value::NullBulkString),
        rest,
    ));
    let a: Seq<u8> = spec_ser(Value::NullArray) + rest;
    assert(a[0] == LEAD_ARRAY);
    assert(a.drop_first() =~= seq![45u8, 49u8, CR, LF] + rest);
    assert(spec_parse_array(a.drop_first()) == (Ok::<Value, ParseError>(Value::NullArray), rest));
}

/// Round trip: the bytes of a well-formed value, whatever follows them,
/// read as that value, and what followed is left. It holds with inline
/// requests allowed and without.
pub proof fn lemma_roundtrip(v: Value, rest: Seq<u8>, inline: bool)
    requires
        well_formed(v),
    ensures
        spec_parse(spec_ser(v) + rest, inline) == (
            Ok::<Option<Value>, ParseError>(Some(v)),
            rest,
        ),
    decreases v,
{
    match v {
        Value::String(s) => {
            lemma_roundtrip_string(s, rest, inline);
        },
        Value::Error(s) => {
            lemma_roundtrip_error(s, rest, inline);
        },
        Value::Integer(i) => {
            lemma_roundtrip_integer(i, rest, inline);
        },
        Value::BulkString(s) => {
            lemma_roundtrip_bulk_string(s, rest, inline);
        },
        Value::Array(items) => {
            let b: Seq<u8> = spec_ser(v) + rest;
            let body: Seq<u8> = b.drop_first();
            let n: i64 = items.len() as i64;
            let after: Seq<u8> = spec_ser_all(items) + rest;
            assert(b[0] == LEAD_ARRAY);
            assert(spec_int_text(n as int) == spec_nat_digits(items.len()));
            assert(body =~= spec_int_text(n as int) + crlf() + after);
            lemma_read_i64_of_text(n, after);
            assert(spec_read_i64(body) == (Ok::<i64, ParseError>(n), after));
            lemma_roundtrip_all(items, rest);
            assert(spec_parse_array(body) == (Ok::<Value, ParseError>(v), rest));
        },
        Value::NullBulkString => {
            lemma_roundtrip_null(rest, inline);
        },
        Value::NullArray => {
            lemma_roundtrip_null(rest, inline);
        },
    }
}

/// Round trip of values in a row: the bytes of well-formed values, one after
/// the other, read as those values, as many as there are.
pub proof fn lemma_roundtrip_all(items: Seq<Value>, rest: Seq<u8>)
    requires
        forall|i: int| 0 <= i < items.len() ==> well_formed(#[trigger] items[i]),
    ensures
        spec_parse_items(spec_ser_all(items) + rest, items.len()) == (Some(items), rest),
    decreases items,
{
    if items.len() == 0 {
        assert(spec_ser_all(items) + rest =~= rest);
        assert(items =~= Seq::<Value>::empty());
    } else {
        let others: Seq<Value> = items.drop_first();
        let after: Seq<u8> = spec_ser_all(others) + rest;
        let b: Seq<u8> = spec_ser_all(items) + rest;
        assert(b =~= spec_ser(items[0]) + after);
        assert(well_formed(items[0]));
        lemma_roundtrip(items[0], after, false);
        lemma_ser_nonempty(items[0]);
        lemma_parse_rest(b, false);
        assert forall|i: int| 0 <= i < others.len() implies well_formed(#[trigger] others[i]) by {
            assert(others[i] == items[i + 1]);
        }
        lemma_roundtrip_all(others, rest);
        assert(seq![items[0]] + others =~= items);
    }
}

/// Array framing: an array that was read has exactly as many items as its
/// count line says. Where fewer can be read, the array is not read at all.
pub proof fn lemma_items_count(b: Seq<u8>, n: nat)
    ensures
        spec_parse_items(b, n).0 matches Some(items) ==> items.len() == n,
    decreases n,
{
    if n > 0 {
        match spec_parse(b, false) {
            (Ok(Some(first)), rest) => {
                if rest.len() < b.len() {
                    lemma_items_count(rest, (n - 1) as nat);
                }
            },
            _ => {},
        }
    }
}

/// Array framing, of a whole frame: what starts with the lead byte of an
/// array reads as the null array, as an array of exactly the announced
/// count, or not at all.
pub proof fn lemma_array_framing(b: Seq<u8>, inline: bool)
    requires
        b.len() > 0,
        b[0] == LEAD_ARRAY,
    ensures
        match spec_parse(b, inline).0 {
            Ok(Some(Value::Array(items))) => spec_read_i64(b.drop_first()).0 == Ok::<
                i64,
                ParseError,
            >(items.len() as i64),
            Ok(Some(Value::NullArray)) => spec_read_i64(b.drop_first()).0 == Ok::<i64, ParseError>(
                -1i64,
            ),
            Ok(_) => false,
            Err(_) => true,
        },
{
    match spec_read_i64(b.drop_first()) {
        (Ok(length), rest) => {
            if length != -1 && 0 <= length <= usize::MAX {
                lemma_items_count(rest, length as nat);
            }
        },
        _ => {},
    }
}

/// Bulk string framing: what starts with the lead byte of a bulk string
/// reads as the null bulk string where the length line says `-1` and only
/// there, as a bulk string of exactly the announced length in bytes, or not
/// at all.
pub proof fn lemma_bulk_string_framing(b: Seq<u8>, inline: bool)
    requires
        b.len() > 0,
        b[0] == LEAD_BULK,
    ensures
        match spec_parse(b, inline).0 {
            Ok(Some(Value::BulkString(s))) => spec_read_i64(b.drop_first()).0 == Ok::<
                i64,
                ParseError,
            >(encode_utf8(s).len() as i64),
            Ok(Some(Value::NullBulkString)) => spec_read_i64(b.drop_first()).0 == Ok::<
                i64,
                ParseError,
            >(-1i64),
            Ok(_) => false,
            Err(_) => true,
        },
{
    match spec_read_i64(b.drop_first()) {
        (Ok(length), rest) => {
            if length != -1 && 0 <= length <= usize::MAX && rest.len() >= length {
                let payload: Seq<u8> = rest.take(length as int);
                if valid_utf8(payload) {
                    decode_utf8_encode_utf8(payload);
                }
            }
        },
        _ => {},
    }
}

/// `SET` replies `OK` whether or not the key was there, and a `GET` of the
/// key that follows gives the value that was set.
pub proof fn lemma_set_then_get(
    contents: Map<Seq<char>, Seq<char>>,
    set_args: Seq<Value>,
    get_args: Seq<Value>,
    key: Seq<char>,
    value: Seq<char>,
)
    requires
        spec_arg(set_args, 1) == Some(key),
        spec_arg(set_args, 2) == Some(value),
        spec_arg(get_args, 1) == Some(key),
    ensures
        spec_set_reply(set_args) == Value::String("OK"@),
        spec_get(spec_set_contents(contents, set_args), get_args) == Value::BulkString(value),
{
}

/// Of two `SET`s of one key, the later one decides: the store is as if the
/// earlier one had not been.
pub proof fn lemma_last_set_wins(
    contents: Map<Seq<char>, Seq<char>>,
    first: Seq<Value>,
    second: Seq<Value>,
    key: Seq<char>,
    earlier: Seq<char>,
    later: Seq<char>,
)
    requires
        spec_arg(first, 1) == Some(key),
        spec_arg(first, 2) == Some(earlier),
        spec_arg(second, 1) == Some(key),
        spec_arg(second, 2) == Some(later),
    ensures
        spec_set_contents(spec_set_contents(contents, first), second) == spec_set_contents(
            contents,
            second,
        ),
        spec_set_contents(spec_set_contents(contents, first), second)[key] == later,
{
    assert(contents.insert(key, earlier).insert(key, later) =~= contents.insert(key, later));
}

/// `GET` of a key that is not there replies the null bulk string, and of a
/// key that is there its value.
pub proof fn lemma_get(contents: Map<Seq<char>, Seq<char>>, args: Seq<Value>, key: Seq<char>)
    requires
        spec_arg(args, 1) == Some(key),
    ensures
        !contents.contains_key(key) ==> spec_get(contents, args) == Value::NullBulkString,
        contents.contains_key(key) ==> spec_get(contents, args) == Value::BulkString(
            contents[key],
        ),
{
}

/// After `DEL` none of the named keys is left, and what was not named stays
/// as it was.
pub proof fn lemma_del(contents: Map<Seq<char>, Seq<char>>, args: Seq<Value>)
    ensures
        forall|key: Seq<char>|
            spec_del_keys(args).contains(key) ==> !(#[trigger] spec_del_contents(
                contents,
                args,
            ).contains_key(key)),
        forall|key: Seq<char>|
            !spec_del_keys(args).contains(key) && contents.contains_key(key) ==> (
            #[trigger] spec_del_contents(contents, args).contains_key(key)) && spec_del_contents(
                contents,
                args,
            )[key] == contents[key],
{
}

/// A key that the store does not hold adds nothing to what `DEL` counts.
pub proof fn lemma_del_absent_key(
    contents: Map<Seq<char>, Seq<char>>,
    keys: Set<Seq<char>>,
    key: Seq<char>,
)
    requires
        !contents.contains_key(key),
    ensures
        present_count(contents, keys.insert(key)) == present_count(contents, keys),
{
    assert(contents.dom().intersect(keys.insert(key)) =~= contents.dom().intersect(keys));
}

/// A command that is not known gets an error for a reply and changes
/// nothing, and the requests after it are served as if it had not come.
pub proof fn lemma_unknown_command(
    contents: Map<Seq<char>, Seq<char>>,
    args: Seq<Value>,
    others: Seq<Seq<Value>>,
)
    requires
        spec_arg(args, 0) matches Some(name) && spec_command(name) == Command::Unknown,
    ensures
        spec_run(contents, args) == (spec_ser(unknown_command()), contents),
        spec_run_all(contents, seq![args] + others) == (
            spec_ser(unknown_command()) + spec_run_all(contents, others).0,
            spec_run_all(contents, others).1,
        ),
{
    let all: Seq<Seq<Value>> = seq![args] + others;
    assert(all[0] == args);
    assert(all.drop_first() =~= others);
}

/// Replies come in the order of the requests: running the requests `a` and
/// then the requests `b` replies what `a` replies and then what `b` replies
/// on the store that `a` left.
pub proof fn lemma_run_all_concat(
    contents: Map<Seq<char>, Seq<char>>,
    a: Seq<Seq<Value>>,
    b: Seq<Seq<Value>>,
)
    ensures
        spec_run_all(contents, a + b) == ({
            let first = spec_run_all(contents, a);
            let second = spec_run_all(first.1, b);
            (first.0 + second.0, second.1)
        }),
    decreases a.len(),
{
    if a.len() == 0 {
        assert(a + b =~= b);
        assert(Seq::<u8>::empty() + spec_run_all(contents, b).0 =~= spec_run_all(contents, b).0);
    } else {
        let step = spec_run(contents, a[0]);
        assert((a + b)[0] == a[0]);
        assert((a + b).drop_first() =~= a.drop_first() + b);
        lemma_run_all_concat(step.1, a.drop_first(), b);
        let first = spec_run_all(contents, a);
        let second = spec_run_all(first.1, b);
        let tail = spec_run_all(step.1, a.drop_first());
        assert(step.0 + (tail.0 + second.0) =~= (step.0 + tail.0) + second.0);
    }
}

/// Requests come in the order of the frames: the requests of the frames `a`
/// followed by the frames `b` are those of `a` and then those of `b`.
pub proof fn lemma_requests_all_concat(a: Seq<Value>, b: Seq<Value>)
    ensures
        spec_requests_all(a + b) == spec_requests_all(a) + spec_requests_all(b),
    decreases a.len(),
{
    if a.len() == 0 {
        assert(a + b =~= b);
        assert(spec_requests_all(a) + spec_requests_all(b) =~= spec_requests_all(b));
    } else {
        assert((a + b)[0] == a[0]);
        assert((a + b).drop_first() =~= a.drop_first() + b);
        lemma_requests_all_concat(a.drop_first(), b);
        assert(spec_requests_of(a[0]) + (spec_requests_all(a.drop_first()) + spec_requests_all(b))
            =~= (spec_requests_of(a[0]) + spec_requests_all(a.drop_first())) + spec_requests_all(
            b,
        ));
    }
}

/// The words of a line are not empty and hold no space.
pub proof fn lemma_words(s: Seq<u8>)
    ensures
        forall|k: int| 0 <= k < spec_words(s).len() ==> is_word(#[trigger] spec_words(s)[k]),
    decreases s.len(),
{
    if s.len() == 0 {
        assert(spec_words(s).len() == 0);
    } else if s[0] == SPACE {
        lemma_words(s.drop_first());
        assert(spec_words(s) == spec_words(s.drop_first()));
    } else {
        let n: int = word_len(s) as int;
        lemma_word_len_bounds(s);
        lemma_words(s.skip(n));
        let first: Seq<u8> = s.take(n);
        let others: Seq<Seq<u8>> = spec_words(s.skip(n));
        assert(spec_words(s) == seq![first] + others);
        assert(is_word(first));
        assert forall|k: int| 0 <= k < spec_words(s).len() implies is_word(
            #[trigger] spec_words(s)[k],
        ) by {
            if k > 0 {
                assert(spec_words(s)[k] == others[k - 1]);
            }
        }
    }
}

/// A word in front of a space and more is the first word of the line, and
/// the words of what follows the space come after it. A word alone is the
/// only word of its line.
pub proof fn lemma_words_cons(word: Seq<u8>, rest: Seq<u8>)
    requires
        is_word(word),
    ensures
        spec_words(word + seq![SPACE] + rest) == seq![word] + spec_words(rest),
        spec_words(word) == seq![word],
{
    let n: int = word.len() as int;
    let s: Seq<u8> = word + seq![SPACE] + rest;
    assert forall|j: int| 0 <= j < n implies #[trigger] s[j] != SPACE by {
        assert(s[j] == word[j]);
    }
    assert(s[n] == SPACE);
    lemma_word_len_is(s, n);
    assert(s.take(n) =~= word);
    let tail: Seq<u8> = s.skip(n);
    assert(tail =~= seq![SPACE] + rest);
    assert(tail.drop_first() =~= rest);
    assert(spec_words(tail) == spec_words(rest));
    assert(spec_words(s) == seq![s.take(n)] + spec_words(tail));
    lemma_word_len_is(word, n);
    assert(word.take(n) =~= word);
    assert(word.skip(n) =~= Seq::<u8>::empty());
    assert(spec_words(word.skip(n)) =~= Seq::<Seq<u8>>::empty());
    assert(spec_words(word) == seq![word.take(n)] + spec_words(word.skip(n)));
    assert(seq![word] + Seq::<Seq<u8>>::empty() =~= seq![word]);
}

/// Splitting gives back what was joined: the words of the line that holds
/// `words` with single spaces between them are `words`.
pub proof fn lemma_words_of_joined(words: Seq<Seq<u8>>)
    requires
        forall|k: int| 0 <= k < words.len() ==> is_word(#[trigger] words[k]),
    ensures
        spec_words(join_words(words)) == words,
    decreases words.len(),
{
    if words.len() == 0 {
        assert(spec_words(join_words(words)) =~= words);
    } else if words.len() == 1 {
        lemma_words_cons(words[0], Seq::empty());
        assert(seq![words[0]] =~= words);
    } else {
        let others: Seq<Seq<u8>> = words.drop_first();
        assert forall|k: int| 0 <= k < others.len() implies is_word(#[trigger] others[k]) by {
            assert(others[k] == words[k + 1]);
        }
        lemma_words_of_joined(others);
        lemma_words_cons(words[0], join_words(others));
        assert(seq![words[0]] + others =~= words);
    }
}

/// The line that holds words without CR and LF, and is made of valid UTF-8
/// where they are, holds no CR LF and is valid UTF-8.
pub proof fn lemma_joined_line(words: Seq<Seq<u8>>)
    requires
        forall|k: int|
            0 <= k < words.len() ==> valid_utf8(#[trigger] words[k]) && forall|i: int|
                0 <= i < words[k].len() ==> words[k][i] != CR && words[k][i] != LF,
    ensures
        valid_utf8(join_words(words)),
        forall|i: int|
            0 <= i < join_words(words).len() ==> join_words(words)[i] != CR && join_words(
                words,
            )[i] != LF,
        no_crlf(join_words(words)),
    decreases words.len(),
{
    let line: Seq<u8> = join_words(words);
    if words.len() == 0 {
    } else if words.len() == 1 {
        assert(valid_utf8(words[0]));
    } else {
        let others: Seq<Seq<u8>> = words.drop_first();
        assert forall|k: int| 0 <= k < others.len() implies valid_utf8(#[trigger] others[k])
            && forall|i: int|
            0 <= i < others[k].len() ==> others[k][i] != CR && others[k][i] != LF by {
            assert(others[k] == words[k + 1]);
        }
        lemma_joined_line(others);
        let space: Seq<u8> = seq![SPACE];
        assert(valid_utf8(space)) by {
            assert forall|k: int| 0 <= k < space.len() implies #[trigger] space[k] < 0x80 by {}
            lemma_ascii_is_valid_utf8(space);
        }
        assert(valid_utf8(words[0]));
        valid_utf8_concat(words[0], space);
        valid_utf8_concat(words[0] + space, join_words(others));
        assert forall|i: int| 0 <= i < line.len() implies line[i] != CR && line[i] != LF by {
            let n: int = words[0].len() as int;
            if i < n {
                assert(line[i] == words[0][i]);
            } else if i == n {
                assert(line[i] == SPACE);
            } else {
                assert(line[i] == join_words(others)[i - n - 1]);
            }
        }
    }
    assert forall|j: int| !crlf_at(line, j) by {
        if 0 <= j && j + 1 < line.len() {
            assert(line[j] != CR);
        }
    }
}

/// The bytes of a text in ASCII are its characters, one byte each.
pub proof fn lemma_ascii_text(text: Seq<char>, bytes: Seq<u8>)
    requires
        is_ascii_chars(text),
        bytes.len() == text.len(),
        forall|i: int| 0 <= i < text.len() ==> bytes[i] == text[i] as u8,
    ensures
        encode_utf8(text) == bytes,
        valid_utf8(bytes),
        decode_utf8(bytes) == text,
{
    is_ascii_chars_encode_utf8(text);
    assert(encode_utf8(text) =~= bytes);
    encode_utf8_valid_utf8(text);
    encode_utf8_decode_utf8(text);
}

/// The bytes of the name `SET`.
pub open spec fn set_name() -> Seq<u8> {
    seq![83u8, 69u8, 84u8]
}

/// The bytes of the name `GET`.
pub open spec fn get_name() -> Seq<u8> {
    seq![71u8, 69u8, 84u8]
}

/// A word that starts with a letter reads as no integer.
proof fn lemma_name_is_no_integer(word: Seq<u8>)
    requires
        word.len() > 0,
        65 <= word[0] <= 90,
    ensures
        spec_parse_i64(word) is None,
{
    assert(!is_digit(word[0]));
}

/// Pipelined inline requests: `SET key value` and `GET key`, each on its
/// line and sent together, are answered with `OK` and then with the value,
/// in that order, and the store holds the value under the key. This is for
/// keys and values that are words without CR and LF and do not read as
/// integers: a word that reads as an integer becomes an integer, which is no
/// argument of `SET`.
pub proof fn lemma_pipelined_set_then_get(
    contents: Map<Seq<char>, Seq<char>>,
    key: Seq<char>,
    value: Seq<char>,
)
    requires
        is_word(encode_utf8(key)),
        is_word(encode_utf8(value)),
        forall|i: int|
            0 <= i < encode_utf8(key).len() ==> encode_utf8(key)[i] != CR && encode_utf8(key)[i]
                != LF,
        forall|i: int|
            0 <= i < encode_utf8(value).len() ==> encode_utf8(value)[i] != CR && encode_utf8(
                value,
            )[i] != LF,
        spec_parse_i64(encode_utf8(key)) is None,
        spec_parse_i64(encode_utf8(value)) is None,
    ensures
        ({
            let input = join_words(seq![set_name(), encode_utf8(key), encode_utf8(value)])
                + crlf() + join_words(seq![get_name(), encode_utf8(key)]) + crlf();
            &&& spec_run_all(contents, spec_requests_all(spec_frames(input).0)) == (
                spec_ser(Value::String("OK"@)) + spec_ser(Value::BulkString(value)),
                contents.insert(key, value),
            )
            &&& spec_next_state(input) == ConnectionState::AwaitingFrame
        }),
{
    let k: Seq<u8> = encode_utf8(key);
    let v: Seq<u8> = encode_utf8(value);
    let set_words: Seq<Seq<u8>> = seq![set_name(), k, v];
    let get_words: Seq<Seq<u8>> = seq![get_name(), k];
    let set_line: Seq<u8> = join_words(set_words);
    let get_line: Seq<u8> = join_words(get_words);
    let second: Seq<u8> = get_line + crlf() + Seq::<u8>::empty();
    let input: Seq<u8> = set_line + crlf() + get_line + crlf();
    assert(input =~= set_line + crlf() + second);
    assert(second =~= get_line + crlf());

    // The names as text.
    reveal_strlit("SET");
    reveal_strlit("GET");
    reveal_strlit("PING");
    reveal_strlit("DEL");
    assert(is_ascii_chars("SET"@));
    assert(is_ascii_chars("GET"@));
    lemma_ascii_text("SET"@, set_name());
    lemma_ascii_text("GET"@, get_name());
    assert("SET"@ != "PING"@) by {
        assert("SET"@.len() != "PING"@.len());
    }
    assert("GET"@ != "PING"@) by {
        assert("GET"@.len() != "PING"@.len());
    }
    assert("GET"@ != "SET"@) by {
        assert("GET"@[0] != "SET"@[0]);
    }
    lemma_name_is_no_integer(set_name());
    lemma_name_is_no_integer(get_name());
    encode_utf8_valid_utf8(key);
    encode_utf8_valid_utf8(value);
    encode_utf8_decode_utf8(key);
    encode_utf8_decode_utf8(value);
    assert(is_word(set_name()));
    assert(is_word(get_name()));

    // The two lines and their words.
    lemma_words_of_joined(set_words);
    lemma_words_of_joined(get_words);
    lemma_joined_line(set_words);
    lemma_joined_line(get_words);
    assert(set_line[0] == 83u8) by {
        assert(set_words.drop_first().len() == 2);
        assert(set_line == set_words[0] + seq![SPACE] + join_words(set_words.drop_first()));
    }
    assert(get_line[0] == 71u8) by {
        assert(get_words.drop_first().len() == 1);
        assert(get_line == get_words[0] + seq![SPACE] + join_words(get_words.drop_first()));
    }

    // The frames.
    lemma_frames_of_inline(set_line, second);
    lemma_frames_of_inline(get_line, Seq::<u8>::empty());
    let set_args: Seq<Value> = spec_word_values(set_words);
    let get_args: Seq<Value> = spec_word_values(get_words);
    assert(spec_frames(Seq::<u8>::empty()) == (Seq::<Value>::empty(), false));
    let frames: Seq<Value> = seq![Value::Array(set_args), Value::Array(get_args)];
    assert(spec_frames(input).0 =~= frames);
    assert(!spec_frames(input).1);
    assert(input.len() > 0);

    // The requests.
    assert(set_args[0] == Value::String("SET"@));
    assert(set_args[1] == Value::String(key));
    assert(set_args[2] == Value::String(value));
    assert(get_args[0] == Value::String("GET"@));
    assert(get_args[1] == Value::String(key));
    assert(spec_requests_of(frames[0]) == seq![set_args]);
    assert(spec_requests_of(frames[1]) == seq![get_args]);
    assert(frames.drop_first() =~= seq![frames[1]]);
    assert(frames.drop_first().drop_first() =~= Seq::<Value>::empty());
    assert(spec_requests_all(frames.drop_first().drop_first()) =~= Seq::<Seq<Value>>::empty());
    assert(spec_requests_all(frames.drop_first()) =~= seq![get_args]);
    let requests: Seq<Seq<Value>> = seq![set_args, get_args];
    assert(spec_requests_all(frames) =~= requests);

    // The replies.
    let after: Map<Seq<char>, Seq<char>> = contents.insert(key, value);
    assert(spec_run(contents, set_args) == (spec_ser(Value::String("OK"@)), after));
    assert(spec_run(after, get_args) == (spec_ser(Value::BulkString(value)), after));
    assert(requests.drop_first() =~= seq![get_args]);
    assert(requests.drop_first().drop_first() =~= Seq::<Seq<Value>>::empty());
    assert(spec_run_all(after, requests.drop_first().drop_first()) == (
        Seq::<u8>::empty(),
        after,
    ));
    assert(spec_run_all(after, requests.drop_first()).0 =~= spec_ser(Value::BulkString(value)));
    assert(spec_run_all(contents, requests).0 =~= spec_ser(Value::String("OK"@)) + spec_ser(
        Value::BulkString(value),
    ));
}

/// Pipelining: where the bytes of a well-formed value stand in front of
/// other bytes, the frames are that value and then the frames of the rest.
pub proof fn lemma_frames_of_value(v: Value, rest: Seq<u8>)
    requires
        well_formed(v),
    ensures
        spec_frames(spec_ser(v) + rest) == (seq![v] + spec_frames(rest).0, spec_frames(rest).1),
{
    lemma_roundtrip(v, rest, true);
    lemma_ser_nonempty(v);
}

/// Pipelining of inline requests: a line of valid UTF-8 that starts with no
/// lead byte and holds no CR LF, closed by CR LF, is one frame, the array
/// of its words, and the frames of the rest follow it.
pub proof fn lemma_frames_of_inline(line: Seq<u8>, rest: Seq<u8>)
    requires
        line.len() > 0,
        line[0] != LEAD_STRING && line[0] != LEAD_ERROR && line[0] != LEAD_INTEGER && line[0]
            != LEAD_ARRAY && line[0] != LEAD_BULK,
        no_crlf(line),
        valid_utf8(line),
    ensures
        spec_frames(line + crlf() + rest) == (
            seq![Value::Array(spec_word_values(spec_words(line)))] + spec_frames(rest).0,
            spec_frames(rest).1,
        ),
{
    let b: Seq<u8> = line + crlf() + rest;
    let tail: Seq<u8> = line.drop_first();
    assert(b[0] == line[0]);
    assert(b.drop_first() =~= tail + crlf() + rest);
    assert forall|j: int| !crlf_at(tail, j) by {
        if crlf_at(tail, j) {
            assert(crlf_at(line, j + 1));
        }
    }
    lemma_line(tail, rest);
    assert(seq![b[0]] + tail =~= line);
    assert(spec_inline_line(b) == (line, rest));
    assert(spec_parse_pipeline(b) == (
        Ok::<Value, ParseError>(Value::Array(spec_word_values(spec_words(line)))),
        rest,
    ));
}

} // verus!
