//! The commands: each takes a request, the words of one command, and gives
//! the bytes of the reply.
use crate::resp::{
    lemma_views, ser_bulk_string, ser_error, ser_int, ser_null_bulk_string, ser_string, views,
    Data,
};
use crate::store::{as_count, key_views, present_count, Store};
use crate::wire::{spec_ser, Value};
use vstd::prelude::*;

verus! {

/// The text of the word at `index`, where there is one and it is a simple
/// or a bulk string.
pub open spec fn spec_arg(args: Seq<Value>, index: int) -> Option<Seq<char>> {
    if 0 <= index < args.len() {
        match args[index] {
            Value::String(text) => Some(text),
            Value::BulkString(text) => Some(text),
            _ => None,
        }
    } else {
        None
    }
}

/// The reply to a request that lacks its key.
pub open spec fn no_key() -> Value {
    Value::Error("No key provided"@)
}

/// The reply to a `SET` that lacks its value.
pub open spec fn no_value() -> Value {
    Value::Error("No value provided"@)
}

/// The reply to `GET`: the value under the key as a bulk string, the null
/// bulk string where the key is not there.
pub open spec fn spec_get(contents: Map<Seq<char>, Seq<char>>, args: Seq<Value>) -> Value {
    match spec_arg(args, 1) {
        Some(key) => if contents.contains_key(key) {
            Value::BulkString(contents[key])
        } else {
            Value::NullBulkString
        },
        None => no_key(),
    }
}

/// The reply to `SET`.
pub open spec fn spec_set_reply(args: Seq<Value>) -> Value {
    if spec_arg(args, 1) is None {
        no_key()
    } else if spec_arg(args, 2) is None {
        no_value()
    } else {
        Value::String("OK"@)
    }
}

/// What the store holds after `SET`: the value under the key where both
/// were given, else what it held.
pub open spec fn spec_set_contents(
    contents: Map<Seq<char>, Seq<char>>,
    args: Seq<Value>,
) -> Map<Seq<char>, Seq<char>> {
    match (spec_arg(args, 1), spec_arg(args, 2)) {
        (Some(key), Some(value)) => contents.insert(key, value),
        _ => contents,
    }
}

/// The keys that the words before `end` name, the command's own name left
/// out. Words that are no strings name none.
pub open spec fn spec_keys_before(args: Seq<Value>, end: int) -> Set<Seq<char>> {
    Set::new(|key: Seq<char>| exists|i: int| 1 <= i < end && spec_arg(args, i) == Some(key))
}

/// The keys that a `DEL` names.
pub open spec fn spec_del_keys(args: Seq<Value>) -> Set<Seq<char>> {
    spec_keys_before(args, args.len() as int)
}

/// The reply to `DEL`: how many of the keys it names were there.
pub open spec fn spec_del_reply(contents: Map<Seq<char>, Seq<char>>, args: Seq<Value>) -> Value {
    Value::Integer(as_count(present_count(contents, spec_del_keys(args))))
}

/// What the store holds after `DEL`.
pub open spec fn spec_del_contents(
    contents: Map<Seq<char>, Seq<char>>,
    args: Seq<Value>,
) -> Map<Seq<char>, Seq<char>> {
    contents.remove_keys(spec_del_keys(args))
}

/// The word at `index`, where it is a string.
pub fn get_arg(args: &Vec<Data>, index: usize) -> (res: Option<String>)
    ensures
        match res {
            Some(text) => spec_arg(views(args@), index as int) == Some(text@),
            None => spec_arg(views(args@), index as int) is None,
        },
{
    proof {
        lemma_views(args@);
    }
    if index < args.len() {
        match &args[index] {
            Data::String(text) => Some(text.clone()),
            Data::BulkString(text) => Some(text.clone()),
            _ => None,
        }
    } else {
        None
    }
}

/// `GET key`.
pub fn get<S: Store + ?Sized>(store: &S, args: &Vec<Data>) -> (out: Vec<u8>)
    ensures
        out@ == spec_ser(spec_get(store.contents(), views(args@))),
{
    if let Some(key) = get_arg(args, 1) {
        let data: Option<&String> = store.get(key.as_str());
        if let Some(data) = data {
            return ser_bulk_string(data.as_str());
        }
        return ser_null_bulk_string();
    }
    ser_error("No key provided")
}

/// `SET key value`.
pub fn set<S: Store + ?Sized>(store: &mut S, args: &Vec<Data>) -> (out: Vec<u8>)
    ensures
        out@ == spec_ser(spec_set_reply(views(args@))),
        final(store).contents() == spec_set_contents(old(store).contents(), views(args@)),
{
    if let Some(key) = get_arg(args, 1) {
        if let Some(value) = get_arg(args, 2) {
            store.set(key.as_str(), value);
            return ser_string("OK");
        }
        return ser_error("No value provided");
    }
    ser_error("No key provided")
}

/// `DEL key ...`.
pub fn del<S: Store + ?Sized>(store: &mut S, args: &Vec<Data>) -> (out: Vec<u8>)
    ensures
        out@ == spec_ser(spec_del_reply(old(store).contents(), views(args@))),
        final(store).contents() == spec_del_contents(old(store).contents(), views(args@)),
{
    let ghost words: Seq<Value> = views(args@);
    let mut keys: Vec<&String> = Vec::new();
    let mut i: usize = 1;
    proof {
        lemma_views(args@);
        assert(key_views(keys@).to_set() =~= spec_keys_before(words, 1));
    }
    while i < args.len()
        invariant
            1 <= i,
            words == views(args@),
            words.len() == args@.len(),
            key_views(keys@).to_set() == spec_keys_before(words, i as int),
        decreases args.len() - i,
    {
        let ghost before: Seq<Seq<char>> = key_views(keys@);
        proof {
            lemma_views(args@);
        }
        match &args[i] {
            Data::String(text) => {
                keys.push(text);
            },
            Data::BulkString(text) => {
                keys.push(text);
            },
            _ => {},
        }
        proof {
            let after: Seq<Seq<char>> = key_views(keys@);
            assert forall|key: Seq<char>| after.to_set().contains(key) <==> spec_keys_before(
                words,
                i + 1,
            ).contains(key) by {
                if after.contains(key) {
                    let j: int = choose|j: int| 0 <= j < after.len() && after[j] == key;
                    if j < before.len() {
                        assert(before[j] == key);
                        assert(before.to_set().contains(key));
                    } else {
                        assert(spec_arg(words, i as int) == Some(key));
                    }
                }
                if spec_keys_before(words, i + 1).contains(key) {
                    let j: int = choose|j: int| 1 <= j < i + 1 && spec_arg(words, j) == Some(key);
                    if j < i {
                        assert(spec_keys_before(words, i as int).contains(key));
                        assert(before.contains(key));
                        let k: int = choose|k: int| 0 <= k < before.len() && before[k] == key;
                        assert(after[k] == key);
                    } else {
                        assert(after[after.len() - 1] == key);
                    }
                }
            }
            assert(after.to_set() =~= spec_keys_before(words, i + 1));
        }
        i += 1;
    }
    proof {
        assert(spec_keys_before(words, i as int) =~= spec_del_keys(words));
    }
    let deleted_lines: i64 = store.del(keys.as_slice());
    ser_int(deleted_lines)
}

/// `PING`.
pub fn ping() -> (out: Vec<u8>)
    ensures
        out@ == spec_ser(Value::String("PONG"@)),
{
    ser_string("PONG")
}

} // verus!
