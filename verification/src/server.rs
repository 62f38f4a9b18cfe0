//! Serving a connection: which commands the received bytes hold, and what
//! running them replies and leaves in the store.
use crate::commands::{
    del, get, get_arg, ping, spec_arg, spec_del_contents, spec_del_reply, spec_get,
    spec_set_contents, spec_set_reply,
};
use crate::cursor::ByteCursor;
use crate::resp::{lemma_views, parse, ser_error, views, Data};
use crate::store::Store;
use crate::text::same_text;
use crate::wire::{lemma_parse_rest, spec_parse, spec_ser, Value};
use vstd::prelude::*;

verus! {

/// What a request asks for, by its first word.
#[derive(Debug, Clone, Copy, PartialEq, Eq)]
pub enum Command {
    /// `PING`.
    Ping,
    /// `GET`.
    GetKey,
    /// `SET`.
    SetKey,
    /// `DEL`.
    DelKeys,
    /// Any other name.
    Unknown,
}

/// Where a connection stands once the bytes it received have been served.
#[derive(Debug, Clone, Copy, PartialEq, Eq)]
pub enum ConnectionState {
    /// All that came was served; the next bytes start a new frame.
    AwaitingFrame,
    /// The peer is gone, or sent what cannot be decoded.
    Closed,
}

/// The command that goes by `name`. Names are matched as they are written,
/// in upper case.
pub open spec fn spec_command(name: Seq<char>) -> Command {
    if name == "PING"@ {
        Command::Ping
    } else if name == "SET"@ {
        Command::SetKey
    } else if name == "GET"@ {
        Command::GetKey
    } else if name == "DEL"@ {
        Command::DelKeys
    } else {
        Command::Unknown
    }
}

/// The reply to a command that is not known.
pub open spec fn unknown_command() -> Value {
    Value::Error("Unknown command"@)
}

/// Running one request: the bytes of the reply, and what the store holds
/// afterwards. A request whose first word is no string is no command: it
/// gets no reply and changes nothing.
pub open spec fn spec_run(contents: Map<Seq<char>, Seq<char>>, args: Seq<Value>) -> (
    Seq<u8>,
    Map<Seq<char>, Seq<char>>,
) {
    match spec_arg(args, 0) {
        None => (Seq::empty(), contents),
        Some(name) => match spec_command(name) {
            Command::Ping => (spec_ser(Value::String("PONG"@)), contents),
            Command::GetKey => (spec_ser(spec_get(contents, args)), contents),
            Command::SetKey => (spec_ser(spec_set_reply(args)), spec_set_contents(contents, args)),
            Command::DelKeys => (
                spec_ser(spec_del_reply(contents, args)),
                spec_del_contents(contents, args),
            ),
            Command::Unknown => (spec_ser(unknown_command()), contents),
        },
    }
}

/// Running requests one after the other: the replies in the order of the
/// requests, and what the store holds at the end.
pub open spec fn spec_run_all(contents: Map<Seq<char>, Seq<char>>, requests: Seq<Seq<Value>>) -> (
    Seq<u8>,
    Map<Seq<char>, Seq<char>>,
)
    decreases requests.len(),
{
    if requests.len() == 0 {
        (Seq::empty(), contents)
    } else {
        let first = spec_run(contents, requests[0]);
        let others = spec_run_all(first.1, requests.drop_first());
        (first.0 + others.0, others.1)
    }
}

/// The requests that a frame carries, in order. An array whose first word is
/// a string is one request. Any other array is a batch: each array among its
/// items carries requests in turn, and its other items carry none. A frame
/// that is no array carries none.
pub open spec fn spec_requests_of(frame: Value) -> Seq<Seq<Value>>
    decreases frame,
{
    match frame {
        Value::Array(items) => if spec_arg(items, 0) is Some {
            seq![items]
        } else {
            spec_requests_all(items)
        },
        _ => Seq::empty(),
    }
}

/// The requests that several frames carry, frame after frame.
pub open spec fn spec_requests_all(frames: Seq<Value>) -> Seq<Seq<Value>>
    decreases frames,
{
    if frames.len() == 0 {
        Seq::empty()
    } else {
        spec_requests_of(frames[0]) + spec_requests_all(frames.drop_first())
    }
}

/// The frames that `b` holds, each read where the one before it ended and
/// with inline requests allowed, and whether reading ended on bytes that
/// cannot be decoded.
pub open spec fn spec_frames(b: Seq<u8>) -> (Seq<Value>, bool)
    decreases b.len(),
    via spec_frames_decreases
{
    match spec_parse(b, true) {
        (Ok(Some(frame)), rest) => {
            let others = spec_frames(rest);
            (seq![frame] + others.0, others.1)
        },
        (Ok(None), rest) => (Seq::empty(), false),
        (Err(e), rest) => (Seq::empty(), true),
    }
}

#[via_fn]
proof fn spec_frames_decreases(b: Seq<u8>) {
    lemma_parse_rest(b, true);
}

/// Where a connection stands after `b` was received: closed where nothing
/// came at all or decoding failed, else ready for the next frame.
pub open spec fn spec_next_state(b: Seq<u8>) -> ConnectionState {
    if b.len() == 0 || spec_frames(b).1 {
        ConnectionState::Closed
    } else {
        ConnectionState::AwaitingFrame
    }
}

/// The views of a list of borrowed requests.
pub open spec fn request_views(requests: Seq<&Vec<Data>>) -> Seq<Seq<Value>> {
    Seq::new(requests.len(), |i: int| views(requests[i]@))
}

/// The command that goes by `name`.
pub fn command_of(name: &str) -> (command: Command)
    ensures
        command == spec_command(name@),
{
    if same_text(name, "PING") {
        Command::Ping
    } else if same_text(name, "SET") {
        Command::SetKey
    } else if same_text(name, "GET") {
        Command::GetKey
    } else if same_text(name, "DEL") {
        Command::DelKeys
    } else {
        Command::Unknown
    }
}

/// Runs one request against `store` and gives the bytes of the reply.
pub fn execute<S: Store + ?Sized>(store: &mut S, args: &Vec<Data>) -> (out: Vec<u8>)
    ensures
        out@ == spec_run(old(store).contents(), views(args@)).0,
        final(store).contents() == spec_run(old(store).contents(), views(args@)).1,
{
    match get_arg(args, 0) {
        None => Vec::new(),
        Some(cmd) => match command_of(cmd.as_str()) {
            Command::Ping => ping(),
            Command::SetKey => crate::commands::set(store, args),
            Command::GetKey => get(store, args),
            Command::DelKeys => del(store, args),
            Command::Unknown => ser_error("Unknown command"),
        },
    }
}

/// Adds to `out` the requests that the array `items` carries.
fn collect_requests<'a>(items: &'a Vec<Data>, out: &mut Vec<&'a Vec<Data>>)
    ensures
        request_views(final(out)@) == request_views(old(out)@) + spec_requests_of(
            Value::Array(views(items@)),
        ),
    decreases items,
{
    let ghost all: Seq<Value> = views(items@);
    let ghost start: Seq<Seq<Value>> = request_views(out@);
    proof {
        lemma_views(items@);
    }
    if get_arg(items, 0).is_some() {
        out.push(items);
        assert(request_views(out@) =~= start + seq![all]);
        return ;
    }
    let mut i: usize = 0;
    assert(all.skip(0) =~= all);
    while i < items.len()
        invariant
            i <= items.len(),
            all == views(items@),
            all.len() == items@.len(),
            start == request_views(old(out)@),
            request_views(out@) + spec_requests_all(all.skip(i as int)) == start
                + spec_requests_all(all),
        decreases items.len() - i,
    {
        let ghost before: Seq<Seq<Value>> = request_views(out@);
        proof {
            lemma_views(items@);
            assert(all.skip(i as int).drop_first() =~= all.skip(i + 1));
            assert(all.skip(i as int)[0] == items@[i as int]@);
            vstd::std_specs::vec::axiom_vec_index_decreases(*items, i as int);
        }
        match &items[i] {
            Data::Array(inner) => {
                collect_requests(inner, out);
            },
            _ => {},
        }
        proof {
            let found: Seq<Seq<Value>> = spec_requests_of(items@[i as int]@);
            assert(request_views(out@) =~= before + found);
            assert((before + found) + spec_requests_all(all.skip(i + 1)) =~= before + (found
                + spec_requests_all(all.skip(i + 1))));
        }
        i += 1;
    }
    proof {
        assert(spec_requests_all(all.skip(i as int)) =~= Seq::<Seq<Value>>::empty());
        assert(request_views(out@) + Seq::<Seq<Value>>::empty() =~= request_views(out@));
    }
}

/// The requests that `frame` carries, in order.
pub fn requests<'a>(frame: &'a Data) -> (out: Vec<&'a Vec<Data>>)
    ensures
        request_views(out@) == spec_requests_of(frame@),
{
    let mut out: Vec<&'a Vec<Data>> = Vec::new();
    assert(request_views(out@) =~= Seq::<Seq<Value>>::empty());
    match frame {
        Data::Array(items) => {
            collect_requests(items, &mut out);
            assert(Seq::<Seq<Value>>::empty() + spec_requests_of(frame@) =~= spec_requests_of(
                frame@,
            ));
        },
        _ => {},
    }
    out
}

/// Runs `requests` in order and adds the replies to `acc`.
fn run_requests<S: Store + ?Sized>(requests: &Vec<&Vec<Data>>, store: &mut S, acc: &mut Vec<u8>)
    ensures
        final(acc)@ == old(acc)@ + spec_run_all(
            old(store).contents(),
            request_views(requests@),
        ).0,
        final(store).contents() == spec_run_all(
            old(store).contents(),
            request_views(requests@),
        ).1,
{
    let ghost all: Seq<Seq<Value>> = request_views(requests@);
    let ghost total = spec_run_all(store.contents(), all);
    let mut i: usize = 0;
    proof {
        assert(all.skip(0) =~= all);
    }
    while i < requests.len()
        invariant
            i <= requests.len(),
            all == request_views(requests@),
            total == spec_run_all(old(store).contents(), all),
            acc@ + spec_run_all(store.contents(), all.skip(i as int)).0 == old(acc)@ + total.0,
            spec_run_all(store.contents(), all.skip(i as int)).1 == total.1,
        decreases requests.len() - i,
    {
        let ghost before: Seq<u8> = acc@;
        let ghost here = store.contents();
        proof {
            assert(all.skip(i as int).drop_first() =~= all.skip(i + 1));
            assert(all.skip(i as int)[0] == views(requests@[i as int]@));
        }
        let mut reply: Vec<u8> = execute(store, requests[i]);
        acc.append(&mut reply);
        proof {
            let step = spec_run(here, all[i as int]);
            let others = spec_run_all(step.1, all.skip(i + 1));
            assert((before + step.0) + others.0 =~= before + (step.0 + others.0));
        }
        i += 1;
    }
    proof {
        assert(acc@ + Seq::<u8>::empty() =~= acc@);
    }
}

/// Runs the requests that the array `arr` carries, in order, and adds the
/// replies to `acc`.
pub fn execute_commands<S: Store + ?Sized>(arr: &Vec<Data>, store: &mut S, acc: &mut Vec<u8>)
    ensures
        final(acc)@ == old(acc)@ + spec_run_all(
            old(store).contents(),
            spec_requests_of(Value::Array(views(arr@))),
        ).0,
        final(store).contents() == spec_run_all(
            old(store).contents(),
            spec_requests_of(Value::Array(views(arr@))),
        ).1,
{
    let mut found: Vec<&Vec<Data>> = Vec::new();
    assert(request_views(found@) =~= Seq::<Seq<Value>>::empty());
    collect_requests(arr, &mut found);
    assert(request_views(found@) =~= spec_requests_of(Value::Array(views(arr@))));
    run_requests(&found, store, acc);
}

/// Reads the frames that `input` holds.
pub fn read_frames(input: &[u8]) -> (res: (Vec<Data>, ConnectionState))
    ensures
        views(res.0@) == spec_frames(input@).0,
        res.1 == spec_next_state(input@),
{
    let mut frames: Vec<Data> = Vec::new();
    if input.len() == 0 {
        proof {
            lemma_views(frames@);
            assert(views(frames@) =~= spec_frames(input@).0);
        }
        return (frames, ConnectionState::Closed);
    }
    let mut cursor: ByteCursor = ByteCursor::new(input);
    proof {
        lemma_views(frames@);
        assert(views(frames@) + spec_frames(input@).0 =~= spec_frames(input@).0);
    }
    loop
        invariant
            input@.len() > 0,
            views(frames@) + spec_frames(cursor@).0 == spec_frames(input@).0,
            spec_frames(cursor@).1 == spec_frames(input@).1,
        decreases cursor@.len(),
    {
        let ghost here: Seq<u8> = cursor@;
        let ghost before: Seq<Data> = frames@;
        proof {
            lemma_parse_rest(here, true);
        }
        match parse(&mut cursor, true) {
            Ok(Some(frame)) => {
                frames.push(frame);
                proof {
                    assert(frames@.drop_last() =~= before);
                    lemma_views(before);
                    lemma_views(frames@);
                    assert(views(frames@) =~= views(before).push(frame@));
                    assert(views(frames@) + spec_frames(cursor@).0 =~= views(before) + (seq![
                        frame@,
                    ] + spec_frames(cursor@).0));
                }
            },
            Ok(None) => {
                proof {
                    assert(views(frames@) + Seq::<Value>::empty() =~= views(frames@));
                }
                return (frames, ConnectionState::AwaitingFrame);
            },
            Err(_) => {
                proof {
                    assert(views(frames@) + Seq::<Value>::empty() =~= views(frames@));
                }
                return (frames, ConnectionState::Closed);
            },
        }
    }
}

/// The requests that `frames` carry, frame after frame.
pub fn requests_of_all<'a>(frames: &'a Vec<Data>) -> (out: Vec<&'a Vec<Data>>)
    ensures
        request_views(out@) == spec_requests_all(views(frames@)),
{
    let ghost all: Seq<Value> = views(frames@);
    let mut out: Vec<&'a Vec<Data>> = Vec::new();
    let mut i: usize = 0;
    proof {
        lemma_views(frames@);
        assert(all.skip(0) =~= all);
        assert(request_views(out@) + spec_requests_all(all) =~= spec_requests_all(all));
    }
    while i < frames.len()
        invariant
            i <= frames.len(),
            all == views(frames@),
            all.len() == frames@.len(),
            request_views(out@) + spec_requests_all(all.skip(i as int)) == spec_requests_all(all),
        decreases frames.len() - i,
    {
        let ghost before: Seq<Seq<Value>> = request_views(out@);
        proof {
            lemma_views(frames@);
            assert(all.skip(i as int).drop_first() =~= all.skip(i + 1));
            assert(all.skip(i as int)[0] == frames@[i as int]@);
        }
        match &frames[i] {
            Data::Array(items) => {
                collect_requests(items, &mut out);
            },
            _ => {},
        }
        proof {
            let found: Seq<Seq<Value>> = spec_requests_of(frames@[i as int]@);
            assert(request_views(out@) =~= before + found);
            assert((before + found) + spec_requests_all(all.skip(i + 1)) =~= before + (found
                + spec_requests_all(all.skip(i + 1))));
        }
        i += 1;
    }
    proof {
        assert(spec_requests_all(all.skip(i as int)) =~= Seq::<Seq<Value>>::empty());
        assert(request_views(out@) + Seq::<Seq<Value>>::empty() =~= request_views(out@));
    }
    out
}

/// Serves the bytes `input` that a connection received: reads the frames
/// they hold, runs the requests of each against `store`, and adds the
/// replies to `out` in the order of the requests. Frames that were read
/// before bytes that cannot be decoded are still served.
pub fn serve<S: Store + ?Sized>(input: &[u8], store: &mut S, out: &mut Vec<u8>) -> (next: ConnectionState)
    ensures
        final(out)@ == old(out)@ + spec_run_all(
            old(store).contents(),
            spec_requests_all(spec_frames(input@).0),
        ).0,
        final(store).contents() == spec_run_all(
            old(store).contents(),
            spec_requests_all(spec_frames(input@).0),
        ).1,
        next == spec_next_state(input@),
{
    let (frames, next) = read_frames(input);
    let found: Vec<&Vec<Data>> = requests_of_all(&frames);
    run_requests(&found, store, out);
    next
}

} // verus!
