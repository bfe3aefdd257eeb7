use vstd::prelude::*;

use crate::command::{command_of, Command};
use crate::database::Database;
use crate::error::Error;
use crate::frame::{frame_of, Frame, FrameView};
use crate::keyspace::Keyspace;
use crate::handshake::request;
use crate::parse::{
    lemma_parse_bounds, lemma_parse_ser, needs_more, needs_more_at, parse, parse_resp, round_trips,
};
use crate::replication::{concat, queue_for_all, replicate, ReplicaRegistry};
use crate::response::{create_response, info_after, keyspace_after, reply, Response};
use crate::resptype::{ser, Type, Value};
use crate::table::EntryView;

verus! {

/// The reply sent for a request that fails.
pub open spec fn error_reply(e: Error) -> Seq<u8> {
    match e {
        Error::Protocol => ser(Value::Simple("ERR protocol error"@)),
        Error::UnknownCommand => ser(Value::Simple("ERR unknown command"@)),
        Error::BadArity => ser(Value::Bulk("(error) wrong number of arguments"@)),
        Error::BadArgument => ser(Value::Bulk("(error) invalid argument"@)),
    }
}

/// The reply sent for a request that fails with `e`.
pub fn error_bytes(e: Error) -> (r: Vec<u8>)
    ensures
        r@ == error_reply(e),
{
    match e {
        Error::Protocol => Type::SimpleString("ERR protocol error".to_string()).serialize(),
        Error::UnknownCommand => Type::SimpleString("ERR unknown command".to_string()).serialize(),
        Error::BadArity => Type::BulkString(
            "(error) wrong number of arguments".to_string(),
        ).serialize(),
        Error::BadArgument => Type::BulkString("(error) invalid argument".to_string()).serialize(),
    }
}

/// Where serving a connection's bytes has got to: the replies so far, the stores, the replicas'
/// queues, the count of bytes used up, and whether the connection became a replica's or must
/// be closed.
pub struct Served {
    pub responses: Seq<Seq<u8>>,
    pub keyspace: Map<Seq<char>, EntryView>,
    pub info: Seq<(Seq<char>, Seq<char>)>,
    pub replicas: Seq<(u64, Seq<u8>)>,
    pub consumed: nat,
    pub promote: bool,
    pub close: bool,
}

/// Serving one request. A write on a primary is queued, as it came, for every replica; PSYNC
/// hands the connection over to replication.
pub open spec fn serve_frame(s: Served, f: FrameView, now: u64, primary: bool) -> Served {
    match reply(f, s.keyspace, s.info, now) {
        Ok(rs) => Served {
            responses: s.responses + rs,
            keyspace: keyspace_after(f, s.keyspace, now),
            info: info_after(f, s.info),
            replicas: if primary && f.command == Command::SetKey {
                queue_for_all(s.replicas, f.bytes)
            } else {
                s.replicas
            },
            consumed: s.consumed + f.bytes.len(),
            promote: f.command == Command::PSync,
            close: false,
        },
        Err(e) => Served {
            responses: s.responses.push(error_reply(e)),
            keyspace: keyspace_after(f, s.keyspace, now),
            info: info_after(f, s.info),
            replicas: s.replicas,
            consumed: s.consumed + f.bytes.len(),
            promote: false,
            close: false,
        },
    }
}

/// Serving the requests in `rest` one after another: until the bytes run out or end in the
/// middle of a request (which waits for more), a request is malformed (the connection
/// closes), or PSYNC hands the connection over.
pub open spec fn serve(rest: Seq<u8>, s: Served, now: u64, primary: bool) -> Served
    decreases rest.len(),
{
    if rest.len() == 0 || s.promote || s.close {
        s
    } else {
        match frame_of(rest) {
            Ok(f) => if 0 < f.bytes.len() <= rest.len() {
                serve(rest.skip(f.bytes.len() as int), serve_frame(s, f, now, primary), now, primary)
            } else {
                s
            },
            Err(Error::Protocol) => if needs_more(rest) {
                s
            } else {
                Served { close: true, ..s }
            },
            Err(e) => match parse(rest) {
                Some((_, n)) => if 0 < n <= rest.len() {
                    serve(
                        rest.skip(n as int),
                        Served {
                            responses: s.responses.push(error_reply(e)),
                            consumed: s.consumed + n,
                            ..s
                        },
                        now,
                        primary,
                    )
                } else {
                    s
                },
                None => Served { close: true, ..s },
            },
        }
    }
}

/// What serving a buffer came to: the replies to send, in order; the count of bytes used up
/// (the rest begins a request still to be completed); whether the connection is now a
/// replica's; whether it must be closed.
pub struct Outcome {
    pub responses: Response,
    pub consumed: usize,
    pub promote: bool,
    pub close: bool,
}

/// Serves the requests in `buffer[..len]`, one after another, against the stores; on a primary,
/// each write is queued for the replicas.
pub fn handle_input(
    buffer: &[u8],
    len: usize,
    db: &mut Keyspace,
    info_db: &mut Database,
    registry: &mut ReplicaRegistry,
    now: u64,
    primary: bool,
) -> (r: Outcome)
    requires
        len <= buffer@.len(),
        old(db).wf(),
        old(info_db).wf(),
    ensures
        final(db).wf(),
        final(info_db).wf(),
        serve(
            buffer@.take(len as int),
            (Served {
                responses: Seq::empty(),
                keyspace: old(db)@,
                info: old(info_db)@,
                replicas: old(registry)@,
                consumed: 0,
                promote: false,
                close: false,
            }),
            now,
            primary,
        ) == (Served {
            responses: r.responses@.map_values(|b: Vec<u8>| b@),
            keyspace: final(db)@,
            info: final(info_db)@,
            replicas: final(registry)@,
            consumed: r.consumed as nat,
            promote: r.promote,
            close: r.close,
        }),
{
    let ghost b = buffer@.take(len as int);
    let ghost start = Served {
        responses: Seq::empty(),
        keyspace: db@,
        info: info_db@,
        replicas: registry@,
        consumed: 0,
        promote: false,
        close: false,
    };
    let mut responses: Response = Vec::new();
    let mut pos: usize = 0;
    let mut promote = false;
    let mut close = false;
    let mut waiting = false;
    assert(b.skip(0) =~= b);
    assert(responses@.map_values(|x: Vec<u8>| x@) =~= Seq::<Seq<u8>>::empty());
    while pos < len && !promote && !close && !waiting
        invariant
            waiting ==> serve(b, start, now, primary) == (Served {
                responses: responses@.map_values(|x: Vec<u8>| x@),
                keyspace: db@,
                info: info_db@,
                replicas: registry@,
                consumed: pos as nat,
                promote,
                close,
            }),
            len <= buffer@.len(),
            b == buffer@.take(len as int),
            pos <= len,
            db.wf(),
            info_db.wf(),
            !waiting ==> serve(b, start, now, primary) == serve(
                b.skip(pos as int),
                (Served {
                    responses: responses@.map_values(|x: Vec<u8>| x@),
                    keyspace: db@,
                    info: info_db@,
                    replicas: registry@,
                    consumed: pos as nat,
                    promote,
                    close,
                }),
                now,
                primary,
            ),
        decreases len - pos, if promote || close || waiting {
            0int
        } else {
            1int
        },
    {
        let rest = &buffer[pos..len];
        let ghost rv = rest@;
        assert(rv =~= b.skip(pos as int));
        assert(rv.take(rv.len() as int) =~= rv);
        proof {
            lemma_parse_bounds(rv);
        }
        match Frame::new(rest, rest.len()) {
            Ok(frame) => {
                let n = frame.bytes_vec().len();
                let command = frame.command();
                assert(rv.skip(n as int) =~= b.skip(pos + n));
                match create_response(&frame, db, info_db, now) {
                    Ok(mut rs) => {
                        let ghost old_rs = responses@.map_values(|x: Vec<u8>| x@);
                        let ghost new_rs = rs@.map_values(|x: Vec<u8>| x@);
                        responses.append(&mut rs);
                        assert(responses@.map_values(|x: Vec<u8>| x@) =~= old_rs + new_rs);
                        if primary && command == Command::SetKey {
                            replicate(&frame, registry);
                        }
                        if command == Command::PSync {
                            promote = true;
                        }
                    },
                    Err(e) => {
                        let ghost old_rs = responses@.map_values(|x: Vec<u8>| x@);
                        responses.push(error_bytes(e));
                        assert(responses@.map_values(|x: Vec<u8>| x@) =~= old_rs.push(
                            error_reply(e),
                        ));
                    },
                }
                pos = pos + n;
            },
            Err(Error::Protocol) => {
                if needs_more_at(rest, 0) {
                    waiting = true;
                } else {
                    close = true;
                }
            },
            Err(e) => {
                match parse_resp(rest) {
                    Ok((_, n)) => {
                        let ghost old_rs = responses@.map_values(|x: Vec<u8>| x@);
                        responses.push(error_bytes(e));
                        assert(responses@.map_values(|x: Vec<u8>| x@) =~= old_rs.push(
                            error_reply(e),
                        ));
                        assert(rv.skip(n as int) =~= b.skip(pos + n));
                        pos = pos + n;
                    },
                    Err(_) => {
                        close = true;
                    },
                }
            },
        }
    }
    Outcome { responses, consumed: pos, promote, close }
}

/// `b`, `k` times over.
pub open spec fn repeat(b: Seq<u8>, k: nat) -> Seq<u8>
    decreases k,
{
    if k == 0 {
        Seq::empty()
    } else {
        b + repeat(b, (k - 1) as nat)
    }
}

/// A PING request at the start of the bytes reads as a bare PING frame.
proof fn lemma_ping_frame(rest: Seq<u8>)
    ensures
        frame_of(request(seq!["PING"@]) + rest) == Ok::<FrameView, Error>(
            FrameView { command: Command::Ping, args: None, bytes: request(seq!["PING"@]) },
        ),
{
    reveal_strlit("PING");
    reveal_strlit("ping");
    let items = Seq::new(1, |i: int| Value::Bulk(seq!["PING"@][i]));
    let v = Value::Array(items);
    assert(items[0] == Value::Bulk("PING"@));
    assert(round_trips(v)) by {
        assert forall|i: int| 0 <= i < items.len() implies round_trips(#[trigger] items[i]) by {
            assert(items[i] == Value::Bulk("PING"@));
        }
    }
    lemma_parse_ser(v, rest);
    assert(command_of("PING"@) == Some(Command::Ping));
    assert((request(seq!["PING"@]) + rest).take(ser(v).len() as int) =~= request(seq!["PING"@]));
}

/// Serving a PING request and then more is serving the rest after that request.
proof fn lemma_serve_ping(rest: Seq<u8>, s: Served, now: u64, primary: bool)
    requires
        !s.promote,
        !s.close,
    ensures
        serve(request(seq!["PING"@]) + rest, s, now, primary) == serve(
            rest,
            serve_frame(
                s,
                (FrameView { command: Command::Ping, args: None, bytes: request(seq!["PING"@]) }),
                now,
                primary,
            ),
            now,
            primary,
        ),
{
    let ping = request(seq!["PING"@]);
    lemma_ping_frame(rest);
    lemma_parse_bounds(ping + rest);
    assert((ping + rest).skip(ping.len() as int) =~= rest);
}

/// `k` PONG replies.
pub open spec fn pongs(k: nat) -> Seq<Seq<u8>> {
    Seq::new(k, |i: int| ser(Value::Simple("PONG"@)))
}

/// However many PINGs arrive together, each is answered with PONG, and nothing else changes.
pub proof fn law_ping_idempotent(k: nat, s: Served, now: u64, primary: bool)
    requires
        !s.promote,
        !s.close,
    ensures
        serve(repeat(request(seq!["PING"@]), k), s, now, primary) == (Served {
            responses: s.responses + pongs(k),
            keyspace: s.keyspace,
            info: s.info,
            replicas: s.replicas,
            consumed: s.consumed + k * request(seq!["PING"@]).len(),
            promote: false,
            close: false,
        }),
    decreases k,
{
    let ping = request(seq!["PING"@]);
    if k == 0 {
        assert(s.responses + pongs(0) =~= s.responses);
        assert(serve(repeat(ping, k), s, now, primary) == s);
        assert(k * ping.len() == 0) by (nonlinear_arith)
            requires
                k == 0,
        ;
    } else {
        let rest = repeat(ping, (k - 1) as nat);
        let f = FrameView { command: Command::Ping, args: None, bytes: ping };
        let s1 = serve_frame(s, f, now, primary);
        lemma_serve_ping(rest, s, now, primary);
        law_ping_idempotent((k - 1) as nat, s1, now, primary);
        assert(s1.responses == s.responses.push(ser(Value::Simple("PONG"@))));
        assert(s.responses.push(ser(Value::Simple("PONG"@))) + pongs((k - 1) as nat) =~= s.responses + pongs(k));
        assert(s.consumed + ping.len() + (k - 1) * ping.len() == s.consumed + k * ping.len())
            by (nonlinear_arith);
        assert(serve(repeat(ping, k), s, now, primary).responses == s.responses + pongs(k));
        assert(serve(repeat(ping, k), s, now, primary).consumed == s.consumed + k * ping.len());
        assert(serve(repeat(ping, k), s, now, primary).keyspace == s.keyspace);
        assert(serve(repeat(ping, k), s, now, primary).replicas == s.replicas);
        assert(serve(repeat(ping, k), s, now, primary).promote == s.promote);
        assert(serve(repeat(ping, k), s, now, primary).info == s.info);
        assert(serve(repeat(ping, k), s, now, primary).close == s.close);
    }
}

/// A SET request of a key and a value.
pub open spec fn set_request(key: Seq<char>, value: Seq<char>) -> Seq<u8> {
    request(seq!["SET"@, key, value])
}

/// SET requests for each pair, one after another.
pub open spec fn set_requests(pairs: Seq<(Seq<char>, Seq<char>)>) -> Seq<u8>
    decreases pairs.len(),
{
    if pairs.len() == 0 {
        Seq::empty()
    } else {
        set_request(pairs[0].0, pairs[0].1) + set_requests(pairs.drop_first())
    }
}

/// Each pair's SET request on its own.
pub open spec fn set_request_list(pairs: Seq<(Seq<char>, Seq<char>)>) -> Seq<Seq<u8>> {
    Seq::new(pairs.len(), |i: int| set_request(pairs[i].0, pairs[i].1))
}

/// A SET request at the start of the bytes reads as a frame with the key and the value.
proof fn lemma_set_frame(key: Seq<char>, value: Seq<char>, rest: Seq<u8>)
    ensures
        frame_of(set_request(key, value) + rest) == Ok::<FrameView, Error>(
            FrameView {
                command: Command::SetKey,
                args: Some(seq![key, value]),
                bytes: set_request(key, value),
            },
        ),
{
    reveal_strlit("SET");
    reveal_strlit("set");
    reveal_strlit("get");
    reveal_strlit("echo");
    reveal_strlit("ping");
    let words = seq!["SET"@, key, value];
    let items = Seq::new(words.len(), |i: int| Value::Bulk(words[i]));
    let v = Value::Array(items);
    assert(round_trips(v)) by {
        assert forall|i: int| 0 <= i < items.len() implies round_trips(#[trigger] items[i]) by {
            assert(items[i] == Value::Bulk(words[i]));
        }
    }
    lemma_parse_ser(v, rest);
    assert(items[0] == Value::Bulk("SET"@));
    assert(!crate::command::same_word("SET"@, "get"@)) by {
        assert(!crate::command::folds_to("SET"@[0], "get"@[0]));
    }
    assert(command_of("SET"@) == Some(Command::SetKey));
    let args = Seq::new(
        (items.len() - 1) as nat,
        |i: int| crate::frame::arg_of(items[i + 1])->0,
    );
    assert(args =~= seq![key, value]);
    assert((set_request(key, value) + rest).take(ser(v).len() as int) =~= set_request(key, value));
}

/// Serving a SET request and then more is serving the rest after that request.
proof fn lemma_serve_set(key: Seq<char>, value: Seq<char>, rest: Seq<u8>, s: Served, now: u64)
    requires
        !s.promote,
        !s.close,
    ensures
        serve(set_request(key, value) + rest, s, now, true) == serve(
            rest,
            serve_frame(
                s,
                (FrameView {
                    command: Command::SetKey,
                    args: Some(seq![key, value]),
                    bytes: set_request(key, value),
                }),
                now,
                true,
            ),
            now,
            true,
        ),
{
    let w = set_request(key, value);
    lemma_set_frame(key, value, rest);
    lemma_parse_bounds(w + rest);
    assert((w + rest).skip(w.len() as int) =~= rest);
}

proof fn lemma_concat_front(writes: Seq<Seq<u8>>)
    requires
        writes.len() > 0,
    ensures
        concat(writes) == writes[0] + concat(writes.drop_first()),
    decreases writes.len(),
{
    if writes.len() == 1 {
        assert(writes.drop_first() =~= Seq::<Seq<u8>>::empty());
        assert(writes.drop_last() =~= Seq::<Seq<u8>>::empty());
        assert(concat(writes) =~= writes[0] + concat(writes.drop_first()));
    } else {
        lemma_concat_front(writes.drop_last());
        assert(writes.drop_last().drop_first() =~= writes.drop_first().drop_last());
        assert(writes.drop_last()[0] == writes[0]);
        assert(writes.drop_first().last() == writes.last());
        assert(concat(writes) =~= writes[0] + concat(writes.drop_first()));
    }
}

/// A primary that reads SET requests one after another, from one client, answers each with
/// OK and queues, for every attached replica, exactly those requests' bytes in that order,
/// after what the replica already had queued.
pub proof fn law_writes_reach_replicas_in_order(
    pairs: Seq<(Seq<char>, Seq<char>)>,
    s: Served,
    now: u64,
)
    requires
        !s.promote,
        !s.close,
    ensures
        serve(set_requests(pairs), s, now, true).replicas.len() == s.replicas.len(),
        forall|i: int|
            0 <= i < s.replicas.len() ==> #[trigger] serve(set_requests(pairs), s, now, true).replicas[i]
                == (s.replicas[i].0, s.replicas[i].1 + concat(set_request_list(pairs))),
        serve(set_requests(pairs), s, now, true).responses == s.responses + Seq::new(
            pairs.len(),
            |i: int| ser(Value::Simple("OK"@)),
        ),
        !serve(set_requests(pairs), s, now, true).promote,
        !serve(set_requests(pairs), s, now, true).close,
    decreases pairs.len(),
{
    if pairs.len() == 0 {
        assert(concat(set_request_list(pairs)) =~= Seq::<u8>::empty());
        assert forall|i: int| 0 <= i < s.replicas.len() implies #[trigger] serve(
            set_requests(pairs),
            s,
            now,
            true,
        ).replicas[i] == (s.replicas[i].0, s.replicas[i].1 + concat(set_request_list(pairs))) by {
            assert(s.replicas[i].1 + Seq::<u8>::empty() =~= s.replicas[i].1);
        }
        assert(s.responses + Seq::new(0, |i: int| ser(Value::Simple("OK"@))) =~= s.responses);
    } else {
        let (k, v) = pairs[0];
        let w = set_request(k, v);
        let tail = pairs.drop_first();
        let rest = set_requests(tail);
        let f = FrameView { command: Command::SetKey, args: Some(seq![k, v]), bytes: w };
        let s1 = serve_frame(s, f, now, true);
        lemma_serve_set(k, v, rest, s, now);
        assert(set_requests(pairs) == w + rest);
        law_writes_reach_replicas_in_order(tail, s1, now);
        let list = set_request_list(pairs);
        assert(list.drop_first() =~= set_request_list(tail));
        lemma_concat_front(list);
        assert forall|i: int| 0 <= i < s.replicas.len() implies #[trigger] serve(
            set_requests(pairs),
            s,
            now,
            true,
        ).replicas[i] == (s.replicas[i].0, s.replicas[i].1 + concat(set_request_list(pairs))) by {
            assert(s1.replicas[i] == (s.replicas[i].0, s.replicas[i].1 + w));
            assert(s.replicas[i].1 + w + concat(set_request_list(tail)) =~= s.replicas[i].1
                + concat(list));
        }
        assert(s.responses + seq![ser(Value::Simple("OK"@))] + Seq::new(
            tail.len(),
            |i: int| ser(Value::Simple("OK"@)),
        ) =~= s.responses + Seq::new(pairs.len(), |i: int| ser(Value::Simple("OK"@))));
    }
}

} // verus!
