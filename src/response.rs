use vstd::prelude::*;
use vstd::string::StringExecFns;
use vstd::utf8::encode_utf8;

use crate::command::{is_word, same_word, Command};
use crate::database::{listing_insert, Database, DbEntry};
use crate::error::Error;
use crate::frame::{Frame, FrameView};
use crate::info::{handle_info, info_keys, info_lines, value_or_nil};
use crate::keyspace::{after_read, deadline, read, Keyspace, SetValue};
use crate::parse::lemma_digits_value_prefix;
use crate::resptype::{all_digits, digits_value, is_digit, ser, Type, Value};
use crate::table::EntryView;

verus! {

/// The replies to one request, in the order they are sent.
pub type Response = Vec<Vec<u8>>;

/// An empty database snapshot, as hex, sent to a replica after FULLRESYNC.
pub const EMPTY_RDB: &'static str = "524544495330303131fa0972656469732d76657205372e322e30fa0a72656469732d62697473c040fa056374696d65c26d08bc65fa08757365642d6d656dc2b0c41000fa08616f662d62617365c000fff06e3bfec0ff5aa2";

/// The arguments of a frame; none for a bare verb.
pub open spec fn args_of(f: FrameView) -> Seq<Seq<char>> {
    match f.args {
        Some(a) => a,
        None => Seq::empty(),
    }
}

/// The number of milliseconds a text spells: ASCII digits whose number fits in a `u64`.
pub open spec fn millis_of(s: Seq<char>) -> Option<u64> {
    let b = encode_utf8(s);
    if all_digits(b) && digits_value(b) <= u64::MAX {
        Some(digits_value(b) as u64)
    } else {
        None
    }
}

/// The entry that SET stores, given its arguments: a key and a value, then optionally `PX`
/// (in any case) and a positive count of milliseconds from `now`.
pub open spec fn set_entry(a: Seq<Seq<char>>, now: u64) -> Result<EntryView, Error> {
    if a.len() == 2 {
        Ok(EntryView { value: a[1], expiry: None })
    } else if a.len() == 4 {
        if !same_word(a[2], "px"@) {
            Err(Error::BadArgument)
        } else {
            match millis_of(a[3]) {
                Some(ms) => if ms > 0 {
                    Ok(EntryView { value: a[1], expiry: deadline(now, ms) })
                } else {
                    Err(Error::BadArgument)
                },
                None => Err(Error::BadArgument),
            }
        }
    } else {
        Err(Error::BadArity)
    }
}

/// An entry that SET stores with an expiry expires strictly after the instant it was set.
pub proof fn law_expiry_in_the_future(a: Seq<Seq<char>>, now: u64)
    ensures
        set_entry(a, now) matches Ok(e) ==> (e.expiry matches Some(t) ==> t > now),
{
}

/// The name REPLCONF stores its value under: `listening-port` or `capa`, in any case.
pub open spec fn replconf_key(k: Seq<char>) -> Option<Seq<char>> {
    if same_word(k, "listening-port"@) {
        Some("listening-port"@)
    } else if same_word(k, "capa"@) {
        Some("capa"@)
    } else {
        None
    }
}

/// PSYNC asks for a full resynchronisation: its id is `?` or its offset is `-1`.
pub open spec fn psync_ok(a: Seq<Seq<char>>) -> bool {
    same_word(a[0], "?"@) || same_word(a[1], "-1"@)
}

/// The first line of the answer to PSYNC.
pub open spec fn fullresync_text(info: Seq<(Seq<char>, Seq<char>)>) -> Seq<char> {
    "FULLRESYNC "@ + value_or_nil(info, "master_replid"@) + " "@ + value_or_nil(
        info,
        "master_repl_offset"@,
    )
}

/// What GET answers for a read result.
pub open spec fn get_reply(r: Option<Seq<char>>) -> Value {
    match r {
        Some(v) => Value::Bulk(v),
        None => Value::Null,
    }
}

/// The replies to a request, given the keyspace, the info store and the time.
pub open spec fn reply(
    f: FrameView,
    ks: Map<Seq<char>, EntryView>,
    info: Seq<(Seq<char>, Seq<char>)>,
    now: u64,
) -> Result<Seq<Seq<u8>>, Error> {
    let a = args_of(f);
    match f.command {
        Command::Ping => if a.len() == 0 {
            Ok(seq![ser(Value::Simple("PONG"@))])
        } else {
            Err(Error::BadArity)
        },
        Command::Echo => if a.len() == 1 {
            Ok(seq![ser(Value::Bulk(a[0]))])
        } else {
            Err(Error::BadArity)
        },
        Command::Get => if a.len() == 1 {
            Ok(seq![ser(get_reply(read(ks, a[0], now)))])
        } else {
            Err(Error::BadArity)
        },
        Command::SetKey => match set_entry(a, now) {
            Ok(_) => Ok(seq![ser(Value::Simple("OK"@))]),
            Err(e) => Err(e),
        },
        Command::Info => if a.len() <= 1 {
            Ok(seq![ser(Value::Bulk(info_lines(info, info_keys())))])
        } else {
            Err(Error::BadArity)
        },
        Command::ReplConf => if a.len() != 2 {
            Err(Error::BadArity)
        } else if replconf_key(a[0]) is None {
            Err(Error::BadArgument)
        } else {
            Ok(seq![ser(Value::Simple("OK"@))])
        },
        Command::PSync => if a.len() != 2 {
            Err(Error::BadArity)
        } else if !psync_ok(a) {
            Err(Error::BadArgument)
        } else {
            Ok(seq![ser(Value::Simple(fullresync_text(info))), ser(Value::Rdb(EMPTY_RDB@))])
        },
    }
}

/// The keyspace after a request: GET drops an expired entry, SET stores its entry.
pub open spec fn keyspace_after(
    f: FrameView,
    ks: Map<Seq<char>, EntryView>,
    now: u64,
) -> Map<Seq<char>, EntryView> {
    let a = args_of(f);
    match f.command {
        Command::Get => if a.len() == 1 {
            after_read(ks, a[0], now)
        } else {
            ks
        },
        Command::SetKey => match set_entry(a, now) {
            Ok(e) => ks.insert(a[0], e),
            Err(_) => ks,
        },
        _ => ks,
    }
}

/// The info store after a request: REPLCONF records what the replica told.
pub open spec fn info_after(
    f: FrameView,
    info: Seq<(Seq<char>, Seq<char>)>,
) -> Seq<(Seq<char>, Seq<char>)> {
    let a = args_of(f);
    match f.command {
        Command::ReplConf => if a.len() == 2 && replconf_key(a[0]) is Some {
            listing_insert(info, replconf_key(a[0])->0, a[1])
        } else {
            info
        },
        _ => info,
    }
}

/// The arguments of a frame, as a vector that is empty for a bare verb.
fn frame_args(frame: &Frame) -> (r: Vec<String>)
    ensures
        r@.map_values(|s: String| s@) == args_of(frame@),
{
    match frame.args() {
        Some(a) => a,
        None => {
            let r: Vec<String> = Vec::new();
            assert(r@.map_values(|s: String| s@) =~= Seq::<Seq<char>>::empty());
            r
        },
    }
}

/// The count of milliseconds a text spells, if it is ASCII digits that fit in a `u64`.
fn parse_millis(s: &String) -> (r: Option<u64>)
    ensures
        r == millis_of(s@),
{
    let b = s.as_str().as_bytes();
    let ghost t = b@;
    assert(t == encode_utf8(s@));
    if b.len() == 0 {
        return None;
    }
    let mut acc: u64 = 0;
    let mut i: usize = 0;
    while i < b.len()
        invariant
            t == b@,
            t == encode_utf8(s@),
            t.len() > 0,
            i <= t.len(),
            forall|j: int| 0 <= j < i ==> is_digit(#[trigger] t[j]),
            acc == digits_value(t.take(i as int)),
        decreases b.len() - i,
    {
        let c = b[i];
        if c < 48 || c > 57 {
            assert(!is_digit(t[i as int]));
            return None;
        }
        let d = (c - 48) as u64;
        proof {
            assert(t.take(i + 1).drop_last() =~= t.take(i as int));
        }
        if acc > (u64::MAX - d) / 10 {
            proof {
                lemma_digits_value_prefix(t, i + 1);
                assert(digits_value(t.take(i + 1)) > u64::MAX) by (nonlinear_arith)
                    requires
                        digits_value(t.take(i + 1)) == acc * 10 + d,
                        acc > (u64::MAX - d) / 10,
                        d <= 9,
                ;
            }
            return None;
        }
        acc = acc * 10 + d;
        i += 1;
    }
    assert(t.take(t.len() as int) =~= t);
    Some(acc)
}

/// Answers GET: the value under the key if it is there and live, else the null bulk string.
fn handle_get(frame: &Frame, db: &mut Keyspace, now: u64) -> (r: Result<Vec<u8>, Error>)
    requires
        old(db).wf(),
    ensures
        final(db).wf(),
        frame@.command == Command::Get ==> match reply(frame@, old(db)@, Seq::empty(), now) {
            Ok(rs) => r matches Ok(b) && rs == seq![b@],
            Err(e) => r == Err::<Vec<u8>, Error>(e),
        },
        frame@.command == Command::Get ==> final(db)@ == keyspace_after(frame@, old(db)@, now),
{
    let args = frame_args(frame);
    if args.len() != 1 {
        return Err(Error::BadArity);
    }
    let reply = match db.get(&args[0], now) {
        Some(v) => Type::BulkString(v),
        None => Type::NullBulkString,
    };
    Ok(reply.serialize())
}

/// Answers SET: stores the entry its arguments describe and answers OK.
fn handle_set(frame: &Frame, db: &mut Keyspace, now: u64) -> (r: Result<Vec<u8>, Error>)
    requires
        old(db).wf(),
    ensures
        final(db).wf(),
        frame@.command == Command::SetKey ==> match reply(frame@, old(db)@, Seq::empty(), now) {
            Ok(rs) => r matches Ok(b) && rs == seq![b@],
            Err(e) => r == Err::<Vec<u8>, Error>(e),
        },
        frame@.command == Command::SetKey ==> final(db)@ == keyspace_after(frame@, old(db)@, now),
{
    let args = frame_args(frame);
    let ghost a = args_of(frame@);
    let entry = if args.len() == 2 {
        SetValue::new(args[1].clone())
    } else if args.len() == 4 {
        if !is_word(args[2].as_str(), "px") {
            return Err(Error::BadArgument);
        }
        match parse_millis(&args[3]) {
            Some(ms) => {
                if ms == 0 {
                    return Err(Error::BadArgument);
                }
                SetValue::new_with_expiry(args[1].clone(), ms, now)
            },
            None => return Err(Error::BadArgument),
        }
    } else {
        return Err(Error::BadArity);
    };
    db.set(args[0].clone(), entry);
    Ok(Type::SimpleString("OK".to_string()).serialize())
}

/// Answers REPLCONF: records the replica's listening port or capabilities and answers OK.
fn handle_replconf(frame: &Frame, info_db: &mut Database) -> (r: Result<Vec<u8>, Error>)
    requires
        old(info_db).wf(),
    ensures
        final(info_db).wf(),
        frame@.command == Command::ReplConf ==> match reply(frame@, Map::empty(), old(info_db)@, 0) {
            Ok(rs) => r matches Ok(b) && rs == seq![b@],
            Err(e) => r == Err::<Vec<u8>, Error>(e),
        },
        frame@.command == Command::ReplConf ==> final(info_db)@ == info_after(frame@, old(info_db)@),
{
    let args = frame_args(frame);
    if args.len() != 2 {
        return Err(Error::BadArity);
    }
    let key = if is_word(args[0].as_str(), "listening-port") {
        "listening-port".to_string()
    } else if is_word(args[0].as_str(), "capa") {
        "capa".to_string()
    } else {
        return Err(Error::BadArgument);
    };
    info_db.insert(key, DbEntry::new(args[1].clone(), None, 0));
    Ok(Type::SimpleString("OK".to_string()).serialize())
}

/// Answers PSYNC with the FULLRESYNC line: this primary's replication id and offset.
fn handle_psync(frame: &Frame, info_db: &Database) -> (r: Result<Vec<u8>, Error>)
    requires
        info_db.wf(),
    ensures
        frame@.command == Command::PSync ==> match reply(frame@, Map::empty(), info_db@, 0) {
            Ok(rs) => r matches Ok(b) && rs[0] == b@,
            Err(e) => r == Err::<Vec<u8>, Error>(e),
        },
{
    let args = frame_args(frame);
    if args.len() != 2 {
        return Err(Error::BadArity);
    }
    if !(is_word(args[0].as_str(), "?") || is_word(args[1].as_str(), "-1")) {
        return Err(Error::BadArgument);
    }
    let id = info_db.get("master_replid".to_string()).value();
    let offset = info_db.get("master_repl_offset".to_string()).value();
    let mut line = "FULLRESYNC ".to_string();
    line.append(id.as_str());
    line.append(" ");
    line.append(offset.as_str());
    Ok(Type::SimpleString(line).serialize())
}

/// The replies to a request, and its effect on the keyspace and the info store.
pub fn create_response(frame: &Frame, db: &mut Keyspace, info_db: &mut Database, now: u64) -> (r:
    Result<Response, Error>)
    requires
        old(db).wf(),
        old(info_db).wf(),
    ensures
        final(db).wf(),
        final(info_db).wf(),
        match reply(frame@, old(db)@, old(info_db)@, now) {
            Ok(rs) => r matches Ok(v) && v@.map_values(|b: Vec<u8>| b@) == rs,
            Err(e) => r == Err::<Response, Error>(e),
        },
        final(db)@ == keyspace_after(frame@, old(db)@, now),
        final(info_db)@ == info_after(frame@, old(info_db)@),
{
    let one = |b: Vec<u8>| -> (v: Response)
        ensures
            v@.map_values(|x: Vec<u8>| x@) == seq![b@],
        {
            let v = vec![b];
            assert(v@.map_values(|x: Vec<u8>| x@) =~= seq![b@]);
            v
        };
    match frame.command() {
        Command::Ping => {
            let args = frame_args(frame);
            if args.len() != 0 {
                return Err(Error::BadArity);
            }
            Ok(one(Type::SimpleString("PONG".to_string()).serialize()))
        },
        Command::Echo => {
            let args = frame_args(frame);
            if args.len() != 1 {
                return Err(Error::BadArity);
            }
            Ok(one(Type::BulkString(args[0].clone()).serialize()))
        },
        Command::Get => match handle_get(frame, db, now) {
            Ok(b) => Ok(one(b)),
            Err(e) => Err(e),
        },
        Command::SetKey => match handle_set(frame, db, now) {
            Ok(b) => Ok(one(b)),
            Err(e) => Err(e),
        },
        Command::Info => {
            let args = frame_args(frame);
            if args.len() > 1 {
                return Err(Error::BadArity);
            }
            Ok(one(handle_info(frame, info_db)))
        },
        Command::ReplConf => match handle_replconf(frame, info_db) {
            Ok(b) => Ok(one(b)),
            Err(e) => Err(e),
        },
        Command::PSync => match handle_psync(frame, info_db) {
            Ok(b) => {
                proof {
                    reveal_strlit(
                        "524544495330303131fa0972656469732d76657205372e322e30fa0a72656469732d62697473c040fa056374696d65c26d08bc65fa08757365642d6d656dc2b0c41000fa08616f662d62617365c000fff06e3bfec0ff5aa2",
                    );
                }
                let rdb = Type::RDBSyncString(EMPTY_RDB.to_string()).serialize();
                let v = vec![b, rdb];
                assert(v@.map_values(|x: Vec<u8>| x@) =~= reply(
                    frame@,
                    old(db)@,
                    old(info_db)@,
                    now,
                )->Ok_0);
                Ok(v)
            },
            Err(e) => Err(e),
        },
    }
}

} // verus!
