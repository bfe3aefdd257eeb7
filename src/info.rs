use vstd::prelude::*;
use vstd::string::StringExecFns;

use crate::command::{is_word, same_word};
use crate::database::{listing_insert, listing_line, lookup, nil_text, Database, DbEntry};
use crate::error::Error;
use crate::flags::Args;
use crate::frame::Frame;
use crate::resptype::{ser, Type, Value};

verus! {

/// The replication id a primary reports.
pub const MASTER_REPLID: &'static str = "8371b4fb1155b71f4a04d3e1bc3e18c4a990aeeb";

/// The store after setting each pair of `pairs`, first to last.
pub open spec fn insert_all(
    l: Seq<(Seq<char>, Seq<char>)>,
    pairs: Seq<(Seq<char>, Seq<char>)>,
) -> Seq<(Seq<char>, Seq<char>)>
    decreases pairs.len(),
{
    if pairs.len() == 0 {
        l
    } else {
        let before = insert_all(l, pairs.drop_last());
        listing_insert(before, pairs.last().0, pairs.last().1)
    }
}

/// What a server reports about itself at startup: a primary, or, given `replicaof`, a replica.
pub open spec fn startup_pairs(
    port: Seq<char>,
    replicaof: Option<Seq<Seq<char>>>,
) -> Seq<(Seq<char>, Seq<char>)> {
    match replicaof {
        None => seq![
            ("role"@, "master"@),
            ("tcp_port"@, port),
            ("connected_slaves"@, "0"@),
            ("master_replid"@, MASTER_REPLID@),
            ("master_repl_offset"@, "0"@),
        ],
        Some(p) => seq![
            ("role"@, "slave"@),
            ("tcp_port"@, port),
            ("master_host"@, p[0]),
            ("master_port"@, p[1]),
            ("connected_slaves"@, "0"@),
            ("master_replid"@, "?"@),
            ("master_repl_offset"@, "-1"@),
        ],
    }
}

/// The names that INFO reports, in order.
pub open spec fn info_keys() -> Seq<Seq<char>> {
    seq![
        "role"@,
        "tcp_port"@,
        "master_host"@,
        "master_port"@,
        "connected_slaves"@,
        "master_replid"@,
        "master_repl_offset"@,
    ]
}

/// The text under `key`, or `(nil)`.
pub open spec fn value_or_nil(l: Seq<(Seq<char>, Seq<char>)>, key: Seq<char>) -> Seq<char> {
    match lookup(l, key) {
        Some(v) => v,
        None => nil_text(),
    }
}

/// A `name:value` line for each name of `keys`, one after another.
pub open spec fn info_lines(l: Seq<(Seq<char>, Seq<char>)>, keys: Seq<Seq<char>>) -> Seq<char>
    decreases keys.len(),
{
    if keys.len() == 0 {
        Seq::empty()
    } else {
        info_lines(l, keys.drop_last()) + listing_line(keys.last(), value_or_nil(l, keys.last()))
    }
}

/// Sets each pair, first to last.
fn insert_pairs(info_db: &mut Database, pairs: Vec<(String, String)>)
    requires
        old(info_db).wf(),
    ensures
        final(info_db).wf(),
        final(info_db)@ == insert_all(old(info_db)@, pairs@.map_values(|p: (String, String)| (p.0@, p.1@))),
{
    let ghost views = pairs@.map_values(|p: (String, String)| (p.0@, p.1@));
    let mut i: usize = 0;
    while i < pairs.len()
        invariant
            info_db.wf(),
            i <= pairs@.len(),
            views == pairs@.map_values(|p: (String, String)| (p.0@, p.1@)),
            info_db@ == insert_all(old(info_db)@, views.take(i as int)),
        decreases pairs.len() - i,
    {
        let key = pairs[i].0.clone();
        let value = pairs[i].1.clone();
        info_db.insert(key, DbEntry::new(value, None, 0));
        proof {
            assert(views.take(i + 1).drop_last() =~= views.take(i as int));
        }
        i += 1;
    }
    assert(views.take(pairs@.len() as int) =~= views);
}

/// Fills the info store for a server configured by `args`. A `replicaof` that is not exactly a
/// host and a port is refused, and the store is left as it was.
pub fn init_info_db(info_db: &mut Database, args: &Args) -> (r: Result<(), Error>)
    requires
        old(info_db).wf(),
    ensures
        final(info_db).wf(),
        args.replicaof_view() matches Some(p) && p.len() != 2 ==> r == Err::<(), Error>(
            Error::BadArgument,
        ) && final(info_db)@ == old(info_db)@,
        !(args.replicaof_view() matches Some(p) && p.len() != 2) ==> r is Ok && final(info_db)@
            == insert_all(old(info_db)@, startup_pairs(args.port@, args.replicaof_view())),
{
    let pairs: Vec<(String, String)> = match &args.replicaof {
        None => vec![
            ("role".to_string(), "master".to_string()),
            ("tcp_port".to_string(), args.port.clone()),
            ("connected_slaves".to_string(), "0".to_string()),
            ("master_replid".to_string(), MASTER_REPLID.to_string()),
            ("master_repl_offset".to_string(), "0".to_string()),
        ],
        Some(p) => {
            if p.len() != 2 {
                return Err(Error::BadArgument);
            }
            vec![
                ("role".to_string(), "slave".to_string()),
                ("tcp_port".to_string(), args.port.clone()),
                ("master_host".to_string(), p[0].clone()),
                ("master_port".to_string(), p[1].clone()),
                ("connected_slaves".to_string(), "0".to_string()),
                ("master_replid".to_string(), "?".to_string()),
                ("master_repl_offset".to_string(), "-1".to_string()),
            ]
        },
    };
    let ghost expected = startup_pairs(args.port@, args.replicaof_view());
    assert(pairs@.map_values(|p: (String, String)| (p.0@, p.1@)) =~= expected);
    insert_pairs(info_db, pairs);
    Ok(())
}

/// The sections INFO can be asked for.
#[derive(Debug, Clone, Copy, PartialEq, Eq, Structural)]
pub enum InfoQuery {
    Replication,
    All,
}

impl InfoQuery {
    /// The section a name asks for, ignoring ASCII case; a name this server does not know
    /// asks for everything.
    pub fn from_name(name: &String) -> (r: InfoQuery)
        ensures
            r == if same_word(name@, "replication"@) {
                InfoQuery::Replication
            } else {
                InfoQuery::All
            },
    {
        if is_word(name.as_str(), "replication") {
            InfoQuery::Replication
        } else {
            InfoQuery::All
        }
    }
}

/// The names that a section reports: for now every section reports them all.
pub open spec fn section_keys(q: InfoQuery) -> Seq<Seq<char>> {
    match q {
        InfoQuery::Replication => info_keys(),
        InfoQuery::All => info_keys(),
    }
}

/// The reply to INFO for section `query`: a bulk string of `name:value` lines.
pub fn info_query(query: InfoQuery, info_db: &Database) -> (r: Vec<u8>)
    requires
        info_db.wf(),
    ensures
        r@ == ser(Value::Bulk(info_lines(info_db@, section_keys(query)))),
{
    let keys: Vec<&str> = match query {
        InfoQuery::Replication => vec![
            "role",
            "tcp_port",
            "master_host",
            "master_port",
            "connected_slaves",
            "master_replid",
            "master_repl_offset",
        ],
        InfoQuery::All => vec![
            "role",
            "tcp_port",
            "master_host",
            "master_port",
            "connected_slaves",
            "master_replid",
            "master_repl_offset",
        ],
    };
    let ghost wanted = section_keys(query);
    assert(keys@.map_values(|k: &str| k@) =~= wanted);
    let mut text = String::new();
    let mut i: usize = 0;
    while i < keys.len()
        invariant
            info_db.wf(),
            i <= keys@.len(),
            wanted == keys@.map_values(|k: &str| k@),
            text@ == info_lines(info_db@, wanted.take(i as int)),
        decreases keys.len() - i,
    {
        let key = keys[i];
        let entry = info_db.get(key.to_string());
        text.append(key);
        text.append(":");
        text.append(entry.value().as_str());
        text.append("\n");
        proof {
            assert(wanted.take(i + 1).drop_last() =~= wanted.take(i as int));
        }
        i += 1;
    }
    assert(wanted.take(keys@.len() as int) =~= wanted);
    Type::BulkString(text).serialize()
}

/// Answers INFO: with no section, or with any section, the full report.
pub fn handle_info(frame: &Frame, info_db: &Database) -> (r: Vec<u8>)
    requires
        info_db.wf(),
    ensures
        r@ == ser(Value::Bulk(info_lines(info_db@, info_keys()))),
{
    let query = match frame.args() {
        Some(args) => {
            if args.len() == 1 {
                InfoQuery::from_name(&args[0])
            } else {
                InfoQuery::All
            }
        },
        None => InfoQuery::All,
    };
    info_query(query, info_db)
}

} // verus!
