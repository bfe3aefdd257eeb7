use resp_server::command::Command;
use resp_server::database::{Database, DbEntry};
use resp_server::error::Error;
use resp_server::flags::Args;
use resp_server::frame::Frame;
use resp_server::info::{init_info_db, MASTER_REPLID};
use resp_server::keyspace::{Keyspace, SetValue};
use resp_server::replication::ReplicaRegistry;
use resp_server::response::create_response;
use resp_server::server::{error_bytes, handle_input, Outcome};

fn master_args() -> Args {
    Args { addr: "127.0.0.1".to_string(), port: "6379".to_string(), replicaof: None }
}

struct Node {
    db: Keyspace,
    info: Database,
    replicas: ReplicaRegistry,
}

fn master() -> Node {
    let mut info = Database::new();
    init_info_db(&mut info, &master_args()).unwrap();
    Node { db: Keyspace::new(), info, replicas: ReplicaRegistry::new() }
}

fn send(node: &mut Node, bytes: &[u8], now: u64) -> Outcome {
    handle_input(bytes, bytes.len(), &mut node.db, &mut node.info, &mut node.replicas, now, true)
}

fn joined(o: &Outcome) -> Vec<u8> {
    o.responses.concat()
}

#[test]
fn ping_is_answered_with_pong() {
    let mut node = master();
    let out = send(&mut node, b"*1\r\n$4\r\nPING\r\n", 0);
    assert_eq!(joined(&out), b"+PONG\r\n".to_vec());
    assert_eq!(out.consumed, 14);
    assert!(!out.promote && !out.close);
}

#[test]
fn echo_returns_its_argument() {
    let mut node = master();
    let out = send(&mut node, b"*2\r\n$4\r\nECHO\r\n$5\r\nhello\r\n", 0);
    assert_eq!(joined(&out), b"$5\r\nhello\r\n".to_vec());
}

#[test]
fn get_after_set_over_the_wire() {
    let mut node = master();
    let out = send(&mut node, b"*3\r\n$3\r\nSET\r\n$3\r\nfoo\r\n$3\r\nbar\r\n", 0);
    assert_eq!(joined(&out), b"+OK\r\n".to_vec());
    let out = send(&mut node, b"*2\r\n$3\r\nGET\r\n$3\r\nfoo\r\n", 1_000_000);
    assert_eq!(joined(&out), b"$3\r\nbar\r\n".to_vec());
}

#[test]
fn px_expiry_over_the_wire() {
    let mut node = master();
    let out = send(&mut node, b"*5\r\n$3\r\nSET\r\n$1\r\nk\r\n$1\r\nv\r\n$2\r\nPX\r\n$3\r\n100\r\n", 1000);
    assert_eq!(joined(&out), b"+OK\r\n".to_vec());
    let out = send(&mut node, b"*2\r\n$3\r\nGET\r\n$1\r\nk\r\n", 1200);
    assert_eq!(joined(&out), b"$-1\r\n".to_vec());
}

#[test]
fn psync_gives_fullresync_and_snapshot() {
    let mut node = master();
    let out = send(&mut node, b"*3\r\n$5\r\nPSYNC\r\n$1\r\n?\r\n$2\r\n-1\r\n*1\r\n$4\r\nPING\r\n", 0);
    assert!(out.promote);
    assert_eq!(out.responses.len(), 2);
    let line = format!("+FULLRESYNC {} 0\r\n", MASTER_REPLID);
    assert_eq!(out.responses[0], line.as_bytes().to_vec());
    let rdb = &out.responses[1];
    assert!(rdb.starts_with(b"$88\r\n"));
    assert_eq!(rdb.len(), 5 + 88);
    assert_eq!(&rdb[5..10], b"REDIS");
    assert_eq!(out.consumed, 30);
}

#[test]
fn info_replication_section() {
    let mut node = master();
    let out = send(&mut node, b"*2\r\n$4\r\nINFO\r\n$11\r\nreplication\r\n", 0);
    let text = String::from_utf8(joined(&out)).unwrap();
    let body = format!(
        "role:master\ntcp_port:6379\nmaster_host:(nil)\nmaster_port:(nil)\nconnected_slaves:0\nmaster_replid:{}\nmaster_repl_offset:0\n",
        MASTER_REPLID
    );
    assert_eq!(text, format!("${}\r\n{}\r\n", body.len(), body));
}

#[test]
fn info_without_section_or_with_unknown_section_is_the_full_report() {
    let mut node = master();
    let a = joined(&send(&mut node, b"*1\r\n$4\r\nINFO\r\n", 0));
    let b = joined(&send(&mut node, b"*2\r\n$4\r\ninfo\r\n$3\r\nALL\r\n", 0));
    let c = joined(&send(&mut node, b"*2\r\n$4\r\nInfo\r\n$5\r\nother\r\n", 0));
    let d = joined(&send(&mut node, b"*2\r\n$4\r\nINFO\r\n$11\r\nREPLICATION\r\n", 0));
    assert_eq!(a, b);
    assert_eq!(a, c);
    assert_eq!(a, d);
}

#[test]
fn ping_many_times_in_one_read() {
    let mut node = master();
    let one = b"*1\r\n$4\r\nPING\r\n";
    let mut bytes = Vec::new();
    for _ in 0..5 {
        bytes.extend_from_slice(one);
    }
    let out = send(&mut node, &bytes, 0);
    assert_eq!(out.responses.len(), 5);
    for r in &out.responses {
        assert_eq!(r, &b"+PONG\r\n".to_vec());
    }
    assert_eq!(out.consumed, bytes.len());
}

#[test]
fn verbs_ignore_case() {
    let mut node = master();
    let out = send(&mut node, b"*1\r\n$4\r\npInG\r\n", 0);
    assert_eq!(joined(&out), b"+PONG\r\n".to_vec());
}

#[test]
fn values_keep_their_case() {
    let mut node = master();
    send(&mut node, b"*3\r\n$3\r\nset\r\n$3\r\nKey\r\n$3\r\nBaR\r\n", 0);
    let out = send(&mut node, b"*2\r\n$3\r\nget\r\n$3\r\nKey\r\n", 0);
    assert_eq!(joined(&out), b"$3\r\nBaR\r\n".to_vec());
    let out = send(&mut node, b"*2\r\n$3\r\nget\r\n$3\r\nkey\r\n", 0);
    assert_eq!(joined(&out), b"$-1\r\n".to_vec());
}

#[test]
fn unknown_command_gets_an_error_line_and_the_connection_goes_on() {
    let mut node = master();
    let out = send(&mut node, b"*1\r\n$3\r\nFOO\r\n*1\r\n$4\r\nPING\r\n", 0);
    assert_eq!(out.responses.len(), 2);
    assert_eq!(out.responses[0], b"+ERR unknown command\r\n".to_vec());
    assert_eq!(out.responses[1], b"+PONG\r\n".to_vec());
    assert!(!out.close);
}

#[test]
fn bad_arity_gets_an_error_bulk_string() {
    let mut node = master();
    let out = send(&mut node, b"*3\r\n$3\r\nGET\r\n$1\r\na\r\n$1\r\nb\r\n", 0);
    assert_eq!(joined(&out), b"$33\r\n(error) wrong number of arguments\r\n".to_vec());
}

#[test]
fn bad_px_token_is_a_bad_argument() {
    let mut node = master();
    let out = send(&mut node, b"*5\r\n$3\r\nSET\r\n$1\r\nk\r\n$1\r\nv\r\n$2\r\nEX\r\n$2\r\n10\r\n", 0);
    assert_eq!(joined(&out), b"$24\r\n(error) invalid argument\r\n".to_vec());
    let out = send(&mut node, b"*2\r\n$3\r\nGET\r\n$1\r\nk\r\n", 0);
    assert_eq!(joined(&out), b"$-1\r\n".to_vec());
}

#[test]
fn unparseable_or_zero_px_is_a_bad_argument() {
    let mut node = master();
    let out = send(&mut node, b"*5\r\n$3\r\nSET\r\n$1\r\nk\r\n$1\r\nv\r\n$2\r\npx\r\n$2\r\n1x\r\n", 0);
    assert_eq!(joined(&out), b"$24\r\n(error) invalid argument\r\n".to_vec());
    let out = send(&mut node, b"*5\r\n$3\r\nSET\r\n$1\r\nk\r\n$1\r\nv\r\n$2\r\npx\r\n$1\r\n0\r\n", 0);
    assert_eq!(joined(&out), b"$24\r\n(error) invalid argument\r\n".to_vec());
    let out = send(
        &mut node,
        b"*5\r\n$3\r\nSET\r\n$1\r\nk\r\n$1\r\nv\r\n$2\r\npx\r\n$20\r\n99999999999999999999\r\n",
        0,
    );
    assert_eq!(joined(&out), b"$24\r\n(error) invalid argument\r\n".to_vec());
}

#[test]
fn non_string_argument_is_a_bad_argument() {
    let mut node = master();
    let out = send(&mut node, b"*2\r\n$4\r\nECHO\r\n:5\r\n", 0);
    assert_eq!(joined(&out), b"$24\r\n(error) invalid argument\r\n".to_vec());
}

#[test]
fn malformed_request_closes_the_connection() {
    let mut node = master();
    let out = send(&mut node, b"*1\r\n$4\r\nPING\r\n!junk", 0);
    assert_eq!(joined(&out), b"+PONG\r\n".to_vec());
    assert!(out.close);
    assert_eq!(out.consumed, 14);
}

#[test]
fn a_value_that_is_not_an_array_closes_the_connection() {
    let mut node = master();
    let out = send(&mut node, b"+PING\r\n", 0);
    assert!(out.responses.is_empty());
    assert!(out.close);
}

#[test]
fn replconf_records_the_replica_port() {
    let mut node = master();
    let out = send(&mut node, b"*3\r\n$8\r\nREPLCONF\r\n$14\r\nlistening-port\r\n$4\r\n6380\r\n", 0);
    assert_eq!(joined(&out), b"+OK\r\n".to_vec());
    assert_eq!(node.info.get("listening-port".to_string()).value(), "6380");
    let out = send(&mut node, b"*3\r\n$8\r\nREPLCONF\r\n$4\r\nCAPA\r\n$5\r\npsync\r\n", 0);
    assert_eq!(joined(&out), b"+OK\r\n".to_vec());
    assert_eq!(node.info.get("capa".to_string()).value(), "psync");
}

#[test]
fn replconf_with_another_key_is_a_bad_argument() {
    let mut node = master();
    let out = send(&mut node, b"*3\r\n$8\r\nREPLCONF\r\n$3\r\nfoo\r\n$1\r\n1\r\n", 0);
    assert_eq!(joined(&out), b"$24\r\n(error) invalid argument\r\n".to_vec());
}

#[test]
fn psync_with_a_known_id_and_offset_is_a_bad_argument() {
    let mut node = master();
    let out = send(&mut node, b"*3\r\n$5\r\nPSYNC\r\n$3\r\nabc\r\n$1\r\n5\r\n", 0);
    assert_eq!(joined(&out), b"$24\r\n(error) invalid argument\r\n".to_vec());
    assert!(!out.promote);
}

#[test]
fn writes_on_a_primary_are_queued_for_replicas_in_order() {
    let mut node = master();
    node.replicas.register(7);
    node.replicas.register(9);
    let w1: &[u8] = b"*3\r\n$3\r\nSET\r\n$1\r\na\r\n$1\r\n1\r\n";
    let w2: &[u8] = b"*3\r\n$3\r\nSET\r\n$1\r\nb\r\n$1\r\n2\r\n";
    let mut both = w1.to_vec();
    both.extend_from_slice(b"*2\r\n$3\r\nGET\r\n$1\r\na\r\n");
    both.extend_from_slice(w2);
    let out = send(&mut node, &both, 0);
    assert_eq!(out.responses.len(), 3);
    let mut expected = w1.to_vec();
    expected.extend_from_slice(w2);
    assert_eq!(node.replicas.take_pending(7), expected);
    assert_eq!(node.replicas.take_pending(9), expected);
    assert!(node.replicas.take_pending(7).is_empty());
}

#[test]
fn writes_on_a_replica_are_not_queued() {
    let mut node = master();
    node.replicas.register(1);
    let w: &[u8] = b"*3\r\n$3\r\nSET\r\n$1\r\na\r\n$1\r\n1\r\n";
    handle_input(w, w.len(), &mut node.db, &mut node.info, &mut node.replicas, 0, false);
    assert!(node.replicas.take_pending(1).is_empty());
}

#[test]
fn failed_write_is_not_queued() {
    let mut node = master();
    node.replicas.register(1);
    send(&mut node, b"*5\r\n$3\r\nSET\r\n$1\r\nk\r\n$1\r\nv\r\n$2\r\nEX\r\n$2\r\n10\r\n", 0);
    assert!(node.replicas.take_pending(1).is_empty());
}

#[test]
fn frame_keeps_the_request_bytes_only() {
    let bytes = b"*2\r\n$4\r\nECHO\r\n$2\r\nhi\r\n*1\r\n$4\r\nPING\r\n";
    let frame = Frame::new(bytes, bytes.len()).unwrap();
    assert_eq!(frame.command(), Command::Echo);
    assert_eq!(frame.args(), Some(vec!["hi".to_string()]));
    assert_eq!(frame.bytes_vec(), b"*2\r\n$4\r\nECHO\r\n$2\r\nhi\r\n".to_vec());
    assert_eq!(frame.serialize(), None);
}

#[test]
fn frame_of_a_bare_verb_has_no_args() {
    let bytes = b"*1\r\n$4\r\nINFO\r\n";
    let frame = Frame::new(bytes, bytes.len()).unwrap();
    assert_eq!(frame.command(), Command::Info);
    assert_eq!(frame.args(), None);
}

#[test]
fn frame_takes_simple_strings_as_arguments() {
    let bytes = b"*2\r\n$4\r\nECHO\r\n+hi\r\n";
    let frame = Frame::new(bytes, bytes.len()).unwrap();
    assert_eq!(frame.args(), Some(vec!["hi".to_string()]));
}

#[test]
fn frame_reads_only_the_first_len_bytes() {
    let bytes = b"*1\r\n$4\r\nPING\r\n";
    assert!(matches!(Frame::new(bytes, 10), Err(Error::Protocol)));
}

#[test]
fn frame_errors() {
    assert!(matches!(Frame::new(b"*0\r\n", 4), Err(Error::UnknownCommand)));
    assert!(matches!(Frame::new(b"*1\r\n$3\r\nFOO\r\n", 13), Err(Error::UnknownCommand)));
    assert!(matches!(Frame::new(b"*1\r\n+PING\r\n", 11), Err(Error::UnknownCommand)));
    assert!(matches!(Frame::new(b"*1\r\n$4\r\nECHO\r\n", 14), Err(Error::BadArity)));
    assert!(matches!(Frame::new(b"*2\r\n$4\r\nPING\r\n$1\r\nx\r\n", 21), Err(Error::BadArity)));
    assert!(matches!(
        Frame::new(b"*4\r\n$3\r\nSET\r\n$1\r\nk\r\n$1\r\nv\r\n$2\r\nPX\r\n", 35),
        Err(Error::BadArity)
    ));
    assert!(matches!(Frame::new(b"*2\r\n$3\r\nGET\r\n$-1\r\n", 18), Err(Error::BadArgument)));
    assert!(matches!(Frame::new(b":1\r\n", 4), Err(Error::Protocol)));
}

#[test]
fn create_response_dispatches_by_verb() {
    let mut db = Keyspace::new();
    let mut info = Database::new();
    init_info_db(&mut info, &master_args()).unwrap();
    let bytes = b"*1\r\n$4\r\nPING\r\n";
    let frame = Frame::new(bytes, bytes.len()).unwrap();
    let r = create_response(&frame, &mut db, &mut info, 0).unwrap();
    assert_eq!(r, vec![b"+PONG\r\n".to_vec()]);
}

#[test]
fn error_replies() {
    assert_eq!(error_bytes(Error::UnknownCommand), b"+ERR unknown command\r\n".to_vec());
    assert_eq!(error_bytes(Error::Protocol), b"+ERR protocol error\r\n".to_vec());
    assert_eq!(
        error_bytes(Error::BadArity),
        b"$33\r\n(error) wrong number of arguments\r\n".to_vec()
    );
    assert_eq!(error_bytes(Error::BadArgument), b"$24\r\n(error) invalid argument\r\n".to_vec());
}

#[test]
fn keyspace_get_after_set_and_overwrite() {
    let mut ks = Keyspace::new();
    ks.set("k".to_string(), SetValue::new("v".to_string()));
    assert_eq!(ks.get(&"k".to_string(), 0), Some("v".to_string()));
    assert_eq!(ks.get(&"k".to_string(), u64::MAX), Some("v".to_string()));
    ks.set("other".to_string(), SetValue::new("x".to_string()));
    assert_eq!(ks.get(&"k".to_string(), 5), Some("v".to_string()));
    ks.set("k".to_string(), SetValue::new("w".to_string()));
    assert_eq!(ks.get(&"k".to_string(), 5), Some("w".to_string()));
    assert_eq!(ks.get(&"missing".to_string(), 5), None);
}

#[test]
fn keyspace_px_expiry_boundary() {
    let mut ks = Keyspace::new();
    ks.set("k".to_string(), SetValue::new_with_expiry("v".to_string(), 100, 1000));
    assert_eq!(ks.get(&"k".to_string(), 1000), Some("v".to_string()));
    assert_eq!(ks.get(&"k".to_string(), 1099), Some("v".to_string()));
    assert_eq!(ks.get(&"k".to_string(), 1100), None);
    assert_eq!(ks.get(&"k".to_string(), 1000), None);
}

#[test]
fn keyspace_expiry_past_the_last_instant_never_expires() {
    let mut ks = Keyspace::new();
    ks.set("k".to_string(), SetValue::new_with_expiry("v".to_string(), u64::MAX, 10));
    assert_eq!(ks.get(&"k".to_string(), u64::MAX), Some("v".to_string()));
}

#[test]
fn expired_entry_is_replaced_by_a_new_write() {
    let mut ks = Keyspace::new();
    ks.set("k".to_string(), SetValue::new_with_expiry("old".to_string(), 1, 0));
    ks.set("k".to_string(), SetValue::new("new".to_string()));
    assert_eq!(ks.get(&"k".to_string(), 50), Some("new".to_string()));
}

#[test]
fn info_store_get_insert_and_listing() {
    let mut db = Database::new();
    assert_eq!(db.get("role".to_string()).value(), "(nil)");
    db.insert("role".to_string(), DbEntry::new("master".to_string(), None, 0));
    db.insert("port".to_string(), DbEntry::new("1".to_string(), Some(5), 0));
    db.insert("role".to_string(), DbEntry::new("slave".to_string(), None, 0));
    assert_eq!(db.get("role".to_string()).value(), "slave");
    assert_eq!(db.get_all(), vec!["role:slave\n".to_string(), "port:1\n".to_string()]);
}

#[test]
fn init_info_db_for_a_replica() {
    let mut db = Database::new();
    let args = Args {
        addr: "127.0.0.1".to_string(),
        port: "6380".to_string(),
        replicaof: Some(vec!["localhost".to_string(), "6379".to_string()]),
    };
    init_info_db(&mut db, &args).unwrap();
    assert_eq!(
        db.get_all(),
        vec![
            "role:slave\n".to_string(),
            "tcp_port:6380\n".to_string(),
            "master_host:localhost\n".to_string(),
            "master_port:6379\n".to_string(),
            "connected_slaves:0\n".to_string(),
            "master_replid:?\n".to_string(),
            "master_repl_offset:-1\n".to_string(),
        ]
    );
}

#[test]
fn init_info_db_refuses_a_bad_replicaof() {
    let mut db = Database::new();
    let args = Args {
        addr: "127.0.0.1".to_string(),
        port: "6380".to_string(),
        replicaof: Some(vec!["localhost".to_string()]),
    };
    assert!(matches!(init_info_db(&mut db, &args), Err(Error::BadArgument)));
    assert!(db.get_all().is_empty());
}

#[test]
fn request_cut_short_waits_for_more_bytes() {
    let mut node = master();
    let whole: &[u8] = b"*1\r\n$4\r\nPING\r\n*2\r\n$4\r\nECHO\r\n$5\r\nhello\r\n";
    let out = send(&mut node, &whole[..20], 0);
    assert_eq!(joined(&out), b"+PONG\r\n".to_vec());
    assert_eq!(out.consumed, 14);
    assert!(!out.close && !out.promote);
    let out = send(&mut node, &whole[14..], 0);
    assert_eq!(joined(&out), b"$5\r\nhello\r\n".to_vec());
    assert_eq!(out.consumed, whole.len() - 14);
}

#[test]
fn cut_short_at_every_point_never_closes() {
    let whole: &[u8] = b"*3\r\n$3\r\nSET\r\n$3\r\nfoo\r\n$3\r\nbar\r\n";
    for cut in 0..whole.len() {
        let mut node = master();
        let out = send(&mut node, &whole[..cut], 0);
        assert!(!out.close, "closed at {}", cut);
        assert_eq!(out.consumed, 0);
        assert!(out.responses.is_empty());
    }
}
