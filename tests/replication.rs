use resp_server::handshake::{handshake_step, parse_full_resync, HandshakeEvent, HandshakeState};
use resp_server::replication::ReplicaRegistry;

#[test]
fn handshake_sends_each_request_in_turn() {
    let port = "6380".to_string();
    let (s, m) = handshake_step(HandshakeState::Connecting, HandshakeEvent::Connected, &port);
    assert_eq!(s, HandshakeState::AwaitingPong);
    assert_eq!(m, Some(b"*1\r\n$4\r\nPING\r\n".to_vec()));
    let (s, m) = handshake_step(s, HandshakeEvent::Reply, &port);
    assert_eq!(s, HandshakeState::AwaitingPortAck);
    assert_eq!(
        m,
        Some(b"*3\r\n$8\r\nREPLCONF\r\n$14\r\nlistening-port\r\n$4\r\n6380\r\n".to_vec())
    );
    let (s, m) = handshake_step(s, HandshakeEvent::Reply, &port);
    assert_eq!(s, HandshakeState::AwaitingCapaAck);
    assert_eq!(m, Some(b"*3\r\n$8\r\nREPLCONF\r\n$4\r\ncapa\r\n$5\r\npsync\r\n".to_vec()));
    let (s, m) = handshake_step(s, HandshakeEvent::Reply, &port);
    assert_eq!(s, HandshakeState::AwaitingFullResync);
    assert_eq!(m, Some(b"*3\r\n$5\r\nPSYNC\r\n$1\r\n?\r\n$2\r\n-1\r\n".to_vec()));
    let (s, m) = handshake_step(s, HandshakeEvent::Reply, &port);
    assert_eq!(s, HandshakeState::Streaming);
    assert_eq!(m, None);
    let (s, m) = handshake_step(s, HandshakeEvent::Reply, &port);
    assert_eq!(s, HandshakeState::Streaming);
    assert_eq!(m, None);
}

#[test]
fn lost_connection_restarts_the_handshake() {
    let port = "1".to_string();
    let (s, m) = handshake_step(HandshakeState::AwaitingCapaAck, HandshakeEvent::Lost, &port);
    assert_eq!(s, HandshakeState::Connecting);
    assert_eq!(m, None);
    let (s, m) = handshake_step(HandshakeState::Connecting, HandshakeEvent::Reply, &port);
    assert_eq!(s, HandshakeState::Connecting);
    assert_eq!(m, None);
}

#[test]
fn full_resync_reply_is_measured() {
    let mut bytes = b"+FULLRESYNC abc 0\r\n$3\r\nxyz".to_vec();
    assert_eq!(parse_full_resync(&bytes), Some(bytes.len()));
    bytes.extend_from_slice(b"*1\r\n$4\r\nPING\r\n");
    assert_eq!(parse_full_resync(&bytes), Some(26));
}

#[test]
fn incomplete_or_other_reply_is_not_a_full_resync() {
    assert_eq!(parse_full_resync(b"+FULLRESYNC abc 0\r\n$3\r\nxy"), None);
    assert_eq!(parse_full_resync(b"+FULLRESYNC abc 0\r\n"), None);
    assert_eq!(parse_full_resync(b"+OK\r\n$3\r\nxyz"), None);
    assert_eq!(parse_full_resync(b"$3\r\nxyz"), None);
    assert_eq!(parse_full_resync(b"+fullresync x 1\r\n$0\r\n"), Some(21));
}

#[test]
fn registry_queues_writes_in_order_for_every_replica() {
    let mut reg = ReplicaRegistry::new();
    reg.register(1);
    reg.propagate(b"w1");
    reg.register(2);
    reg.propagate(b"w2");
    reg.propagate(b"w3");
    assert_eq!(reg.ids(), vec![1, 2]);
    assert_eq!(reg.take_pending(1), b"w1w2w3".to_vec());
    assert_eq!(reg.take_pending(2), b"w2w3".to_vec());
    assert_eq!(reg.take_pending(1), Vec::<u8>::new());
    reg.propagate(b"w4");
    assert_eq!(reg.take_pending(2), b"w4".to_vec());
}

#[test]
fn registry_drops_a_failed_replica_and_keeps_the_order_of_the_rest() {
    let mut reg = ReplicaRegistry::new();
    reg.register(1);
    reg.register(2);
    reg.register(3);
    reg.remove(2);
    assert_eq!(reg.ids(), vec![1, 3]);
    reg.remove(42);
    assert_eq!(reg.ids(), vec![1, 3]);
    assert_eq!(reg.take_pending(2), Vec::<u8>::new());
}
