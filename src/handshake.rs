use vstd::prelude::*;
use vstd::string::StrSliceExecFns;

use crate::command::{folds_to, same_word};
use crate::parse::{line, parse, parse_crlf, parse_resp, parse_usize};
use crate::resptype::{
    all_digits, digits_value, hex_well_formed, lemma_values_of, ser, Type, Value,
};

verus! {

/// Where a replica stands in its handshake with the primary.
#[derive(Debug, Clone, Copy, PartialEq, Eq, Structural)]
pub enum HandshakeState {
    Connecting,
    AwaitingPong,
    AwaitingPortAck,
    AwaitingCapaAck,
    AwaitingFullResync,
    Streaming,
}

/// What happened on the connection to the primary.
#[derive(Debug, Clone, Copy, PartialEq, Eq, Structural)]
pub enum HandshakeEvent {
    /// The connection was made.
    Connected,
    /// The primary answered.
    Reply,
    /// The connection was lost, or a read timed out.
    Lost,
}

/// A request as the primary reads it: an array of bulk strings.
pub open spec fn request(words: Seq<Seq<char>>) -> Seq<u8> {
    ser(Value::Array(Seq::new(words.len(), |i: int| Value::Bulk(words[i]))))
}

/// The request a replica sends on entering `next`, if any.
pub open spec fn message_for(next: HandshakeState, port: Seq<char>) -> Option<Seq<u8>> {
    match next {
        HandshakeState::AwaitingPong => Some(request(seq!["PING"@])),
        HandshakeState::AwaitingPortAck => Some(request(seq!["REPLCONF"@, "listening-port"@, port])),
        HandshakeState::AwaitingCapaAck => Some(request(seq!["REPLCONF"@, "capa"@, "psync"@])),
        HandshakeState::AwaitingFullResync => Some(request(seq!["PSYNC"@, "?"@, "-1"@])),
        _ => None,
    }
}

/// The state after `event`: each answer moves the handshake one step on, and a lost
/// connection starts it over.
pub open spec fn next_state(state: HandshakeState, event: HandshakeEvent) -> HandshakeState {
    match (state, event) {
        (_, HandshakeEvent::Lost) => HandshakeState::Connecting,
        (HandshakeState::Connecting, HandshakeEvent::Connected) => HandshakeState::AwaitingPong,
        (HandshakeState::AwaitingPong, HandshakeEvent::Reply) => HandshakeState::AwaitingPortAck,
        (HandshakeState::AwaitingPortAck, HandshakeEvent::Reply) => HandshakeState::AwaitingCapaAck,
        (HandshakeState::AwaitingCapaAck, HandshakeEvent::Reply) => HandshakeState::AwaitingFullResync,
        (HandshakeState::AwaitingFullResync, HandshakeEvent::Reply) => HandshakeState::Streaming,
        (s, _) => s,
    }
}

/// The wire form of a request made of `words`.
fn request_bytes(words: Vec<String>) -> (r: Vec<u8>)
    ensures
        r@ == request(words@.map_values(|s: String| s@)),
{
    let ghost ws = words@.map_values(|s: String| s@);
    let mut items: Vec<Type> = Vec::new();
    let mut i: usize = 0;
    while i < words.len()
        invariant
            i <= words@.len(),
            ws == words@.map_values(|s: String| s@),
            items@.len() == i,
            forall|j: int| 0 <= j < i ==> (#[trigger] items@[j])@ == Value::Bulk(ws[j]),
        decreases words.len() - i,
    {
        items.push(Type::BulkString(words[i].clone()));
        i += 1;
    }
    proof {
        lemma_values_of(items@);
        assert(Type::Array(items)@->Array_0 =~= Seq::new(ws.len(), |j: int| Value::Bulk(ws[j])));
        assert forall|j: int| 0 <= j < items@.len() implies hex_well_formed(
            #[trigger] Type::Array(items)@->Array_0[j],
        ) by {}
    }
    Type::Array(items).serialize()
}

/// Moves the handshake on by `event`, and gives the request to send to the primary, if any.
pub fn handshake_step(state: HandshakeState, event: HandshakeEvent, port: &String) -> (r: (
    HandshakeState,
    Option<Vec<u8>>,
))
    ensures
        r.0 == next_state(state, event),
        match r.1 {
            Some(b) => r.0 != state && message_for(r.0, port@) == Some(b@),
            None => r.0 == state || message_for(r.0, port@) is None,
        },
{
    let next = match (state, event) {
        (_, HandshakeEvent::Lost) => HandshakeState::Connecting,
        (HandshakeState::Connecting, HandshakeEvent::Connected) => HandshakeState::AwaitingPong,
        (HandshakeState::AwaitingPong, HandshakeEvent::Reply) => HandshakeState::AwaitingPortAck,
        (HandshakeState::AwaitingPortAck, HandshakeEvent::Reply) => HandshakeState::AwaitingCapaAck,
        (HandshakeState::AwaitingCapaAck, HandshakeEvent::Reply) => HandshakeState::AwaitingFullResync,
        (HandshakeState::AwaitingFullResync, HandshakeEvent::Reply) => HandshakeState::Streaming,
        (s, _) => s,
    };
    if next == state {
        return (next, None);
    }
    let words: Vec<String> = match next {
        HandshakeState::AwaitingPong => vec!["PING".to_string()],
        HandshakeState::AwaitingPortAck => vec![
            "REPLCONF".to_string(),
            "listening-port".to_string(),
            port.clone(),
        ],
        HandshakeState::AwaitingCapaAck => vec![
            "REPLCONF".to_string(),
            "capa".to_string(),
            "psync".to_string(),
        ],
        HandshakeState::AwaitingFullResync => vec![
            "PSYNC".to_string(),
            "?".to_string(),
            "-1".to_string(),
        ],
        _ => return (next, None),
    };
    let ghost ws = words@.map_values(|s: String| s@);
    proof {
        match next {
            HandshakeState::AwaitingPong => assert(ws =~= seq!["PING"@]),
            HandshakeState::AwaitingPortAck => assert(ws =~= seq![
                "REPLCONF"@,
                "listening-port"@,
                port@,
            ]),
            HandshakeState::AwaitingCapaAck => assert(ws =~= seq!["REPLCONF"@, "capa"@, "psync"@]),
            _ => assert(ws =~= seq!["PSYNC"@, "?"@, "-1"@]),
        }
    }
    (next, Some(request_bytes(words)))
}

/// The length of a snapshot transfer at the start of `b`: `$`, a length line, then that many
/// bytes, with no CRLF after them.
pub open spec fn snapshot_len(b: Seq<u8>) -> Option<nat> {
    if b.len() > 0 && b[0] == 36 {
        match line(b.drop_first()) {
            Some((text, hl)) => if all_digits(text) && 1 + hl + digits_value(text) <= b.len() {
                Some(1 + hl + digits_value(text))
            } else {
                None
            },
            None => None,
        }
    } else {
        None
    }
}

/// The length of the primary's answer to PSYNC at the start of `b`: a simple string that
/// starts with the word FULLRESYNC, then the snapshot transfer.
pub open spec fn full_resync_len(b: Seq<u8>) -> Option<nat> {
    match parse(b) {
        Some((Value::Simple(t), n)) => if t.len() >= 10 && same_word(t.take(10), "fullresync"@) {
            match snapshot_len(b.skip(n as int)) {
                Some(m) => Some(n + m),
                None => None,
            }
        } else {
            None
        },
        _ => None,
    }
}

/// The count of bytes that the primary's answer to PSYNC takes at the start of `buf`, if it is
/// all there: what follows it is the stream of replicated writes.
pub fn parse_full_resync(buf: &[u8]) -> (r: Option<usize>)
    ensures
        match r {
            Some(n) => full_resync_len(buf@) == Some(n as nat),
            None => full_resync_len(buf@) is None,
        },
{
    let (value, n) = match parse_resp(buf) {
        Ok(p) => p,
        Err(_) => return None,
    };
    let text = match &value {
        Type::SimpleString(t) => t,
        _ => return None,
    };
    proof {
        reveal_strlit("fullresync");
    }
    if !starts_with_word(text.as_str(), "fullresync") {
        return None;
    }
    assert(buf@.len() == buf.len());
    if n >= buf.len() || buf[n] != 36 {
        return None;
    }
    assert(buf@.skip(n as int).drop_first() =~= buf@.skip(n + 1));
    let k = match parse_crlf(buf, n + 1) {
        Some(k) => k,
        None => return None,
    };
    let len = match parse_usize(buf, n + 1, k) {
        Some(len) => len,
        None => return None,
    };
    let start = k + 2;
    if len > buf.len() - start {
        return None;
    }
    Some(start + len)
}

/// `s` begins with the lower-case word `word`, ignoring ASCII case.
fn starts_with_word(s: &str, word: &str) -> (r: bool)
    ensures
        r == (s@.len() >= word@.len() && same_word(s@.take(word@.len() as int), word@)),
{
    let n = word.unicode_len();
    if s.unicode_len() < n {
        return false;
    }
    let mut i: usize = 0;
    while i < n
        invariant
            n == word@.len(),
            n <= s@.len(),
            i <= n,
            forall|j: int| 0 <= j < i ==> folds_to(s@[j], word@[j]),
        decreases n - i,
    {
        let c = s.get_char(i);
        let w = word.get_char(i);
        if !(c == w || ('A' <= c && c <= 'Z' && c as u32 + 32 == w as u32)) {
            return false;
        }
        i += 1;
    }
    true
}

} // verus!
