use vstd::prelude::*;

use crate::command::{command_named, Command};
use crate::error::Error;
use crate::parse::{lemma_parse_prefix, parse, parse_resp};
use crate::resptype::{lemma_values_of, push_all, Type, Value};

verus! {

/// What a frame holds: its verb, its arguments (none for a bare verb) and the request's bytes.
pub struct FrameView {
    pub command: Command,
    pub args: Option<Seq<Seq<char>>>,
    pub bytes: Seq<u8>,
}

/// A request read off the wire and checked: its verb, its arguments, and the bytes it came in,
/// kept so that a write can be passed on to replicas as it was received.
#[derive(Debug)]
pub struct Frame {
    command: Command,
    args: Option<Vec<String>>,
    bytes_vec: Vec<u8>,
}

/// The counts of arguments each verb accepts, not counting the verb itself.
pub open spec fn arity_ok(c: Command, n: nat) -> bool {
    match c {
        Command::Ping => n == 0,
        Command::Echo => n == 1,
        Command::Get => n == 1,
        Command::SetKey => n == 2 || n == 4,
        Command::Info => n == 0 || n == 1,
        Command::ReplConf => n == 2,
        Command::PSync => n == 2,
    }
}

/// The text of an argument: a bulk or a simple string.
pub open spec fn arg_of(v: Value) -> Option<Seq<char>> {
    match v {
        Value::Bulk(s) => Some(s),
        Value::Simple(s) => Some(s),
        _ => None,
    }
}

/// The frame that the start of `b` holds, or why there is none: malformed RESP or a value that
/// is not an array; an empty array or an unknown verb; a count of arguments that the verb does
/// not take; an argument that is not a string.
pub open spec fn frame_of(b: Seq<u8>) -> Result<FrameView, Error> {
    match parse(b) {
        None => Err(Error::Protocol),
        Some((Value::Array(items), n)) => {
            if items.len() == 0 {
                Err(Error::UnknownCommand)
            } else {
                match command_named(items[0]) {
                    None => Err(Error::UnknownCommand),
                    Some(c) => {
                        if !arity_ok(c, (items.len() - 1) as nat) {
                            Err(Error::BadArity)
                        } else if exists|i: int|
                            1 <= i < items.len() && #[trigger] arg_of(items[i]) is None {
                            Err(Error::BadArgument)
                        } else {
                            Ok(
                                FrameView {
                                    command: c,
                                    args: if items.len() == 1 {
                                        None
                                    } else {
                                        Some(
                                            Seq::new(
                                                (items.len() - 1) as nat,
                                                |i: int| arg_of(items[i + 1])->0,
                                            ),
                                        )
                                    },
                                    bytes: b.take(n as int),
                                },
                            )
                        }
                    },
                }
            }
        },
        Some(_) => Err(Error::Protocol),
    }
}

/// The text of an argument value, if it is a string.
fn arg_text(t: &Type) -> (r: Option<String>)
    ensures
        match r {
            Some(s) => arg_of(t@) == Some(s@),
            None => arg_of(t@) is None,
        },
{
    match t {
        Type::BulkString(s) => Some(s.clone()),
        Type::SimpleString(s) => Some(s.clone()),
        _ => None,
    }
}

impl View for Frame {
    type V = FrameView;

    closed spec fn view(&self) -> FrameView {
        FrameView {
            command: self.command,
            args: match self.args {
                Some(a) => Some(a@.map_values(|s: String| s@)),
                None => None,
            },
            bytes: self.bytes_vec@,
        }
    }
}

impl Frame {
    /// Reads the request at the start of `buffer[..len]`. The frame keeps the bytes of that
    /// request alone, so that what follows in the buffer can be read next.
    pub fn new(buffer: &[u8], len: usize) -> (r: Result<Self, Error>)
        requires
            len <= buffer@.len(),
        ensures
            match r {
                Ok(f) => frame_of(buffer@.take(len as int)) == Ok::<FrameView, Error>(f@),
                Err(e) => frame_of(buffer@.take(len as int)) == Err::<FrameView, Error>(e),
            },
    {
        let input = &buffer[0..len];
        assert(input@ == buffer@.take(len as int));
        let (value, n) = match parse_resp(input) {
            Ok(p) => p,
            Err(e) => return Err(e),
        };
        let tokens = match value {
            Type::Array(tokens) => tokens,
            _ => return Err(Error::Protocol),
        };
        let ghost items = value@->Array_0;
        proof {
            lemma_values_of(tokens@);
        }
        if tokens.len() == 0 {
            return Err(Error::UnknownCommand);
        }
        let command = match Command::from_type(&tokens[0]) {
            Ok(c) => c,
            Err(e) => return Err(e),
        };
        let count = tokens.len() - 1;
        let fits = match command {
            Command::Ping => count == 0,
            Command::Echo => count == 1,
            Command::Get => count == 1,
            Command::SetKey => count == 2 || count == 4,
            Command::Info => count == 0 || count == 1,
            Command::ReplConf => count == 2,
            Command::PSync => count == 2,
        };
        if !fits {
            return Err(Error::BadArity);
        }
        let mut args: Vec<String> = Vec::new();
        let mut i: usize = 1;
        while i < tokens.len()
            invariant
                parse(buffer@.take(len as int)) == Some((Value::Array(items), n as nat)),
                command_named(items[0]) == Some(command),
                arity_ok(command, (items.len() - 1) as nat),
                count == tokens@.len() - 1,
                1 <= i <= tokens@.len(),
                items == value@->Array_0,
                items.len() == tokens@.len(),
                forall|j: int| 0 <= j < items.len() ==> items[j] == (#[trigger] tokens@[j])@,
                args@.len() == i - 1,
                forall|j: int|
                    0 <= j < i - 1 ==> arg_of(items[j + 1]) == Some((#[trigger] args@[j])@),
            decreases tokens.len() - i,
        {
            match arg_text(&tokens[i]) {
                Some(s) => args.push(s),
                None => {
                    assert(arg_of(items[i as int]) is None);
                    return Err(Error::BadArgument);
                },
            }
            i += 1;
        }
        proof {
            assert forall|j: int| 1 <= j < items.len() implies #[trigger] arg_of(items[j]) is Some by {
                assert(arg_of(items[(j - 1) + 1]) == Some(args@[j - 1]@));
            }
            if count > 0 {
                assert(args@.map_values(|s: String| s@) =~= Seq::new(
                    (items.len() - 1) as nat,
                    |j: int| arg_of(items[j + 1])->0,
                ));
            }
        }
        let mut bytes_vec: Vec<u8> = Vec::new();
        push_all(&mut bytes_vec, &input[0..n]);
        assert(bytes_vec@ =~= buffer@.take(len as int).take(n as int));
        let arg_list = if count == 0 {
            None
        } else {
            Some(args)
        };
        let frame = Frame { command, args: arg_list, bytes_vec };
        Ok(frame)
    }

    /// The request's verb.
    pub fn command(&self) -> (r: Command)
        ensures
            r == self@.command,
    {
        self.command
    }

    /// The request's arguments; none for a bare verb.
    pub fn args(&self) -> (r: Option<Vec<String>>)
        ensures
            match r {
                Some(a) => self@.args == Some(a@.map_values(|s: String| s@)),
                None => self@.args is None,
            },
    {
        match &self.args {
            Some(a) => {
                let mut out: Vec<String> = Vec::new();
                let mut i: usize = 0;
                while i < a.len()
                    invariant
                        i <= a@.len(),
                        out@.len() == i,
                        forall|j: int| 0 <= j < i ==> (#[trigger] out@[j])@ == a@[j]@,
                    decreases a.len() - i,
                {
                    out.push(a[i].clone());
                    i += 1;
                }
                assert(out@.map_values(|s: String| s@) =~= a@.map_values(|s: String| s@));
                Some(out)
            },
            None => None,
        }
    }

    /// The bytes the request came in.
    pub fn bytes_vec(&self) -> (r: Vec<u8>)
        ensures
            r@ == self@.bytes,
    {
        let mut out: Vec<u8> = Vec::new();
        push_all(&mut out, self.bytes_vec.as_slice());
        out
    }

    /// A frame is not written out again in a new form: its bytes are sent as they came.
    pub fn serialize(&self) -> (r: Option<Vec<u8>>)
        ensures
            r is None,
    {
        None
    }
}

/// A frame's bytes are one whole request: read on their own, they give the same array, are
/// used up exactly, and make the same frame.
pub proof fn law_frame_bytes_parse_back(b: Seq<u8>)
    ensures
        frame_of(b) matches Ok(f) ==> {
            &&& parse(f.bytes) == parse(b)
            &&& parse(f.bytes) matches Some((Value::Array(_), n)) && n == f.bytes.len()
            &&& frame_of(f.bytes) == frame_of(b)
        },
{
    if frame_of(b) is Ok {
        let f = frame_of(b)->Ok_0;
        let (_, n) = parse(b)->0;
        crate::parse::lemma_parse_bounds(b);
        lemma_parse_prefix(b, n as int);
        assert(f.bytes == b.take(n as int));
        assert(f.bytes.take(n as int) =~= f.bytes);
    }
}

} // verus!
