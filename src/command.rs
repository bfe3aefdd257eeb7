use vstd::prelude::*;
use vstd::string::StrSliceExecFns;

use crate::error::Error;
use crate::resptype::{Type, Value};

verus! {

/// The verbs this server understands.
#[derive(Debug, Clone, Copy, PartialEq, Eq, Structural)]
pub enum Command {
    Ping,
    Echo,
    Get,
    SetKey,
    Info,
    ReplConf,
    PSync,
}

/// `c` is `w`, or its upper-case ASCII form.
pub open spec fn folds_to(c: char, w: char) -> bool {
    c == w || ('A' <= c <= 'Z' && c as u32 + 32 == w as u32)
}

/// `s` spells the lower-case word `word`, ignoring ASCII case.
pub open spec fn same_word(s: Seq<char>, word: Seq<char>) -> bool {
    s.len() == word.len() && forall|i: int| 0 <= i < s.len() ==> folds_to(s[i], word[i])
}

/// Whether `s` spells the lower-case word `word`, ignoring ASCII case.
pub fn is_word(s: &str, word: &str) -> (r: bool)
    ensures
        r == same_word(s@, word@),
{
    let n = s.unicode_len();
    if n != word.unicode_len() {
        return false;
    }
    let mut i: usize = 0;
    while i < n
        invariant
            n == s@.len(),
            n == word@.len(),
            i <= n,
            forall|j: int| 0 <= j < i ==> folds_to(s@[j], word@[j]),
        decreases n - i,
    {
        let c = s.get_char(i);
        let w = word.get_char(i);
        if !(c == w || ('A' <= c && c <= 'Z' && c as u32 + 32 == w as u32)) {
            return false;
        }
        i += 1;
    }
    true
}

/// The verb that a name spells, ignoring ASCII case.
pub open spec fn command_of(name: Seq<char>) -> Option<Command> {
    if same_word(name, "ping"@) {
        Some(Command::Ping)
    } else if same_word(name, "echo"@) {
        Some(Command::Echo)
    } else if same_word(name, "get"@) {
        Some(Command::Get)
    } else if same_word(name, "set"@) {
        Some(Command::SetKey)
    } else if same_word(name, "info"@) {
        Some(Command::Info)
    } else if same_word(name, "replconf"@) {
        Some(Command::ReplConf)
    } else if same_word(name, "psync"@) {
        Some(Command::PSync)
    } else {
        None
    }
}

/// The verb that a request's first value names: a bulk string that spells one.
pub open spec fn command_named(v: Value) -> Option<Command> {
    match v {
        Value::Bulk(name) => command_of(name),
        _ => None,
    }
}

impl Command {
    /// The verb that `value` names; an unknown verb, or a value that is not a bulk string,
    /// is an unknown command.
    pub fn from_type(value: &Type) -> (r: Result<Command, Error>)
        ensures
            r == match command_named(value@) {
                Some(c) => Ok::<Command, Error>(c),
                None => Err(Error::UnknownCommand),
            },
    {
        match value {
            Type::BulkString(s) => {
                let name = s.as_str();
                if is_word(name, "ping") {
                    Ok(Command::Ping)
                } else if is_word(name, "echo") {
                    Ok(Command::Echo)
                } else if is_word(name, "get") {
                    Ok(Command::Get)
                } else if is_word(name, "set") {
                    Ok(Command::SetKey)
                } else if is_word(name, "info") {
                    Ok(Command::Info)
                } else if is_word(name, "replconf") {
                    Ok(Command::ReplConf)
                } else if is_word(name, "psync") {
                    Ok(Command::PSync)
                } else {
                    Err(Error::UnknownCommand)
                }
            },
            _ => Err(Error::UnknownCommand),
        }
    }
}

} // verus!
