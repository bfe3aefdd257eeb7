use vstd::prelude::*;
use vstd::utf8::*;

use crate::error::Error;
use crate::resptype::{
    crlf, decimal, ser, ser_list, all_digits, digits_value, is_digit, lemma_values_of_push, value_of, values_of, Type, Value, CR, LF,
};

verus! {

/// `k` is where the first line of `b` ends: the first CR, and an LF after it.
pub open spec fn is_line_end(b: Seq<u8>, k: int) -> bool {
    &&& 0 <= k && k + 1 < b.len()
    &&& b[k] == CR && b[k + 1] == LF
    &&& forall|i: int| 0 <= i < k ==> b[i] != CR
}

/// The first line of `b`: the bytes before its first CR, and the count of bytes that the
/// line takes with its CRLF. None where there is no CR, or the first one has no LF after it.
pub open spec fn line(b: Seq<u8>) -> Option<(Seq<u8>, nat)> {
    if exists|k: int| is_line_end(b, k) {
        let k = choose|k: int| is_line_end(b, k);
        Some((b.take(k), (k + 2) as nat))
    } else {
        None
    }
}

/// The header text that marks a null bulk string.
pub open spec fn minus_one() -> Seq<u8> {
    seq![45u8, 49u8]
}

/// The value that `b` starts with, and the count of bytes it takes; None where `b` does not
/// start with a complete, well-formed RESP value.
pub open spec fn parse(b: Seq<u8>) -> Option<(Value, nat)>
    decreases b.len(), 0nat,
{
    if b.len() == 0 {
        None
    } else {
        match line(b.drop_first()) {
            None => None,
            Some((text, hl)) => {
                let after = 1 + hl;
                if b[0] == 43 || b[0] == 45 {
                    if valid_utf8(text) {
                        Some((Value::Simple(decode_utf8(text)), after))
                    } else {
                        None
                    }
                } else if b[0] == 58 {
                    if valid_utf8(text) {
                        Some((Value::Integer(decode_utf8(text)), after))
                    } else {
                        None
                    }
                } else if b[0] == 36 {
                    if text == minus_one() {
                        Some((Value::Null, after))
                    } else if all_digits(text) {
                        let n = digits_value(text);
                        let body = b.skip(after as int);
                        if n + 2 <= body.len() && body[n as int] == CR && body[n + 1 as int] == LF
                            && valid_utf8(body.take(n as int)) {
                            Some((Value::Bulk(decode_utf8(body.take(n as int))), after + n + 2))
                        } else {
                            None
                        }
                    } else {
                        None
                    }
                } else if b[0] == 42 {
                    if all_digits(text) && after <= b.len() {
                        match parse_elems(b.skip(after as int), digits_value(text)) {
                            Some((items, c)) => Some((Value::Array(items), after + c)),
                            None => None,
                        }
                    } else {
                        None
                    }
                } else {
                    None
                }
            },
        }
    }
}

/// `n` values, one after another, at the start of `b`, and the count of bytes they take.
pub open spec fn parse_elems(b: Seq<u8>, n: nat) -> Option<(Seq<Value>, nat)>
    decreases b.len(), n + 1,
{
    if n == 0 {
        Some((Seq::empty(), 0))
    } else {
        match parse(b) {
            None => None,
            Some((v, c)) => {
                if 0 < c <= b.len() {
                    match parse_elems(b.skip(c as int), (n - 1) as nat) {
                        Some((rest, c2)) => Some((seq![v] + rest, c + c2)),
                        None => None,
                    }
                } else {
                    None
                }
            },
        }
    }
}

/// A line has one end.
proof fn lemma_line_end_unique(b: Seq<u8>, k1: int, k2: int)
    requires
        is_line_end(b, k1),
        is_line_end(b, k2),
    ensures
        k1 == k2,
{
}

/// Where a line ends, `line` finds it.
proof fn lemma_line_at(b: Seq<u8>, k: int)
    requires
        is_line_end(b, k),
    ensures
        line(b) == Some((b.take(k), (k + 2) as nat)),
{
    let c = choose|j: int| is_line_end(b, j);
    lemma_line_end_unique(b, k, c);
}

/// A line, with its CRLF, lies within the bytes.
pub proof fn lemma_line_bounds(b: Seq<u8>)
    ensures
        line(b) matches Some((text, hl)) ==> hl <= b.len() && hl == text.len() + 2,
{
    if exists|k: int| is_line_end(b, k) {
        let k = choose|k: int| is_line_end(b, k);
        lemma_line_at(b, k);
    }
}

/// A value takes at least one byte, and no more than there are.
pub proof fn lemma_parse_bounds(b: Seq<u8>)
    ensures
        parse(b) matches Some((v, c)) ==> 0 < c <= b.len(),
{
    lemma_line_bounds(b.drop_first());
    if b.len() > 0 && b[0] == 42 {
        match line(b.drop_first()) {
            Some((text, hl)) => {
                if all_digits(text) && 1 + hl <= b.len() {
                    lemma_elems_bounds(b.skip(1 + hl as int), digits_value(text));
                }
            },
            None => {},
        }
    }
}

/// `n` values take at least `n` bytes, and no more than there are.
proof fn lemma_elems_bounds(b: Seq<u8>, n: nat)
    ensures
        parse_elems(b, n) matches Some((items, c)) ==> n <= c <= b.len() && items.len() == n,
    decreases b.len(), n,
{
    if n > 0 {
        match parse(b) {
            Some((v, c)) => {
                if 0 < c <= b.len() {
                    lemma_elems_bounds(b.skip(c as int), (n - 1) as nat);
                }
            },
            None => {},
        }
    }
}

/// A run of digits spells no less than any of its prefixes.
pub proof fn lemma_digits_value_prefix(s: Seq<u8>, j: int)
    requires
        0 <= j <= s.len(),
    ensures
        digits_value(s.take(j)) <= digits_value(s),
    decreases s.len(),
{
    if j < s.len() {
        assert(s.drop_last().take(j) =~= s.take(j));
        lemma_digits_value_prefix(s.drop_last(), j);
    } else {
        assert(s.take(j) =~= s);
    }
}

/// A value reads the same from any prefix of the bytes that still holds all of it.
pub proof fn lemma_parse_prefix(b: Seq<u8>, m: int)
    requires
        parse(b) matches Some((v, n)) && n <= m <= b.len(),
    ensures
        parse(b.take(m)) == parse(b),
    decreases b.len(), 0nat,
{
    let t = b.take(m);
    let (v, n) = parse(b)->0;
    lemma_parse_bounds(b);
    lemma_line_bounds(b.drop_first());
    let (text, hl) = line(b.drop_first())->0;
    let k = choose|k: int| is_line_end(b.drop_first(), k);
    lemma_line_at(b.drop_first(), k);
    assert(n >= 1 + hl);
    assert(forall|i: int| 0 <= i < m - 1 ==> #[trigger] t.drop_first()[i] == b.drop_first()[i]);
    assert(is_line_end(t.drop_first(), k));
    lemma_line_at(t.drop_first(), k);
    assert(t.drop_first().take(k) =~= b.drop_first().take(k));
    let after = 1 + hl;
    if b[0] == 36 && text != minus_one() {
        let len = digits_value(text);
        assert(t.skip(after as int).take(len as int) =~= b.skip(after as int).take(len as int));
        assert(t.skip(after as int)[len as int] == b.skip(after as int)[len as int]);
        assert(t.skip(after as int)[len + 1 as int] == b.skip(after as int)[len + 1 as int]);
    } else if b[0] == 42 {
        let count = digits_value(text);
        let (items, c) = parse_elems(b.skip(after as int), count)->0;
        assert(t.skip(after as int) =~= b.skip(after as int).take(m - after));
        lemma_elems_prefix(b.skip(after as int), count, m - after);
    }
}

/// Values read one after another read the same from any prefix that still holds them all.
pub proof fn lemma_elems_prefix(b: Seq<u8>, count: nat, m: int)
    requires
        parse_elems(b, count) matches Some((items, c)) && c <= m <= b.len(),
    ensures
        parse_elems(b.take(m), count) == parse_elems(b, count),
    decreases b.len(), count + 1,
{
    if count > 0 {
        let (v, c1) = parse(b)->0;
        let (rest, c2) = parse_elems(b.skip(c1 as int), (count - 1) as nat)->0;
        lemma_elems_bounds(b.skip(c1 as int), (count - 1) as nat);
        lemma_parse_prefix(b, m);
        assert(b.take(m).skip(c1 as int) =~= b.skip(c1 as int).take(m - c1));
        lemma_elems_prefix(b.skip(c1 as int), (count - 1) as nat, m - c1);
    }
}

/// Relies on std's `str::from_utf8`: it accepts exactly the valid UTF-8 byte strings, and
/// the text it gives back is the one that those bytes encode.
#[verifier::external_body]
fn utf8_text(b: &[u8]) -> (r: Option<String>)
    ensures
        r is Some <==> valid_utf8(b@),
        r matches Some(s) ==> s@ == decode_utf8(b@),
{
    std::str::from_utf8(b).ok().map(|s| s.to_string())
}

/// Finds where the line that starts at `pos` ends: the index of its CR.
pub(crate) fn parse_crlf(buf: &[u8], pos: usize) -> (r: Option<usize>)
    requires
        pos <= buf@.len(),
    ensures
        match r {
            Some(k) => pos <= k && k + 1 < buf@.len() && is_line_end(buf@.skip(pos as int), k - pos) && line(
                buf@.skip(pos as int),
            ) == Some((buf@.subrange(pos as int, k as int), (k - pos + 2) as nat)),
            None => line(buf@.skip(pos as int)) is None,
        },
{
    let ghost b = buf@.skip(pos as int);
    assert(buf@.len() == buf.len());
    let mut i = pos;
    while i < buf.len() && buf[i] != CR
        invariant
            pos <= i <= buf@.len(),
            b == buf@.skip(pos as int),
            forall|j: int| 0 <= j < i - pos ==> b[j] != CR,
        decreases buf.len() - i,
    {
        i += 1;
    }
    if i < buf.len() && i + 1 < buf.len() && buf[i + 1] == LF {
        proof {
            assert(is_line_end(b, i - pos));
            lemma_line_at(b, i - pos);
            assert(b.take(i - pos) =~= buf@.subrange(pos as int, i as int));
        }
        Some(i)
    } else {
        proof {
            if exists|k: int| is_line_end(b, k) {
                let k = choose|k: int| is_line_end(b, k);
                if k < i - pos {
                } else if k > i - pos {
                    assert(b[i - pos] != CR);
                }
            }
        }
        None
    }
}

/// Reads the decimal number spelled by `buf[from..to]`; None where those bytes are not all
/// digits, or the number does not fit in a `usize`.
pub(crate) fn parse_usize(buf: &[u8], from: usize, to: usize) -> (r: Option<usize>)
    requires
        from <= to <= buf@.len(),
    ensures
        match r {
            Some(n) => all_digits(buf@.subrange(from as int, to as int)) && n == digits_value(
                buf@.subrange(from as int, to as int),
            ),
            None => !all_digits(buf@.subrange(from as int, to as int)) || digits_value(
                buf@.subrange(from as int, to as int),
            ) > usize::MAX,
        },
{
    let ghost s = buf@.subrange(from as int, to as int);
    if from == to {
        return None;
    }
    let mut acc: usize = 0;
    let mut i = from;
    while i < to
        invariant
            from <= i <= to <= buf@.len(),
            s == buf@.subrange(from as int, to as int),
            forall|j: int| 0 <= j < i - from ==> is_digit(#[trigger] s[j]),
            acc == digits_value(s.take(i - from)),
        decreases to - i,
    {
        let c = buf[i];
        if c < 48 || c > 57 {
            assert(!is_digit(s[i - from]));
            return None;
        }
        let d = (c - 48) as usize;
        proof {
            assert(s.take(i - from + 1).drop_last() =~= s.take(i - from));
        }
        if acc > (usize::MAX - d) / 10 {
            proof {
                lemma_digits_value_prefix(s, i - from + 1);
                assert(digits_value(s.take(i - from + 1)) > usize::MAX) by (nonlinear_arith)
                    requires
                        digits_value(s.take(i - from + 1)) == acc * 10 + d,
                        acc > (usize::MAX - d) / 10,
                        d <= 9,
                ;
            }
            return None;
        }
        acc = acc * 10 + d;
        i += 1;
    }
    assert(s.take(to - from) =~= s);
    Some(acc)
}

/// Reads a line of text after a type byte: a simple string, an error or an integer.
fn parse_simple_string(buf: &[u8], pos: usize) -> (r: Result<(String, usize), Error>)
    requires
        pos <= buf@.len(),
    ensures
        match r {
            Ok((s, end)) => line(buf@.skip(pos as int)) matches Some((text, hl)) && valid_utf8(
                text,
            ) && s@ == decode_utf8(text) && end == pos + hl,
            Err(e) => e == Error::Protocol && !(line(buf@.skip(pos as int)) matches Some(
                (text, hl),
            ) && valid_utf8(text)),
        },
{
    assert(buf@.len() == buf.len());
    match parse_crlf(buf, pos) {
        None => Err(Error::Protocol),
        Some(k) => match utf8_text(&buf[pos..k]) {
            None => Err(Error::Protocol),
            Some(s) => Ok((s, k + 2)),
        },
    }
}

/// Reads a bulk string after its `$`: a length line, then that many bytes and a CRLF; a length
/// of -1 gives the null bulk string.
#[verifier::rlimit(40)]
fn parse_bulk_string(buf: &[u8], pos: usize) -> (r: Result<(Type, usize), Error>)
    requires
        1 <= pos <= buf@.len(),
        buf@[pos - 1] == 36,
    ensures
        match r {
            Ok((t, end)) => pos - 1 < end <= buf@.len() && parse(buf@.skip(pos - 1)) == Some(
                (t@, (end - (pos - 1)) as nat),
            ),
            Err(e) => e == Error::Protocol && parse(buf@.skip(pos - 1)) is None,
        },
{
    let ghost b = buf@.skip(pos - 1);
    proof {
        assert(b.drop_first() =~= buf@.skip(pos as int));
        assert(buf@.len() == buf.len());
    }
    let k = match parse_crlf(buf, pos) {
        None => return Err(Error::Protocol),
        Some(k) => k,
    };
    let ghost text = buf@.subrange(pos as int, k as int);
    let ghost after = 1 + (k - pos + 2);
    if k - pos == 2 && buf[pos] == 45 && buf[pos + 1] == 49 {
        assert(text =~= minus_one());
        return Ok((Type::NullBulkString, k + 2));
    }
    assert(text != minus_one()) by {
        if text == minus_one() {
            assert(text[0] == buf@[pos as int]);
        }
    }
    let n = match parse_usize(buf, pos, k) {
        None => {
            proof {
                if all_digits(text) {
                    assert(b.skip(after).len() < digits_value(text) + 2);
                }
            }
            return Err(Error::Protocol);
        },
        Some(n) => n,
    };
    let start = k + 2;
    if n > buf.len() - start || buf.len() - start - n < 2 {
        return Err(Error::Protocol);
    }
    let end = start + n;
    if buf[end] != CR || buf[end + 1] != LF {
        return Err(Error::Protocol);
    }
    proof {
        assert(b.skip(after) =~= buf@.skip(start as int));
        assert(b.skip(after).take(n as int) =~= buf@.subrange(start as int, end as int));
    }
    match utf8_text(&buf[start..end]) {
        None => Err(Error::Protocol),
        Some(s) => Ok((Type::BulkString(s), end + 2)),
    }
}

/// The value that starts at `buf[pos]`, and the index just past it.
pub fn parse_value_at(buf: &[u8], pos: usize) -> (r: Result<(Type, usize), Error>)
    requires
        pos <= buf@.len(),
    ensures
        match r {
            Ok((t, end)) => pos < end <= buf@.len() && parse(buf@.skip(pos as int)) == Some(
                (t@, (end - pos) as nat),
            ),
            Err(e) => e == Error::Protocol && parse(buf@.skip(pos as int)) is None,
        },
    decreases buf@.len() - pos,
{
    let ghost b = buf@.skip(pos as int);
    proof {
        lemma_parse_bounds(b);
    }
    if pos == buf.len() {
        return Err(Error::Protocol);
    }
    proof {
        assert(b.drop_first() =~= buf@.skip(pos + 1));
    }
    let lead = buf[pos];
    if lead == 43 || lead == 45 {
        match parse_simple_string(buf, pos + 1) {
            Ok((s, end)) => Ok((Type::SimpleString(s), end)),
            Err(e) => Err(e),
        }
    } else if lead == 58 {
        match parse_simple_string(buf, pos + 1) {
            Ok((s, end)) => Ok((Type::Integer(s), end)),
            Err(e) => Err(e),
        }
    } else if lead == 36 {
        parse_bulk_string(buf, pos + 1)
    } else if lead == 42 {
        parse_array(buf, pos + 1)
    } else {
        Err(Error::Protocol)
    }
}

/// Reads an array after its `*`: a count line, then that many values.
fn parse_array(buf: &[u8], pos: usize) -> (r: Result<(Type, usize), Error>)
    requires
        1 <= pos <= buf@.len(),
        buf@[pos - 1] == 42,
    ensures
        match r {
            Ok((t, end)) => pos - 1 < end <= buf@.len() && parse(buf@.skip(pos - 1)) == Some(
                (t@, (end - (pos - 1)) as nat),
            ),
            Err(e) => e == Error::Protocol && parse(buf@.skip(pos - 1)) is None,
        },
    decreases buf@.len() - pos, 0nat,
{
    let ghost b = buf@.skip(pos - 1);
    proof {
        assert(b.drop_first() =~= buf@.skip(pos as int));
        assert(buf@.len() == buf.len());
    }
    let k = match parse_crlf(buf, pos) {
        None => return Err(Error::Protocol),
        Some(k) => k,
    };
    let ghost text = buf@.subrange(pos as int, k as int);
    let ghost after = 1 + (k - pos + 2);
    let start = k + 2;
    proof {
        assert(b.skip(after) =~= buf@.skip(start as int));
    }
    let n = match parse_usize(buf, pos, k) {
        None => {
            proof {
                if all_digits(text) {
                    lemma_elems_bounds(buf@.skip(start as int), digits_value(text));
                }
            }
            return Err(Error::Protocol);
        },
        Some(n) => n,
    };
    let ghost whole = match parse_elems(buf@.skip(start as int), n as nat) {
        Some((vs, c)) => Some((Value::Array(vs), (after + c) as nat)),
        None => None,
    };
    assert(parse(b) == whole);
    let mut items: Vec<Type> = Vec::new();
    let mut p = start;
    let mut i: usize = 0;
    while i < n
        invariant
            parse(b) == whole,
            whole == match parse_elems(buf@.skip(start as int), n as nat) {
                Some((vs, c)) => Some((Value::Array(vs), (after + c) as nat)),
                None => None,
            },
            b == buf@.skip(pos - 1),
            after == start - (pos - 1),
            start <= p <= buf@.len(),
            i <= n,
            pos < start,
            items@.len() == i,
            parse_elems(buf@.skip(start as int), n as nat) == match parse_elems(
                buf@.skip(p as int),
                (n - i) as nat,
            ) {
                Some((rest, c)) => Some((values_of(items@) + rest, (p - start + c) as nat)),
                None => None::<(Seq<Value>, nat)>,
            },
        decreases n - i,
    {
        let ghost bp = buf@.skip(p as int);
        match parse_value_at(buf, p) {
            Err(e) => {
                assert(parse_elems(bp, (n - i) as nat) is None);
                return Err(e);
            },
            Ok((t, end)) => {
                proof {
                    assert(bp.skip(end - p) =~= buf@.skip(end as int));
                    lemma_values_of_push(items@, t);
                    match parse_elems(buf@.skip(end as int), (n - i - 1) as nat) {
                        Some((rest, c)) => {
                            assert(values_of(items@) + (seq![t@] + rest) =~= values_of(
                                items@.push(t),
                            ) + rest);
                        },
                        None => {},
                    }
                }
                items.push(t);
                p = end;
                i += 1;
            },
        }
    }
    assert(values_of(items@) + Seq::<Value>::empty() =~= values_of(items@));
    Ok((Type::Array(items), p))
}

/// The value at the start of `buffer`, and the count of bytes it takes.
pub fn parse_resp(buffer: &[u8]) -> (r: Result<(Type, usize), Error>)
    ensures
        match r {
            Ok((t, n)) => 0 < n <= buffer@.len() && parse(buffer@) == Some((t@, n as nat)),
            Err(e) => e == Error::Protocol && parse(buffer@) is None,
        },
{
    assert(buffer@.skip(0) =~= buffer@);
    parse_value_at(buffer, 0)
}

/// `b` has no CR but perhaps as its last byte: a line it starts may still be completed.
pub open spec fn line_open(b: Seq<u8>) -> bool {
    forall|i: int| 0 <= i < b.len() - 1 ==> b[i] != CR
}

/// `b` is cut short: it does not hold a whole value, but nothing read so far is malformed, so
/// more bytes may complete it. A length or count too large for a `usize` is malformed.
pub open spec fn needs_more(b: Seq<u8>) -> bool
    decreases b.len(), 0nat,
{
    if b.len() == 0 {
        true
    } else if !(b[0] == 43 || b[0] == 45 || b[0] == 58 || b[0] == 36 || b[0] == 42) {
        false
    } else {
        match line(b.drop_first()) {
            None => line_open(b.drop_first()),
            Some((text, hl)) => {
                let after = 1 + hl;
                if b[0] == 36 && text != minus_one() && all_digits(text) && digits_value(text)
                    <= usize::MAX {
                    b.len() < after + digits_value(text) + 2
                } else if b[0] == 42 && all_digits(text) && digits_value(text) <= usize::MAX
                    && after <= b.len() {
                    needs_more_elems(b.skip(after as int), digits_value(text))
                } else {
                    false
                }
            },
        }
    }
}

/// `n` values at the start of `b` are cut short: some are whole, and the next one needs more.
pub open spec fn needs_more_elems(b: Seq<u8>, n: nat) -> bool
    decreases b.len(), n + 1,
{
    if n == 0 {
        false
    } else {
        match parse(b) {
            Some((v, c)) => if 0 < c <= b.len() {
                needs_more_elems(b.skip(c as int), (n - 1) as nat)
            } else {
                false
            },
            None => needs_more(b),
        }
    }
}

/// Whether the line that starts at `pos` may still be completed by more bytes.
fn line_open_at(buf: &[u8], pos: usize) -> (r: bool)
    requires
        pos <= buf@.len(),
    ensures
        r == line_open(buf@.skip(pos as int)),
{
    let ghost b = buf@.skip(pos as int);
    let mut i = pos;
    while i < buf.len() && buf[i] != CR
        invariant
            pos <= i <= buf@.len(),
            b == buf@.skip(pos as int),
            forall|j: int| 0 <= j < i - pos ==> b[j] != CR,
        decreases buf.len() - i,
    {
        i += 1;
    }
    if i < buf.len() && i + 1 < buf.len() {
        assert(b[i - pos] == CR);
        false
    } else {
        true
    }
}

/// Whether the bytes from `pos` on are a value cut short, that more bytes may complete.
pub fn needs_more_at(buf: &[u8], pos: usize) -> (r: bool)
    requires
        pos <= buf@.len(),
    ensures
        r == needs_more(buf@.skip(pos as int)),
    decreases buf@.len() - pos,
{
    let ghost b = buf@.skip(pos as int);
    assert(buf@.len() == buf.len());
    if pos == buf.len() {
        return true;
    }
    let lead = buf[pos];
    if !(lead == 43 || lead == 45 || lead == 58 || lead == 36 || lead == 42) {
        return false;
    }
    assert(b.drop_first() =~= buf@.skip(pos + 1));
    let k = match parse_crlf(buf, pos + 1) {
        None => return line_open_at(buf, pos + 1),
        Some(k) => k,
    };
    let ghost text = buf@.subrange(pos + 1, k as int);
    let ghost after = 1 + (k - (pos + 1) + 2);
    let start = k + 2;
    assert(b.skip(after) =~= buf@.skip(start as int));
    if lead != 36 && lead != 42 {
        return false;
    }
    if lead == 36 && k - (pos + 1) == 2 && buf[pos + 1] == 45 && buf[pos + 2] == 49 {
        assert(text =~= minus_one());
        return false;
    }
    assert(lead == 36 ==> text != minus_one()) by {
        if lead == 36 && text == minus_one() {
            assert(text[0] == buf@[pos + 1]);
        }
    }
    let n = match parse_usize(buf, pos + 1, k) {
        None => return false,
        Some(n) => n,
    };
    if lead == 36 {
        return n > buf.len() - start || buf.len() - start - n < 2;
    }
    let mut p = start;
    let mut i: usize = 0;
    while i < n
        invariant
            start <= p <= buf@.len(),
            pos < start,
            i <= n,
            needs_more(b) == needs_more_elems(buf@.skip(start as int), n as nat),
            b == buf@.skip(pos as int),
            needs_more_elems(buf@.skip(start as int), n as nat) == needs_more_elems(
                buf@.skip(p as int),
                (n - i) as nat,
            ),
        decreases n - i,
    {
        let ghost bp = buf@.skip(p as int);
        match parse_value_at(buf, p) {
            Ok((_, end)) => {
                assert(bp.skip(end - p) =~= buf@.skip(end as int));
                p = end;
                i += 1;
            },
            Err(_) => {
                return needs_more_at(buf, p);
            },
        }
    }
    false
}

/// The values whose wire form reads back as the same value: no snapshot inside, and no CR in
/// the text of a simple string or an integer, since that text ends at the first CR.
pub open spec fn round_trips(v: Value) -> bool
    decreases v,
{
    match v {
        Value::Simple(s) => no_cr(s),
        Value::Integer(s) => no_cr(s),
        Value::Bulk(_) => true,
        Value::Null => true,
        Value::Rdb(_) => false,
        Value::Array(items) => forall|i: int|
            0 <= i < items.len() ==> round_trips(#[trigger] items[i]),
    }
}

/// No byte is a CR.
pub open spec fn no_cr_byte(b: Seq<u8>) -> bool {
    forall|j: int| 0 <= j < b.len() ==> b[j] != CR
}

/// No character is a CR.
pub open spec fn no_cr(s: Seq<char>) -> bool {
    forall|i: int| 0 <= i < s.len() ==> s[i] != '\r'
}

/// The UTF-8 form of a character other than CR holds no CR byte.
proof fn lemma_scalar_no_cr(c: char)
    requires
        c != '\r',
    ensures
        no_cr_byte(encode_scalar(c as u32)),
{
    let v = c as u32;
    if has_width_1_encoding(v) {
        assert((v & 0x7F) as u8 != 13u8) by (bit_vector)
            requires
                v <= 0x7F,
                v != 13,
        ;
    } else {
        assert(forall|x: u8| (0xC0u8 | x) != 13u8) by (bit_vector);
        assert(forall|x: u8| (0xE0u8 | x) != 13u8) by (bit_vector);
        assert(forall|x: u8| (0xF0u8 | x) != 13u8) by (bit_vector);
        assert(forall|x: u8| (0x80u8 | x) != 13u8) by (bit_vector);
    }
}

/// The UTF-8 form of a text without CR holds no CR byte.
proof fn lemma_encode_no_cr(s: Seq<char>)
    requires
        no_cr(s),
    ensures
        no_cr_byte(encode_utf8(s)),
    decreases s.len(),
{
    if s.len() > 0 {
        lemma_scalar_no_cr(s[0]);
        lemma_encode_no_cr(s.drop_first());
        let a = encode_scalar(s[0] as u32);
        let b = encode_utf8(s.drop_first());
        assert forall|j: int| 0 <= j < (a + b).len() implies (a + b)[j] != CR by {
            if j >= a.len() {
                assert((a + b)[j] == b[j - a.len()]);
            }
        }
    }
}

/// A decimal spelling is digits, reads back as its number, and is not `-1`.
proof fn lemma_decimal(n: nat)
    ensures
        all_digits(decimal(n)),
        digits_value(decimal(n)) == n,
        decimal(n) != minus_one(),
    decreases n,
{
    let d = decimal(n);
    if n >= 10 {
        lemma_decimal(n / 10);
        assert(d.drop_last() =~= decimal(n / 10));
        assert(d.last() == (48 + n % 10) as u8);
        assert(digits_value(d) == (n / 10) * 10 + n % 10);
    } else {
        assert(d.drop_last() =~= Seq::<u8>::empty());
        assert(digits_value(d.drop_last()) == 0);
    }
    assert(is_digit(d[0]));
}

/// `b` is `head`, a line of `text`, then `tail`: the line is found where it ends.
proof fn lemma_line_of(text: Seq<u8>, tail: Seq<u8>)
    requires
        no_cr_byte(text),
    ensures
        line(text + crlf() + tail) == Some((text, text.len() + 2)),
{
    let b = text + crlf() + tail;
    assert(is_line_end(b, text.len() as int));
    lemma_line_at(b, text.len() as int);
    assert(b.take(text.len() as int) =~= text);
}

/// A simple string without CR reads back from its wire form, whatever follows it.
proof fn lemma_parse_ser_simple(s: Seq<char>, rest: Seq<u8>)
    requires
        no_cr(s),
    ensures
        parse(ser(Value::Simple(s)) + rest) == Some((Value::Simple(s), ser(Value::Simple(s)).len())),
{
    let b = ser(Value::Simple(s)) + rest;
    encode_utf8_valid_utf8(s);
    encode_utf8_decode_utf8(s);
    lemma_encode_no_cr(s);
    assert(b.drop_first() =~= encode_utf8(s) + crlf() + rest);
    lemma_line_of(encode_utf8(s), rest);
}

/// An integer without CR reads back from its wire form, whatever follows it.
proof fn lemma_parse_ser_integer(s: Seq<char>, rest: Seq<u8>)
    requires
        no_cr(s),
    ensures
        parse(ser(Value::Integer(s)) + rest) == Some(
            (Value::Integer(s), ser(Value::Integer(s)).len()),
        ),
{
    let b = ser(Value::Integer(s)) + rest;
    encode_utf8_valid_utf8(s);
    encode_utf8_decode_utf8(s);
    lemma_encode_no_cr(s);
    assert(b.drop_first() =~= encode_utf8(s) + crlf() + rest);
    lemma_line_of(encode_utf8(s), rest);
}

/// The null bulk string reads back from its wire form, whatever follows it.
proof fn lemma_parse_ser_null(rest: Seq<u8>)
    ensures
        parse(ser(Value::Null) + rest) == Some((Value::Null, ser(Value::Null).len())),
{
    let b = ser(Value::Null) + rest;
    assert(b.drop_first() =~= minus_one() + crlf() + rest);
    lemma_line_of(minus_one(), rest);
}

/// A bulk string reads back from its wire form, whatever follows it.
#[verifier::rlimit(40)]
proof fn lemma_parse_ser_bulk(s: Seq<char>, rest: Seq<u8>)
    ensures
        parse(ser(Value::Bulk(s)) + rest) == Some((Value::Bulk(s), ser(Value::Bulk(s)).len())),
{
    let b = ser(Value::Bulk(s)) + rest;
    let e = encode_utf8(s);
    encode_utf8_valid_utf8(s);
    encode_utf8_decode_utf8(s);
    let d = decimal(e.len());
    lemma_decimal(e.len());
    assert(b.drop_first() =~= d + crlf() + (e + crlf() + rest));
    lemma_line_of(d, e + crlf() + rest);
    let body = b.skip(1 + d.len() + 2 as int);
    assert(body =~= e + crlf() + rest);
    assert(body.take(e.len() as int) =~= e);
}

/// An array of values that round-trip reads back from its wire form, whatever follows it.
proof fn lemma_parse_ser_array(items: Seq<Value>, rest: Seq<u8>)
    requires
        forall|i: int| 0 <= i < items.len() ==> round_trips(#[trigger] items[i]),
    ensures
        parse(ser(Value::Array(items)) + rest) == Some(
            (Value::Array(items), ser(Value::Array(items)).len()),
        ),
    decreases items, 3nat,
{
    let b = ser(Value::Array(items)) + rest;
    let d = decimal(items.len());
    lemma_decimal(items.len());
    assert(b.drop_first() =~= d + crlf() + (ser_list(items) + rest));
    lemma_line_of(d, ser_list(items) + rest);
    assert(b.skip(1 + d.len() + 2 as int) =~= ser_list(items) + rest);
    lemma_parse_ser_list(items, rest);
}

/// A value that round-trips reads back from its wire form, whatever follows it.
pub proof fn lemma_parse_ser(v: Value, rest: Seq<u8>)
    requires
        round_trips(v),
    ensures
        parse(ser(v) + rest) == Some((v, ser(v).len())),
    decreases v, 1nat,
{
    match v {
        Value::Simple(s) => lemma_parse_ser_simple(s, rest),
        Value::Integer(s) => lemma_parse_ser_integer(s, rest),
        Value::Null => lemma_parse_ser_null(rest),
        Value::Bulk(s) => lemma_parse_ser_bulk(s, rest),
        Value::Array(items) => lemma_parse_ser_array(items, rest),
        Value::Rdb(_) => {},
    }
}

/// Values that round-trip read back, one after another, from their wire forms.
pub proof fn lemma_parse_ser_list(items: Seq<Value>, rest: Seq<u8>)
    requires
        forall|i: int| 0 <= i < items.len() ==> round_trips(#[trigger] items[i]),
    ensures
        parse_elems(ser_list(items) + rest, items.len()) == Some((items, ser_list(items).len())),
    decreases items, 2nat,
{
    if items.len() > 0 {
        let b = ser_list(items) + rest;
        let tail = items.drop_first();
        lemma_parse_ser(items[0], ser_list(tail) + rest);
        assert(b =~= ser(items[0]) + (ser_list(tail) + rest));
        assert(b.skip(ser(items[0]).len() as int) =~= ser_list(tail) + rest);
        lemma_parse_ser_list(tail, rest);
        assert(seq![items[0]] + tail =~= items);
    } else {
        assert(items =~= Seq::<Value>::empty());
    }
}

/// Reading the wire form of a value gives back that value and the full length of the form.
pub proof fn law_codec_round_trip(v: Value)
    requires
        round_trips(v),
    ensures
        parse(ser(v)) == Some((v, ser(v).len())),
{
    lemma_parse_ser(v, Seq::empty());
    assert(ser(v) + Seq::<u8>::empty() =~= ser(v));
}

/// Reading two wire forms one after the other gives the first value, and a cursor that stops
/// exactly at the end of its form.
pub proof fn law_length_accounting(v1: Value, v2: Value)
    requires
        round_trips(v1),
    ensures
        parse(ser(v1) + ser(v2)) == Some((v1, ser(v1).len())),
{
    lemma_parse_ser(v1, ser(v2));
}

} // verus!
