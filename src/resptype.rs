use vstd::prelude::*;
use vstd::string::StrSliceExecFns;
use vstd::utf8::encode_utf8;

verus! {

/// Carriage return.
pub const CR: u8 = 13;

/// Line feed.
pub const LF: u8 = 10;

/// The mathematical form of a RESP value: text payloads as characters.
pub enum Value {
    Simple(Seq<char>),
    Bulk(Seq<char>),
    Rdb(Seq<char>),
    Null,
    Integer(Seq<char>),
    Array(Seq<Value>),
}

/// A RESP value as it travels on the wire.
#[derive(Debug)]
pub enum Type {
    SimpleString(String),
    BulkString(String),
    /// A snapshot given as hex digits; sent as a bulk frame without the closing CRLF.
    RDBSyncString(String),
    NullBulkString,
    Integer(String),
    Array(Vec<Type>),
}

/// The mathematical form of a wire value.
pub open spec fn value_of(t: Type) -> Value
    decreases t,
{
    match t {
        Type::SimpleString(s) => Value::Simple(s@),
        Type::BulkString(s) => Value::Bulk(s@),
        Type::RDBSyncString(s) => Value::Rdb(s@),
        Type::NullBulkString => Value::Null,
        Type::Integer(s) => Value::Integer(s@),
        Type::Array(items) => Value::Array(values_of(items@)),
    }
}

/// The mathematical forms of wire values, in order.
pub open spec fn values_of(items: Seq<Type>) -> Seq<Value>
    decreases items,
{
    if items.len() == 0 {
        Seq::empty()
    } else {
        values_of(items.drop_last()).push(value_of(items.last()))
    }
}

/// `values_of` keeps the length and maps each item.
pub proof fn lemma_values_of(items: Seq<Type>)
    ensures
        values_of(items).len() == items.len(),
        forall|j: int| 0 <= j < items.len() ==> #[trigger] values_of(items)[j] == value_of(items[j]),
    decreases items.len(),
{
    if items.len() > 0 {
        lemma_values_of(items.drop_last());
    }
}

/// `values_of` of one more item.
pub proof fn lemma_values_of_push(items: Seq<Type>, t: Type)
    ensures
        values_of(items.push(t)) == values_of(items).push(value_of(t)),
{
    assert(items.push(t).drop_last() =~= items);
}

impl View for Type {
    type V = Value;

    open spec fn view(&self) -> Value {
        value_of(*self)
    }
}

/// The line separator.
pub open spec fn crlf() -> Seq<u8> {
    seq![CR, LF]
}

/// An ASCII digit.
pub open spec fn is_digit(c: u8) -> bool {
    48 <= c <= 57
}

/// The shortest decimal spelling of `n`, as ASCII digits.
pub open spec fn decimal(n: nat) -> Seq<u8>
    decreases n,
{
    if n < 10 {
        seq![(48 + n) as u8]
    } else {
        decimal(n / 10) + seq![(48 + n % 10) as u8]
    }
}

/// The number that a run of ASCII digits spells.
pub open spec fn digits_value(s: Seq<u8>) -> nat
    decreases s.len(),
{
    if s.len() == 0 {
        0
    } else {
        digits_value(s.drop_last()) * 10 + (s.last() - 48) as nat
    }
}

/// A non-empty run of ASCII digits.
pub open spec fn all_digits(s: Seq<u8>) -> bool {
    s.len() > 0 && forall|i: int| 0 <= i < s.len() ==> is_digit(#[trigger] s[i])
}

/// The value of one hex digit, in either case.
pub open spec fn hex_digit_value(c: char) -> Option<u8> {
    if '0' <= c <= '9' {
        Some((c as u32 - 48) as u8)
    } else if 'a' <= c <= 'f' {
        Some((c as u32 - 87) as u8)
    } else if 'A' <= c <= 'F' {
        Some((c as u32 - 55) as u8)
    } else {
        None
    }
}

/// A text of an even number of hex digits.
pub open spec fn is_hex(s: Seq<char>) -> bool {
    s.len() % 2 == 0 && forall|i: int| 0 <= i < s.len() ==> (#[trigger] hex_digit_value(s[i])) is Some
}

/// The bytes that a hex text stands for, two digits to a byte, high digit first.
pub open spec fn hex_bytes(s: Seq<char>) -> Seq<u8> {
    Seq::new(
        s.len() / 2,
        |i: int|
            (hex_digit_value(s[2 * i])->0 * 16 + hex_digit_value(s[2 * i + 1])->0) as u8,
    )
}

/// The wire form of a value.
pub open spec fn ser(v: Value) -> Seq<u8>
    decreases v,
{
    match v {
        Value::Simple(s) => seq![43u8] + encode_utf8(s) + crlf(),
        Value::Bulk(s) => seq![36u8] + decimal(encode_utf8(s).len()) + crlf() + encode_utf8(s)
            + crlf(),
        Value::Rdb(s) => seq![36u8] + decimal(hex_bytes(s).len()) + crlf() + hex_bytes(s),
        Value::Null => seq![36u8, 45u8, 49u8] + crlf(),
        Value::Integer(s) => seq![58u8] + encode_utf8(s) + crlf(),
        Value::Array(items) => seq![42u8] + decimal(items.len()) + crlf() + ser_list(items),
    }
}

/// The wire forms of a sequence of values, one after another.
pub open spec fn ser_list(items: Seq<Value>) -> Seq<u8>
    decreases items,
{
    if items.len() == 0 {
        seq![]
    } else {
        ser(items[0]) + ser_list(items.drop_first())
    }
}

/// Every snapshot inside the value is given as proper hex.
pub open spec fn hex_well_formed(v: Value) -> bool
    decreases v,
{
    match v {
        Value::Rdb(s) => is_hex(s),
        Value::Array(items) => forall|i: int|
            0 <= i < items.len() ==> hex_well_formed(#[trigger] items[i]),
        _ => true,
    }
}


/// The wire forms of one more value.
pub proof fn lemma_ser_list_push(items: Seq<Value>, v: Value)
    ensures
        ser_list(items.push(v)) == ser_list(items) + ser(v),
    decreases items.len(),
{
    if items.len() == 0 {
        assert(items.push(v).drop_first() =~= Seq::<Value>::empty());
        assert(ser_list(Seq::<Value>::empty()) == Seq::<u8>::empty());
        assert(ser_list(items.push(v)) =~= ser_list(items) + ser(v));
    } else {
        assert(items.push(v).drop_first() =~= items.drop_first().push(v));
        lemma_ser_list_push(items.drop_first(), v);
        assert(ser_list(items.push(v)) =~= ser_list(items) + ser(v));
    }
}

/// Appends `bytes` to `out`.
pub fn push_all(out: &mut Vec<u8>, bytes: &[u8])
    ensures
        final(out)@ == old(out)@ + bytes@,
{
    let mut i: usize = 0;
    while i < bytes.len()
        invariant
            i <= bytes@.len(),
            out@ == old(out)@ + bytes@.subrange(0, i as int),
        decreases bytes.len() - i,
    {
        out.push(bytes[i]);
        i += 1;
        assert(bytes@.subrange(0, i as int) =~= bytes@.subrange(0, i - 1).push(bytes@[i - 1]));
    }
    assert(bytes@.subrange(0, bytes@.len() as int) =~= bytes@);
}

/// Appends the decimal spelling of `n` to `out`.
pub fn push_decimal(out: &mut Vec<u8>, n: usize)
    ensures
        final(out)@ == old(out)@ + decimal(n as nat),
    decreases n,
{
    if n < 10 {
        out.push(48 + n as u8);
        assert(out@ =~= old(out)@ + decimal(n as nat));
    } else {
        push_decimal(out, n / 10);
        out.push(48 + (n % 10) as u8);
        assert(out@ =~= old(out)@ + decimal(n as nat));
    }
}

/// The value of one hex digit, if `c` is one.
fn hex_value(c: char) -> (r: Option<u8>)
    ensures
        r == hex_digit_value(c),
{
    if '0' <= c && c <= '9' {
        Some((c as u32 - 48) as u8)
    } else if 'a' <= c && c <= 'f' {
        Some((c as u32 - 87) as u8)
    } else if 'A' <= c && c <= 'F' {
        Some((c as u32 - 55) as u8)
    } else {
        None
    }
}

/// Appends the bytes that the hex text `s` stands for.
fn push_hex_bytes(out: &mut Vec<u8>, s: &str)
    requires
        is_hex(s@),
    ensures
        final(out)@ == old(out)@ + hex_bytes(s@),
{
    let len = s.unicode_len();
    let n = len / 2;
    let mut j: usize = 0;
    while j < n
        invariant
            len == s@.len(),
            n == len / 2,
            is_hex(s@),
            j <= n,
            out@ == old(out)@ + hex_bytes(s@).take(j as int),
        decreases n - j,
    {
        let hi = hex_value(s.get_char(2 * j));
        let lo = hex_value(s.get_char(2 * j + 1));
        assert(hex_digit_value(s@[2 * j as int]) is Some);
        assert(hex_digit_value(s@[2 * j + 1]) is Some);
        let (Some(hi), Some(lo)) = (hi, lo) else { return };
        let byte: u8 = hi * 16 + lo;
        out.push(byte);
        j += 1;
        assert(hex_bytes(s@).take(j as int) =~= hex_bytes(s@).take(j - 1).push(byte));
    }
    assert(hex_bytes(s@).take(n as int) =~= hex_bytes(s@));
}

impl Type {
    /// The wire form of this value.
    pub fn serialize(self) -> (r: Vec<u8>)
        requires
            hex_well_formed(self@),
        ensures
            r@ == ser(self@),
    {
        let mut out: Vec<u8> = Vec::new();
        self.write_to(&mut out);
        assert(out@ =~= ser(self@));
        out
    }

    /// Appends the wire form of this value to `out`.
    #[verifier::rlimit(40)]
    pub fn write_to(&self, out: &mut Vec<u8>)
        requires
            hex_well_formed(self@),
        ensures
            final(out)@ == old(out)@ + ser(self@),
        decreases self,
    {
        match self {
            Type::SimpleString(s) => {
                out.push(43);
                push_all(out, s.as_str().as_bytes());
                out.push(CR);
                out.push(LF);
                assert(out@ =~= old(out)@ + ser(self@));
            },
            Type::BulkString(s) => {
                let bytes = s.as_str().as_bytes();
                out.push(36);
                push_decimal(out, bytes.len());
                out.push(CR);
                out.push(LF);
                push_all(out, bytes);
                out.push(CR);
                out.push(LF);
                assert(out@ =~= old(out)@ + ser(self@));
            },
            Type::RDBSyncString(s) => {
                out.push(36);
                push_decimal(out, s.as_str().unicode_len() / 2);
                out.push(CR);
                out.push(LF);
                push_hex_bytes(out, s.as_str());
                assert(out@ =~= old(out)@ + ser(self@));
            },
            Type::NullBulkString => {
                out.push(36);
                out.push(45);
                out.push(49);
                out.push(CR);
                out.push(LF);
                assert(out@ =~= old(out)@ + ser(self@));
            },
            Type::Integer(s) => {
                out.push(58);
                push_all(out, s.as_str().as_bytes());
                out.push(CR);
                out.push(LF);
                assert(out@ =~= old(out)@ + ser(self@));
            },
            Type::Array(items) => {
                let ghost vs = self@->Array_0;
                proof {
                    lemma_values_of(items@);
                }
                out.push(42);
                push_decimal(out, items.len());
                out.push(CR);
                out.push(LF);
                let ghost base = out@;
                let mut i: usize = 0;
                while i < items.len()
                    invariant
                        *self == Type::Array(*items),
                        vs == values_of(items@),
                        vs.len() == items@.len(),
                        forall|k: int| 0 <= k < vs.len() ==> vs[k] == value_of(#[trigger] items@[k]),
                        forall|k: int| 0 <= k < vs.len() ==> hex_well_formed(#[trigger] vs[k]),
                        i <= items.len(),
                        out@ == base + ser_list(vs.take(i as int)),
                    decreases items.len() - i,
                {
                    assert(hex_well_formed(vs[i as int]));
                    proof {
                        assert(decreases_to!(*self => (*self)->Array_0));
                        assert(decreases_to!(*items => items[i as int]));
                    }
                    items[i].write_to(out);
                    proof {
                        lemma_ser_list_push(vs.take(i as int), vs[i as int]);
                        assert(vs.take(i + 1) =~= vs.take(i as int).push(vs[i as int]));
                    }
                    i += 1;
                }
                assert(vs.take(items.len() as int) =~= vs);
                assert(out@ =~= old(out)@ + ser(self@));
            },
        }
    }
}

} // verus!
