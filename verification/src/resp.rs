//! RESP2, the Redis serialization protocol: five types, each a type byte, a
//! line, and for bulk strings and arrays what the line said follows.

use vstd::prelude::*;
use vstd::slice::{slice_subrange, slice_to_vec};
use vstd::utf8::encode_utf8;

use crate::decimal::{
    decimal, decimal_text, parse_i64, read_i64, signed_decimal, signed_decimal_text,
};
use crate::error::{Error, Fault};
use crate::framing::{law_written_is_read, writable};
use crate::text::{lossy, lossy_text};

verus! {

/// `+`, the type byte of a simple string.
pub const PLUS: u8 = 43;

/// `-`, the type byte of an error.
pub const MINUS: u8 = 45;

/// `:`, the type byte of an integer.
pub const COLON: u8 = 58;

/// `$`, the type byte of a bulk string.
pub const DOLLAR: u8 = 36;

/// `*`, the type byte of an array.
pub const STAR: u8 = 42;

/// Carriage return.
pub const CR: u8 = 13;

/// Line feed.
pub const LF: u8 = 10;

/// One RESP value.
#[derive(Debug, PartialEq, Eq)]
pub enum Value {
    /// `+text`
    Simple(String),
    /// `-text`
    Error(String),
    /// `:number`
    Integer(i64),
    /// `$length` and the bytes, or `$-1` for null.
    Bulk(Option<Vec<u8>>),
    /// `*count` and the elements, or `*-1` for null.
    Array(Option<Vec<Value>>),
}

/// A RESP value as a mathematical value.
pub enum Resp {
    Simple(Seq<char>),
    Error(Seq<char>),
    Integer(i64),
    Bulk(Option<Seq<u8>>),
    Array(Option<Seq<Resp>>),
}

/// What a [`Value`] stands for.
pub open spec fn value_of(value: Value) -> Resp
    decreases value,
{
    match value {
        Value::Simple(text) => Resp::Simple(text@),
        Value::Error(text) => Resp::Error(text@),
        Value::Integer(n) => Resp::Integer(n),
        Value::Bulk(None) => Resp::Bulk(None),
        Value::Bulk(Some(bytes)) => Resp::Bulk(Some(bytes@)),
        Value::Array(None) => Resp::Array(None),
        Value::Array(Some(elements)) => Resp::Array(
            Some(
                Seq::new(
                    elements@.len(),
                    |i: int|
                        if 0 <= i < elements@.len() {
                            value_of(elements@[i])
                        } else {
                            Resp::Integer(0)
                        },
                ),
            ),
        ),
    }
}

/// What a sequence of values stands for, one by one.
pub open spec fn values_of(values: Seq<Value>) -> Seq<Resp> {
    values.map_values(|v: Value| v@)
}

impl View for Value {
    type V = Resp;

    open spec fn view(&self) -> Resp {
        value_of(*self)
    }
}

impl Clone for Value {
    /// The same value again.
    fn clone(&self) -> (copy: Self)
        ensures
            copy@ == self@,
        decreases self,
    {
        match self {
            Value::Simple(text) => Value::Simple(text.clone()),
            Value::Error(text) => Value::Error(text.clone()),
            Value::Integer(n) => Value::Integer(*n),
            Value::Bulk(None) => Value::Bulk(None),
            Value::Bulk(Some(bytes)) => Value::Bulk(Some(slice_to_vec(bytes.as_slice()))),
            Value::Array(None) => Value::Array(None),
            Value::Array(Some(elements)) => {
                let mut copies: Vec<Value> = Vec::new();
                for i in 0..elements.len()
                    invariant
                        copies@.len() == i,
                        forall|j: int| 0 <= j < i ==> (#[trigger] copies@[j])@ == elements@[j]@,
                        decreases_to!(*self => *elements),
                {
                    copies.push(elements[i].clone());
                }
                let copy = Value::Array(Some(copies));
                assert(copy@->Array_0->0 =~= self@->Array_0->0);
                copy
            },
        }
    }
}

/// A text as a bulk string.
pub open spec fn bulk_of(text: Seq<char>) -> Resp {
    Resp::Bulk(Some(encode_utf8(text)))
}

/// A command: an array whose elements are the arguments, each a bulk string.
pub open spec fn command_of(arguments: Seq<Seq<u8>>) -> Resp {
    Resp::Array(Some(arguments.map_values(|a: Seq<u8>| Resp::Bulk(Some(a)))))
}

/// The bytes of a bulk string; no other value holds bytes.
pub open spec fn bytes_in(value: Resp) -> Option<Seq<u8>> {
    match value {
        Resp::Bulk(bytes) => bytes,
        _ => None,
    }
}

/// The text of a bulk string, read lossily, or of a simple string.
pub open spec fn text_in(value: Resp) -> Option<Seq<char>> {
    match value {
        Resp::Bulk(Some(bytes)) => Some(lossy(bytes)),
        Resp::Simple(text) => Some(text),
        _ => None,
    }
}

/// The elements of an array; no other value holds elements.
pub open spec fn elements_in(value: Resp) -> Option<Seq<Resp>> {
    match value {
        Resp::Array(elements) => elements,
        _ => None,
    }
}

impl Value {
    /// A bulk string from text.
    #[must_use]
    pub fn bulk(text: &str) -> (value: Self)
        ensures
            value@ == bulk_of(text@),
    {
        Value::Bulk(Some(slice_to_vec(text.as_bytes())))
    }

    /// A command: every argument a bulk string, as clients send them.
    #[must_use]
    pub fn command(arguments: &[&[u8]]) -> (value: Self)
        ensures
            value@ == command_of(arguments@.map_values(|a: &[u8]| a@)),
    {
        let mut elements: Vec<Value> = Vec::new();
        for i in 0..arguments.len()
            invariant
                elements@.len() == i,
                forall|j: int|
                    0 <= j < i ==> (#[trigger] elements@[j])@ == Resp::Bulk(Some(arguments@[j]@)),
        {
            elements.push(Value::Bulk(Some(slice_to_vec(arguments[i]))));
        }
        let value = Value::Array(Some(elements));
        assert(value@->Array_0->0 =~= command_of(
            arguments@.map_values(|a: &[u8]| a@),
        )->Array_0->0);
        value
    }

    /// The bytes where this is a bulk string, or none.
    #[must_use]
    pub fn as_bytes(&self) -> (bytes: Option<&[u8]>)
        ensures
            match (bytes, bytes_in(self@)) {
                (Some(found), Some(expected)) => found@ == expected,
                (None, None) => true,
                _ => false,
            },
    {
        match self {
            Value::Bulk(Some(bytes)) => Some(bytes.as_slice()),
            _ => None,
        }
    }

    /// The text where this is a bulk or simple string, lossily.
    #[must_use]
    pub fn as_text(&self) -> (text: Option<String>)
        ensures
            match (text, text_in(self@)) {
                (Some(found), Some(expected)) => found@ == expected,
                (None, None) => true,
                _ => false,
            },
    {
        match self {
            Value::Bulk(Some(bytes)) => Some(lossy_text(bytes.as_slice())),
            Value::Simple(text) => Some(text.clone()),
            _ => None,
        }
    }

    /// The elements where this is an array, or none.
    #[must_use]
    pub fn as_array(&self) -> (elements: Option<&[Value]>)
        ensures
            match (elements, elements_in(self@)) {
                (Some(found), Some(expected)) => values_of(found@) == expected,
                (None, None) => true,
                _ => false,
            },
    {
        match self {
            Value::Array(Some(elements)) => {
                assert(values_of(elements@) =~= elements_in(self@)->0);
                Some(elements.as_slice())
            },
            _ => None,
        }
    }
}

/// CR and LF.
pub open spec fn crlf() -> Seq<u8> {
    seq![CR, LF]
}

/// A type byte, a text and CRLF.
pub open spec fn line(tag: u8, text: Seq<char>) -> Seq<u8> {
    seq![tag] + encode_utf8(text) + crlf()
}

/// A value as bytes on the wire.
pub open spec fn wire(value: Resp) -> Seq<u8>
    decreases value,
{
    match value {
        Resp::Simple(text) => line(PLUS, text),
        Resp::Error(text) => line(MINUS, text),
        Resp::Integer(n) => line(COLON, signed_decimal(n as int)),
        Resp::Bulk(None) => line(DOLLAR, signed_decimal(-1)),
        Resp::Bulk(Some(bytes)) => line(DOLLAR, decimal(bytes.len())) + bytes + crlf(),
        Resp::Array(None) => line(STAR, signed_decimal(-1)),
        Resp::Array(Some(elements)) => line(STAR, decimal(elements.len())) + wire_all(elements),
    }
}

/// Values as bytes on the wire, one after the other.
pub open spec fn wire_all(values: Seq<Resp>) -> Seq<u8>
    decreases values,
{
    if values.len() == 0 {
        Seq::empty()
    } else {
        wire_all(values.drop_last()) + wire(values.last())
    }
}

/// What stands at the start of a stream of bytes.
pub enum Parsed {
    /// Nothing: the bytes ended between values.
    Closed,
    /// A value, and the bytes after it.
    Value(Resp, Seq<u8>),
    /// The start of a value that the bytes do not complete.
    Cut(Fault),
    /// What is no value, and the bytes after what was taken.
    Bad(Fault, Seq<u8>),
}

/// What a run of elements at the start of a stream of bytes comes to.
pub enum ParsedAll {
    /// The elements, and the bytes after them.
    Elements(Seq<Resp>, Seq<u8>),
    /// What stood in the place of an element.
    Stopped(Parsed),
}

/// How many bytes a bulk string of the stated length takes. A length that no
/// address reaches counts as zero.
pub open spec fn bulk_size(length: i64) -> int {
    if length <= usize::MAX {
        length as int
    } else {
        0
    }
}

/// What a bulk string of the stated length comes to.
pub open spec fn parse_bulk(length: i64, rest: Seq<u8>) -> Parsed {
    let size = bulk_size(length);
    if length == -1 {
        Parsed::Value(Resp::Bulk(None), rest)
    } else if length < 0 {
        Parsed::Bad(Fault::NegativeBulk, rest)
    } else if rest.len() < size + 2 {
        Parsed::Cut(Fault::ShortBulk)
    } else if rest.subrange(size, size + 2) != crlf() {
        Parsed::Bad(Fault::UnendedBulk, rest.skip(size + 2))
    } else {
        Parsed::Value(Resp::Bulk(Some(rest.take(size))), rest.skip(size + 2))
    }
}

/// What stands at the start of `input`: a line that ends in CRLF, its first
/// byte the type, and what the type and the line say follows.
pub open spec fn parse(input: Seq<u8>) -> Parsed
    decreases input.len(), 0nat,
{
    match input.index_of_first(LF) {
        None => if input.len() == 0 {
            Parsed::Closed
        } else {
            Parsed::Cut(Fault::UnendedLine)
        },
        Some(end) => {
            proof {
                input.index_of_first_ensures(LF);
            }
            let rest = input.skip(end + 1);
            if end < 2 || input[end - 1] != CR {
                Parsed::Bad(Fault::BareLine, rest)
            } else {
                let tag = input[0];
                let text = lossy(input.subrange(1, end - 1));
                if tag == PLUS {
                    Parsed::Value(Resp::Simple(text), rest)
                } else if tag == MINUS {
                    Parsed::Value(Resp::Error(text), rest)
                } else if tag != COLON && tag != DOLLAR && tag != STAR {
                    Parsed::Bad(Fault::NotAType(tag), rest)
                } else {
                    match parse_i64(text) {
                        None => Parsed::Bad(Fault::NotANumber(text), rest),
                        Some(n) => if tag == COLON {
                            Parsed::Value(Resp::Integer(n), rest)
                        } else if tag == DOLLAR {
                            parse_bulk(n, rest)
                        } else if n == -1 {
                            Parsed::Value(Resp::Array(None), rest)
                        } else if n < 0 {
                            Parsed::Bad(Fault::NegativeArray, rest)
                        } else {
                            match parse_all(rest, n as nat) {
                                ParsedAll::Elements(elements, after) => Parsed::Value(
                                    Resp::Array(Some(elements)),
                                    after,
                                ),
                                ParsedAll::Stopped(parsed) => parsed,
                            }
                        },
                    }
                }
            }
        },
    }
}

/// What the first `count` values of `input` come to. Bytes that end before
/// one of them leave an array unfinished. (Every value takes bytes.)
pub open spec fn parse_all(input: Seq<u8>, count: nat) -> ParsedAll
    decreases input.len(), count + 1,
{
    if count == 0 {
        ParsedAll::Elements(Seq::empty(), input)
    } else {
        match parse(input) {
            Parsed::Value(first, rest) if rest.len() < input.len() => match parse_all(
                rest,
                (count - 1) as nat,
            ) {
                ParsedAll::Elements(others, after) => ParsedAll::Elements(
                    seq![first] + others,
                    after,
                ),
                stopped => stopped,
            },
            Parsed::Closed => ParsedAll::Stopped(Parsed::Cut(Fault::UnendedArray)),
            other => ParsedAll::Stopped(other),
        }
    }
}

/// Appends CRLF to `out`.
fn push_crlf(out: &mut Vec<u8>)
    ensures
        final(out)@ == old(out)@ + crlf(),
{
    out.push(CR);
    out.push(LF);
    assert(out@ =~= old(out)@ + crlf());
}

/// Appends `bytes` to `out`.
pub(crate) fn push_bytes(out: &mut Vec<u8>, bytes: &[u8])
    ensures
        final(out)@ == old(out)@ + bytes@,
{
    out.extend_from_slice(bytes);
    assert(out@ =~= old(out)@ + bytes@);
}

/// Appends a type byte, a text and CRLF to `out`.
fn push_line(out: &mut Vec<u8>, tag: u8, text: &str)
    ensures
        final(out)@ == old(out)@ + line(tag, text@),
{
    out.push(tag);
    push_bytes(out, text.as_bytes());
    push_crlf(out);
    assert(out@ =~= old(out)@ + line(tag, text@));
}

/// Appends `value` to `out` as bytes on the wire.
pub fn write(out: &mut Vec<u8>, value: &Value)
    ensures
        final(out)@ == old(out)@ + wire(value@),
    decreases value,
{
    let ghost before = out@;
    match value {
        Value::Simple(text) => push_line(out, PLUS, text.as_str()),
        Value::Error(text) => push_line(out, MINUS, text.as_str()),
        Value::Integer(n) => push_line(out, COLON, signed_decimal_text(*n).as_str()),
        Value::Bulk(None) => push_line(out, DOLLAR, signed_decimal_text(-1).as_str()),
        Value::Bulk(Some(bytes)) => {
            push_line(out, DOLLAR, decimal_text(bytes.len() as u64).as_str());
            push_bytes(out, bytes.as_slice());
            push_crlf(out);
            assert(out@ =~= before + wire(value@));
        },
        Value::Array(None) => push_line(out, STAR, signed_decimal_text(-1).as_str()),
        Value::Array(Some(elements)) => {
            let ghost models = value@->Array_0->0;
            push_line(out, STAR, decimal_text(elements.len() as u64).as_str());
            let ghost header = out@;
            assert(models.take(0) =~= Seq::<Resp>::empty());
            assert(out@ =~= header + wire_all(models.take(0)));
            for i in 0..elements.len()
                invariant
                    out@ == header + wire_all(models.take(i as int)),
                    models.len() == elements@.len(),
                    forall|j: int| 0 <= j < elements@.len() ==> models[j] == (#[trigger] elements@[j])@,
                    decreases_to!(*value => *elements),
            {
                write(out, &elements[i]);
                proof {
                    let next = models.take(i + 1);
                    assert(next.drop_last() =~= models.take(i as int));
                    assert(next.last() == elements@[i as int]@);
                    assert(out@ =~= header + wire_all(next));
                }
            }
            assert(models.take(elements@.len() as int) =~= models);
            assert(out@ =~= before + wire(value@));
        },
    }
}

/// `value` as bytes on the wire.
#[must_use]
pub fn encode(value: &Value) -> (bytes: Vec<u8>)
    ensures
        bytes@ == wire(value@),
{
    let mut out: Vec<u8> = Vec::new();
    write(&mut out, value);
    assert(out@ =~= wire(value@));
    out
}

/// What stands at a place in a buffer, with where the bytes after it start.
pub(crate) enum Taken {
    Closed,
    Value(Value, usize),
    Cut(Error),
    Bad(Error, usize),
}

impl Taken {
    /// Whether this is what `parsed` says, in the buffer `input`.
    pub(crate) open spec fn matches(&self, input: Seq<u8>, parsed: Parsed) -> bool {
        match (*self, parsed) {
            (Taken::Closed, Parsed::Closed) => true,
            (Taken::Value(value, next), Parsed::Value(model, rest)) => {
                &&& value@ == model
                &&& next <= input.len()
                &&& rest == input.skip(next as int)
            },
            (Taken::Cut(error), Parsed::Cut(fault)) => error@ == fault,
            (Taken::Bad(error, next), Parsed::Bad(fault, rest)) => {
                &&& error@ == fault
                &&& next <= input.len()
                &&& rest == input.skip(next as int)
            },
            _ => false,
        }
    }
}

/// Where the first LF at or after `at` stands.
fn find_lf(input: &[u8], at: usize) -> (found: Option<usize>)
    requires
        at <= input@.len(),
    ensures
        match (found, input@.skip(at as int).index_of_first(LF)) {
            (Some(end), Some(index)) => end == at + index && end < input@.len(),
            (None, None) => true,
            _ => false,
        },
{
    let ghost tail = input@.skip(at as int);
    let mut i: usize = at;
    while i < input.len()
        invariant
            at <= i <= input@.len(),
            tail == input@.skip(at as int),
            forall|j: int| 0 <= j < i - at ==> tail[j] != LF,
        decreases input@.len() - i,
    {
        assert(tail[i - at] == input@[i as int]);
        if input[i] == LF {
            proof {
                tail.index_of_first_ensures(LF);
            }
            return Some(i);
        }
        i = i + 1;
    }
    proof {
        tail.index_of_first_ensures(LF);
    }
    None
}

/// What a bulk string of the stated length comes to, its bytes from `at` on.
fn take_bulk(input: &[u8], at: usize, length: i64) -> (taken: Taken)
    requires
        at <= input@.len(),
    ensures
        taken.matches(input@, parse_bulk(length, input@.skip(at as int))),
        taken matches Taken::Value(value, _) ==> writable(value@),
{
    let ghost rest = input@.skip(at as int);
    if length == -1 {
        return Taken::Value(Value::Bulk(None), at);
    }
    if length < 0 {
        return Taken::Bad(Error::NegativeBulk, at);
    }
    let size: usize = if length as u64 <= usize::MAX as u64 {
        length as usize
    } else {
        0
    };
    assert(size == bulk_size(length));
    let left: usize = input.len() - at;
    if left < 2 || left - 2 < size {
        return Taken::Cut(Error::ShortBulk);
    }
    let end: usize = at + size;
    assert(rest.skip(size + 2) =~= input@.skip(end + 2));
    assert(rest.subrange(size as int, size + 2) =~= seq![input@[end as int], input@[end + 1]]);
    if input[end] != CR || input[end + 1] != LF {
        assert(rest.subrange(size as int, size + 2)[0] == input@[end as int]);
        assert(rest.subrange(size as int, size + 2)[1] == input@[end + 1]);
        return Taken::Bad(Error::UnendedBulk, end + 2);
    }
    let bytes = slice_to_vec(slice_subrange(input, at, end));
    assert(bytes@ =~= rest.take(size as int));
    Taken::Value(Value::Bulk(Some(bytes)), end + 2)
}

/// A value takes bytes, and so does what is no value. Only where there are no
/// bytes did they end between values.
pub proof fn lemma_parse_takes(input: Seq<u8>)
    ensures
        parse(input) is Closed <==> input.len() == 0,
        parse(input) matches Parsed::Value(Resp::Array(Some(elements)), _) ==> elements.len()
            <= i64::MAX,
        match parse(input) {
            Parsed::Value(_, rest) => rest.len() < input.len(),
            Parsed::Bad(_, rest) => rest.len() < input.len(),
            _ => true,
        },
    decreases input.len(), 0nat,
{
    input.index_of_first_ensures(LF);
    if let Some(end) = input.index_of_first(LF) {
        let rest = input.skip(end + 1);
        if let Some(n) = parse_i64(lossy(input.subrange(1, end - 1))) {
            if n >= 0 {
                lemma_parse_all_takes(rest, n as nat);
            }
        }
    }
}

/// A run of values takes no more bytes than there are.
proof fn lemma_parse_all_takes(input: Seq<u8>, count: nat)
    ensures
        match parse_all(input, count) {
            ParsedAll::Elements(elements, rest) => rest.len() <= input.len() && elements.len()
                == count,
            ParsedAll::Stopped(Parsed::Value(_, rest)) => false,
            ParsedAll::Stopped(Parsed::Bad(_, rest)) => rest.len() <= input.len(),
            ParsedAll::Stopped(Parsed::Closed) => false,
            _ => true,
        },
    decreases input.len(), count + 1,
{
    if count > 0 {
        lemma_parse_takes(input);
        if let Parsed::Value(_, rest) = parse(input) {
            lemma_parse_all_takes(rest, (count - 1) as nat);
        }
    }
}

/// What stands at `at` in `input`.
pub(crate) fn take(input: &[u8], at: usize) -> (taken: Taken)
    requires
        at <= input@.len(),
    ensures
        taken.matches(input@, parse(input@.skip(at as int))),
        taken matches Taken::Value(value, _) ==> writable(value@),
    decreases input@.len() - at, 0nat,
{
    let ghost tail = input@.skip(at as int);
    proof {
        tail.index_of_first_ensures(LF);
    }
    let end: usize = match find_lf(input, at) {
        None => {
            if at == input.len() {
                return Taken::Closed;
            }
            return Taken::Cut(Error::UnendedLine);
        },
        Some(end) => end,
    };
    assert(end < input.len());
    let next: usize = end + 1;
    assert(tail.skip(end - at + 1) =~= input@.skip(next as int));
    if end - at < 2 || input[end - 1] != CR {
        return Taken::Bad(Error::BareLine, next);
    }
    let tag: u8 = input[at];
    let text = lossy_text(slice_subrange(input, at + 1, end - 1));
    assert(input@.subrange(at + 1, end - 1) =~= tail.subrange(1, end - at - 1));
    assert(!text@.contains('\n')) by {
        let bytes = tail.subrange(1, end - at - 1);
        if bytes.contains(LF) {
            let i = choose|i: int| 0 <= i < bytes.len() && bytes[i] == LF;
            assert(tail[i + 1] == LF);
        }
    }
    if tag == PLUS {
        return Taken::Value(Value::Simple(text), next);
    }
    if tag == MINUS {
        return Taken::Value(Value::Error(text), next);
    }
    if tag != COLON && tag != DOLLAR && tag != STAR {
        return Taken::Bad(Error::NotAType(tag), next);
    }
    let number: i64 = match read_i64(text.as_str()) {
        None => {
            return Taken::Bad(Error::NotANumber(text), next);
        },
        Some(number) => number,
    };
    if tag == COLON {
        return Taken::Value(Value::Integer(number), next);
    }
    if tag == DOLLAR {
        return take_bulk(input, next, number);
    }
    if number == -1 {
        return Taken::Value(Value::Array(None), next);
    }
    if number < 0 {
        return Taken::Bad(Error::NegativeArray, next);
    }
    take_all(input, next, number as u64)
}

/// What an array of `count` elements comes to, its elements from `from` on.
fn take_all(input: &[u8], from: usize, count: u64) -> (taken: Taken)
    requires
        from <= input@.len(),
        count <= i64::MAX,
    ensures
        taken.matches(
            input@,
            match parse_all(input@.skip(from as int), count as nat) {
                ParsedAll::Elements(elements, after) => Parsed::Value(
                    Resp::Array(Some(elements)),
                    after,
                ),
                ParsedAll::Stopped(parsed) => parsed,
            },
        ),
        taken matches Taken::Value(value, _) ==> writable(value@),
    decreases input@.len() - from, 1nat,
{
    let ghost all = parse_all(input@.skip(from as int), count as nat);
    let mut elements: Vec<Value> = Vec::new();
    let mut at: usize = from;
    let mut i: u64 = 0;
    assert(values_of(elements@) =~= Seq::<Resp>::empty());
    proof {
        if let ParsedAll::Elements(others, _) = all {
            assert(values_of(elements@) + others =~= others);
        }
    }
    while i < count
        invariant
            all == parse_all(input@.skip(from as int), count as nat),
            from <= at <= input@.len(),
            i <= count <= i64::MAX,
            elements@.len() == i,
            forall|j: int| 0 <= j < i ==> writable((#[trigger] elements@[j])@),
            match parse_all(input@.skip(at as int), (count - i) as nat) {
                ParsedAll::Elements(others, after) => all == ParsedAll::Elements(
                    values_of(elements@) + others,
                    after,
                ),
                stopped => all == stopped,
            },
        decreases count - i,
    {
        let ghost before = elements@;
        let ghost tail = input@.skip(at as int);
        proof {
            lemma_parse_takes(tail);
        }
        match take(input, at) {
            Taken::Closed => {
                return Taken::Cut(Error::UnendedArray);
            },
            Taken::Value(element, next) => {
                elements.push(element);
                at = next;
                proof {
                    let rest = input@.skip(next as int);
                    if let ParsedAll::Elements(others, _) = parse_all(rest, (count - i - 1) as nat) {
                        assert(values_of(elements@) =~= values_of(before).push(element@));
                        assert(values_of(elements@) + others =~= values_of(before) + (seq![element@]
                            + others));
                    }
                }
            },
            other => {
                return other;
            },
        }
        i = i + 1;
    }
    let array = Value::Array(Some(elements));
    assert(array@->Array_0->0 =~= values_of(elements@));
    assert forall|j: int| 0 <= j < values_of(elements@).len() implies writable(
        #[trigger] values_of(elements@)[j],
    ) by {
        assert(writable(elements@[j]@));
    }
    assert(values_of(elements@) + Seq::<Resp>::empty() =~= values_of(elements@));
    Taken::Value(array, at)
}

/// Reads one value off the front of `reader`, or `None` where `reader` is
/// empty: the peer closed between values. Whatever is read can be written, and
/// is read again unchanged.
///
/// # Errors
/// Bytes that end inside a value, a type byte RESP does not have, or a length
/// that is not a number.
pub fn read(reader: &mut &[u8]) -> (outcome: Result<Option<Value>, Error>)
    ensures
        match parse(old(reader)@) {
            Parsed::Closed => outcome matches Ok(None) && final(reader)@ == old(reader)@,
            Parsed::Value(model, rest) => {
                &&& outcome matches Ok(Some(value)) && value@ == model
                &&& final(reader)@ == rest
            },
            Parsed::Cut(fault) => {
                &&& outcome matches Err(error) && error@ == fault
                &&& final(reader)@.len() == 0
            },
            Parsed::Bad(fault, rest) => {
                &&& outcome matches Err(error) && error@ == fault
                &&& final(reader)@ == rest
            },
        },
        outcome matches Ok(Some(value)) ==> writable(value@) && parse(wire(value@))
            == Parsed::Value(value@, Seq::empty()),
{
    let input: &[u8] = *reader;
    assert(input@.skip(0) =~= input@);
    match take(input, 0) {
        Taken::Closed => Ok(None),
        Taken::Value(value, next) => {
            *reader = slice_subrange(input, next, input.len());
            proof {
                law_written_is_read(value@, Seq::empty());
                assert(wire(value@) + Seq::<u8>::empty() =~= wire(value@));
            }
            Ok(Some(value))
        },
        Taken::Cut(error) => {
            *reader = slice_subrange(input, input.len(), input.len());
            Err(error)
        },
        Taken::Bad(error, next) => {
            *reader = slice_subrange(input, next, input.len());
            Err(error)
        },
    }
}

} // verus!
