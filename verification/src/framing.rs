//! What holds of the wire format as a whole: a value that is written is the
//! value that is read, and bytes that arrive later change nothing of what came
//! before them.

use vstd::prelude::*;
use vstd::utf8::{encode_scalar, encode_utf8};

use crate::connection::{next_value, Progress};
use crate::decimal::{
    decimal, is_digit, lemma_decimal, lemma_signed_round_trip, parse_i64, signed_decimal,
};
use crate::error::Fault;
use crate::resp::{
    bulk_size, crlf, lemma_parse_takes, line, parse, parse_all, parse_bulk, wire, wire_all, Parsed,
    ParsedAll, Resp, COLON, CR, DOLLAR, LF, MINUS, PLUS, STAR,
};
use crate::text::{lemma_lossy_of_text, lossy};

verus! {

/// Whether RESP can carry a value: no line feed inside a simple string or an
/// error, and no length past what a number of 64 bits or an address holds.
pub open spec fn writable(value: Resp) -> bool
    decreases value,
{
    match value {
        Resp::Simple(text) => !text.contains('\n'),
        Resp::Error(text) => !text.contains('\n'),
        Resp::Integer(_) => true,
        Resp::Bulk(None) => true,
        Resp::Bulk(Some(bytes)) => bytes.len() <= i64::MAX && bytes.len() <= usize::MAX,
        Resp::Array(None) => true,
        Resp::Array(Some(elements)) => {
            &&& elements.len() <= i64::MAX
            &&& forall|i: int| 0 <= i < elements.len() ==> writable(#[trigger] elements[i])
        },
    }
}

/// A character other than LF encodes to bytes other than LF.
proof fn lemma_scalar_without_lf(c: char)
    requires
        c != '\n',
    ensures
        !encode_scalar(c as u32).contains(LF),
{
    let v = c as u32;
    assert(v <= 0x7f ==> (v & 0x7F) as u8 == v) by (bit_vector);
    assert(0xC0 | ((v >> 6) & 0x1F) as u8 >= 0x80) by (bit_vector);
    assert(0xE0 | ((v >> 12) & 0x0F) as u8 >= 0x80) by (bit_vector);
    assert(0xF0 | ((v >> 18) & 0x7) as u8 >= 0x80) by (bit_vector);
    assert(0x80 | (v & 0x3F) as u8 >= 0x80) by (bit_vector);
    assert(0x80 | ((v >> 6) & 0x3F) as u8 >= 0x80) by (bit_vector);
    assert(0x80 | ((v >> 12) & 0x3F) as u8 >= 0x80) by (bit_vector);
}

/// A text without a line feed encodes to bytes without one.
pub proof fn lemma_text_without_lf(text: Seq<char>)
    requires
        !text.contains('\n'),
    ensures
        !encode_utf8(text).contains(LF),
    decreases text.len(),
{
    if text.len() > 0 {
        let rest = text.drop_first();
        assert(text.contains(text[0]));
        assert(!rest.contains('\n')) by {
            if rest.contains('\n') {
                let i = choose|i: int| 0 <= i < rest.len() && rest[i] == '\n';
                assert(text[i + 1] == '\n');
            }
        }
        lemma_text_without_lf(rest);
        lemma_scalar_without_lf(text[0]);
        let first = encode_scalar(text[0] as u32);
        let whole = encode_utf8(text);
        assert(whole == first + encode_utf8(rest));
        if whole.contains(LF) {
            let i = choose|i: int| 0 <= i < whole.len() && whole[i] == LF;
            if i < first.len() {
                assert(first[i] == LF);
            } else {
                assert(encode_utf8(rest)[i - first.len()] == LF);
            }
        }
    }
}

/// A line that is followed by any bytes: where it ends, what its text is, and
/// what is left after it.
proof fn lemma_line(tag: u8, text: Seq<char>, rest: Seq<u8>)
    requires
        !text.contains('\n'),
        tag != LF,
    ensures
        ({
            let input = line(tag, text) + rest;
            let end = encode_utf8(text).len() as int + 2;
            &&& input.index_of_first(LF) == Some(end)
            &&& input[0] == tag
            &&& input[end - 1] == CR
            &&& lossy(input.subrange(1, end - 1)) == text
            &&& input.skip(end + 1) == rest
        }),
{
    let bytes = encode_utf8(text);
    let input = line(tag, text) + rest;
    let end = bytes.len() as int + 2;
    lemma_text_without_lf(text);
    lemma_lossy_of_text(text);
    input.index_of_first_ensures(LF);
    assert(input[end] == LF);
    assert forall|j: int| 0 <= j < end implies input[j] != LF by {
        if 1 <= j <= bytes.len() {
            assert(input[j] == bytes[j - 1]);
            assert(bytes.contains(bytes[j - 1]));
        }
    }
    assert(input.subrange(1, end - 1) =~= bytes);
    assert(input.skip(end + 1) =~= rest);
}

/// A number in decimal holds no line feed.
proof fn lemma_decimal_without_lf(n: int)
    ensures
        !signed_decimal(n).contains('\n'),
{
    let text = signed_decimal(n);
    let digits = if n < 0 {
        decimal((-n) as nat)
    } else {
        decimal(n as nat)
    };
    lemma_decimal((-n) as nat);
    lemma_decimal(n as nat);
    if text.contains('\n') {
        let i = choose|i: int| 0 <= i < text.len() && text[i] == '\n';
        if n < 0 {
            assert(text[i] == if i == 0 {
                '-'
            } else {
                digits[i - 1]
            });
            assert(i > 0 ==> is_digit(digits[i - 1]));
        } else {
            assert(is_digit(digits[i]));
        }
    }
}

/// A line that holds a number is read as that number.
proof fn lemma_number_line(tag: u8, n: i64, rest: Seq<u8>)
    requires
        tag != LF,
    ensures
        ({
            let text = signed_decimal(n as int);
            let input = line(tag, text) + rest;
            let end = encode_utf8(text).len() as int + 2;
            &&& input.index_of_first(LF) == Some(end)
            &&& input[0] == tag
            &&& input[end - 1] == CR
            &&& parse_i64(lossy(input.subrange(1, end - 1))) == Some(n)
            &&& input.skip(end + 1) == rest
        }),
{
    lemma_decimal_without_lf(n as int);
    lemma_line(tag, signed_decimal(n as int), rest);
    lemma_signed_round_trip(n);
}

/// The bytes of a run of values start with the bytes of the first.
pub proof fn lemma_wire_all_first(values: Seq<Resp>)
    requires
        values.len() > 0,
    ensures
        wire_all(values) == wire(values[0]) + wire_all(values.skip(1)),
    decreases values.len(),
{
    let front = values.drop_last();
    if values.len() == 1 {
        assert(wire_all(front) =~= Seq::<u8>::empty());
        assert(wire_all(values.skip(1)) =~= Seq::<u8>::empty());
        assert(wire_all(values) =~= wire(values[0]) + wire_all(values.skip(1)));
    } else {
        lemma_wire_all_first(front);
        assert(values.skip(1).drop_last() =~= front.skip(1));
        assert(wire_all(values) =~= wire(values[0]) + (wire_all(front.skip(1)) + wire(
            values.last(),
        )));
    }
}

/// A value that is written, with any bytes after it, is read back as the same
/// value, and the bytes after it are left.
pub proof fn law_written_is_read(value: Resp, rest: Seq<u8>)
    requires
        writable(value),
    ensures
        parse(wire(value) + rest) == Parsed::Value(value, rest),
    decreases value,
{
    match value {
        Resp::Simple(text) => lemma_line(PLUS, text, rest),
        Resp::Error(text) => lemma_line(MINUS, text, rest),
        Resp::Integer(n) => lemma_number_line(COLON, n, rest),
        Resp::Bulk(None) => lemma_number_line(DOLLAR, (-1) as i64, rest),
        Resp::Bulk(Some(bytes)) => {
            let n = bytes.len() as i64;
            let after = bytes + crlf() + rest;
            lemma_number_line(DOLLAR, n, after);
            assert(wire(value) + rest =~= line(DOLLAR, decimal(bytes.len())) + after);
            assert(after.subrange(n as int, n + 2) =~= crlf());
            assert(after.take(n as int) =~= bytes);
            assert(after.skip(n + 2) =~= rest);
        },
        Resp::Array(None) => lemma_number_line(STAR, (-1) as i64, rest),
        Resp::Array(Some(elements)) => {
            let n = elements.len() as i64;
            let after = wire_all(elements) + rest;
            lemma_number_line(STAR, n, after);
            assert(wire(value) + rest =~= line(STAR, decimal(elements.len())) + after);
            law_all_written_are_read(elements, rest);
        },
    }
}

/// Values that are written one after the other, with any bytes after them, are
/// read back in the same order.
pub proof fn law_all_written_are_read(values: Seq<Resp>, rest: Seq<u8>)
    requires
        forall|i: int| 0 <= i < values.len() ==> writable(#[trigger] values[i]),
    ensures
        parse_all(wire_all(values) + rest, values.len()) == ParsedAll::Elements(values, rest),
    decreases values,
{
    if values.len() == 0 {
        assert(wire_all(values) + rest =~= rest);
        assert(values =~= Seq::<Resp>::empty());
    } else {
        let others = values.skip(1);
        let after = wire_all(others) + rest;
        let input = wire_all(values) + rest;
        lemma_wire_all_first(values);
        assert(input =~= wire(values[0]) + after);
        law_written_is_read(values[0], after);
        lemma_parse_takes(input);
        law_all_written_are_read(others, rest);
        assert(seq![values[0]] + others =~= values);
    }
}

/// Bytes after a line leave the line where it is.
proof fn lemma_line_stays(input: Seq<u8>, more: Seq<u8>)
    ensures
        input.index_of_first(LF) matches Some(end) ==> {
            &&& 0 <= end < input.len()
            &&& (input + more).index_of_first(LF) == Some(end)
            &&& (input + more).skip(end + 1) == input.skip(end + 1) + more
            &&& 1 <= end - 1 ==> (input + more).subrange(1, end - 1) == input.subrange(1, end - 1)
        },
{
    input.index_of_first_ensures(LF);
    (input + more).index_of_first_ensures(LF);
    if let Some(end) = input.index_of_first(LF) {
        let whole = input + more;
        assert(whole[end] == LF);
        let other = whole.index_of_first(LF)->0;
        assert(other <= end);
        assert(whole[other] == input[other]);
        assert(whole.skip(end + 1) =~= input.skip(end + 1) + more);
        if 1 <= end - 1 {
            assert(whole.subrange(1, end - 1) =~= input.subrange(1, end - 1));
        }
    }
}

/// Bytes after a bulk string leave the bulk string as it is.
proof fn lemma_bulk_stays(length: i64, input: Seq<u8>, more: Seq<u8>)
    ensures
        match parse_bulk(length, input) {
            Parsed::Value(value, rest) => parse_bulk(length, input + more) == Parsed::Value(
                value,
                rest + more,
            ),
            Parsed::Bad(fault, rest) => parse_bulk(length, input + more) == Parsed::Bad(
                fault,
                rest + more,
            ),
            _ => true,
        },
{
    let size = bulk_size(length);
    if length >= 0 && input.len() >= size + 2 {
        let whole = input + more;
        assert(whole.subrange(size, size + 2) =~= input.subrange(size, size + 2));
        assert(whole.take(size) =~= input.take(size));
        assert(whole.skip(size + 2) =~= input.skip(size + 2) + more);
    }
}

/// Bytes that arrive later change nothing of what was already read: a value
/// stays the same value, and what is no value stays refused in the same way.
/// Only bytes that end inside a value, or between values, wait for more.
pub proof fn law_later_bytes_change_nothing(input: Seq<u8>, more: Seq<u8>)
    ensures
        match parse(input) {
            Parsed::Value(value, rest) => parse(input + more) == Parsed::Value(value, rest + more),
            Parsed::Bad(fault, rest) => parse(input + more) == Parsed::Bad(fault, rest + more),
            _ => true,
        },
    decreases input.len(), 0nat,
{
    lemma_line_stays(input, more);
    if let Some(end) = input.index_of_first(LF) {
        let rest = input.skip(end + 1);
        if end >= 2 {
            assert((input + more)[0] == input[0]);
            assert((input + more)[end - 1] == input[end - 1]);
            if let Some(n) = parse_i64(lossy(input.subrange(1, end - 1))) {
                lemma_bulk_stays(n, rest, more);
                if n >= 0 {
                    lemma_all_stay(rest, n as nat, more);
                }
            }
        }
    }
}

/// Bytes after a run of values leave the run as it is.
proof fn lemma_all_stay(input: Seq<u8>, count: nat, more: Seq<u8>)
    ensures
        match parse_all(input, count) {
            ParsedAll::Elements(elements, rest) => parse_all(input + more, count)
                == ParsedAll::Elements(elements, rest + more),
            ParsedAll::Stopped(Parsed::Bad(fault, rest)) => parse_all(input + more, count)
                == ParsedAll::Stopped(Parsed::Bad(fault, rest + more)),
            ParsedAll::Stopped(Parsed::Value(_, _)) => false,
            _ => true,
        },
    decreases input.len(), count + 1,
{
    if count > 0 {
        law_later_bytes_change_nothing(input, more);
        lemma_parse_takes(input);
        lemma_parse_takes(input + more);
        if let Parsed::Value(_, rest) = parse(input) {
            lemma_all_stay(rest, (count - 1) as nat, more);
        }
    }
}

/// The bytes of a value, cut short anywhere, are never taken for a value or
/// refused while the peer has not closed: they wait for the rest. Where it
/// closes, a cut inside the value is an error, and none before its first byte.
pub proof fn law_cut_bytes_wait(value: Resp, cut: int)
    requires
        writable(value),
        0 <= cut < wire(value).len(),
    ensures
        ({
            let head = wire(value).take(cut);
            &&& cut == 0 ==> parse(head) is Closed
            &&& cut > 0 ==> parse(head) is Cut
            &&& next_value(head, false).0 matches Ok(Progress::Waiting(_))
            &&& next_value(head, false).1 == head
            &&& cut == 0 ==> next_value(head, true).0 == Ok::<_, Fault>(
                Progress::Done(None::<Resp>),
            )
            &&& cut > 0 ==> next_value(head, true).0 is Err
        }),
{
    let whole = wire(value);
    let head = whole.take(cut);
    let tail = whole.skip(cut);
    assert(head + tail =~= whole + Seq::<u8>::empty());
    law_written_is_read(value, Seq::empty());
    law_later_bytes_change_nothing(head, tail);
    lemma_parse_takes(head);
}

} // verus!
