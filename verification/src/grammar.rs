//! RESP byte by byte: what every value is written as, and what bytes are read
//! as, stated on the bytes themselves.

use vstd::prelude::*;
use vstd::utf8::{encode_utf8, is_ascii_chars_encode_utf8};

use crate::connection::{next_value, value_outcome, Awaited, Progress};
use crate::decimal::{
    decimal, is_digit, lemma_decimal, lemma_signed_round_trip, parse_i64, signed_decimal,
};
use crate::error::{Error, Fault};
use crate::framing::{law_later_bytes_change_nothing, writable};
use crate::resp::{
    bulk_of, bytes_in, command_of, elements_in, lemma_parse_takes, parse, parse_all, text_in,
    values_of, wire, wire_all, Parsed, ParsedAll, Resp, Value, LF,
};
use crate::text::{lemma_lossy_of_text, lossy};

verus! {

/// A value stands for what its parts hold, each in its place.
pub proof fn law_value_stands_for_its_parts(value: Value, i: int)
    ensures
        match value {
            Value::Simple(text) => value@ == Resp::Simple(text@),
            Value::Error(text) => value@ == Resp::Error(text@),
            Value::Integer(n) => value@ == Resp::Integer(n),
            Value::Bulk(None) => value@ == Resp::Bulk(None),
            Value::Bulk(Some(bytes)) => value@ == Resp::Bulk(Some(bytes@)),
            Value::Array(None) => value@ == Resp::Array(None),
            Value::Array(Some(elements)) => {
                &&& value@ matches Resp::Array(Some(models))
                &&& models.len() == elements@.len()
                &&& 0 <= i < models.len() ==> models[i] == elements@[i]@
            },
        },
{
}

/// Values stand for values one by one.
pub proof fn law_values_stand_one_by_one(values: Seq<Value>, i: int)
    requires
        0 <= i < values.len(),
    ensures
        values_of(values).len() == values.len(),
        values_of(values)[i] == values[i]@,
{
}

/// A text as a bulk string is its UTF-8 bytes; the arguments of a command are
/// bulk strings in their order.
pub proof fn law_command_holds_its_arguments(text: Seq<char>, arguments: Seq<Seq<u8>>, i: int)
    ensures
        bulk_of(text) == Resp::Bulk(Some(encode_utf8(text))),
        command_of(arguments) matches Resp::Array(Some(elements)) && elements.len()
            == arguments.len() && (0 <= i < arguments.len() ==> elements[i] == Resp::Bulk(
            Some(arguments[i]),
        )),
{
}

/// Bulk strings hold bytes and text, simple strings text, and arrays elements;
/// nothing else does.
pub proof fn law_what_values_hold(
    value: Resp,
    text: Seq<char>,
    bytes: Seq<u8>,
    elements: Seq<Resp>,
)
    ensures
        bytes_in(value) == Some(bytes) <==> value == Resp::Bulk(Some(bytes)),
        elements_in(value) == Some(elements) <==> value == Resp::Array(Some(elements)),
        text_in(Resp::Bulk(Some(bytes))) == Some(lossy(bytes)),
        text_in(Resp::Simple(text)) == Some(text),
        text_in(value) is Some ==> value is Simple || bytes_in(value) is Some,
{
}

/// A simple string is `+`, the text and CRLF; an error is `-`, the text and
/// CRLF.
pub proof fn law_text_is_written(text: Seq<char>)
    ensures
        wire(Resp::Simple(text)) == seq![43u8] + encode_utf8(text) + seq![13u8, 10u8],
        wire(Resp::Error(text)) == seq![45u8] + encode_utf8(text) + seq![13u8, 10u8],
{
}

/// An integer is `:`, the number in decimal and CRLF.
pub proof fn law_integer_is_written(n: i64)
    ensures
        wire(Resp::Integer(n)) == seq![58u8] + encode_utf8(
            if n < 0 {
                seq!['-'] + decimal((-(n as int)) as nat)
            } else {
                decimal(n as nat)
            },
        ) + seq![13u8, 10u8],
{
}

/// The null bulk string is `$-1` and CRLF, the null array `*-1` and CRLF.
pub proof fn law_null_is_written()
    ensures
        wire(Resp::Bulk(None)) == seq![36u8, 45u8, 49u8, 13u8, 10u8],
        wire(Resp::Array(None)) == seq![42u8, 45u8, 49u8, 13u8, 10u8],
{
    reveal_strlit("-1");
    is_ascii_chars_encode_utf8("-1"@);
    assert(signed_decimal(-1) =~= "-1"@);
    assert(encode_utf8("-1"@) =~= seq![45u8, 49u8]);
    assert(wire(Resp::Bulk(None)) =~= seq![36u8, 45u8, 49u8, 13u8, 10u8]);
    assert(wire(Resp::Array(None)) =~= seq![42u8, 45u8, 49u8, 13u8, 10u8]);
}

/// A bulk string is `$`, its length in decimal, CRLF, then each of its bytes in
/// its place, and CRLF.
pub proof fn law_bulk_is_written(bytes: Seq<u8>)
    ensures
        ({
            let length = encode_utf8(decimal(bytes.len()));
            let written = wire(Resp::Bulk(Some(bytes)));
            let at = 3 + length.len() as int;
            &&& written.len() == at + bytes.len() + 2
            &&& written[0] == 36
            &&& forall|i: int| 0 <= i < length.len() ==> #[trigger] written[1 + i] == length[i]
            &&& written[at - 2] == 13 && written[at - 1] == 10
            &&& forall|i: int| 0 <= i < bytes.len() ==> #[trigger] written[at + i] == bytes[i]
            &&& written[at + bytes.len()] == 13 && written[at + bytes.len() + 1] == 10
        }),
{
}

/// An array is `*`, the number of its elements in decimal, CRLF, and each of its
/// elements as it is written on its own, in order.
pub proof fn law_array_is_written(elements: Seq<Resp>)
    ensures
        wire(Resp::Array(Some(elements))) == seq![42u8] + encode_utf8(decimal(elements.len()))
            + seq![13u8, 10u8] + elements.map_values(|element: Resp| wire(element)).flatten(),
        wire_all(elements) == elements.map_values(|element: Resp| wire(element)).flatten(),
{
    lemma_all_written(elements);
    assert(wire(Resp::Array(Some(elements))) =~= seq![42u8] + encode_utf8(
        decimal(elements.len()),
    ) + seq![13u8, 10u8] + elements.map_values(|element: Resp| wire(element)).flatten());
}

/// Values are written one after the other.
proof fn lemma_all_written(values: Seq<Resp>)
    ensures
        wire_all(values) == values.map_values(|element: Resp| wire(element)).flatten(),
    decreases values.len(),
{
    let each = |element: Resp| wire(element);
    let parts = values.map_values(each);
    if values.len() > 0 {
        crate::framing::lemma_wire_all_first(values);
        let others = values.skip(1);
        lemma_all_written(others);
        assert(parts.drop_first() =~= others.map_values(each));
        assert(parts.first() == wire(values[0]));
    }
}

/// RESP can carry what holds no line feed in a simple string or an error, and no
/// length past what 64 bits or an address hold.
pub proof fn law_what_can_be_written(value: Resp)
    ensures
        writable(value) <==> match value {
            Resp::Simple(text) => forall|i: int| 0 <= i < text.len() ==> #[trigger] text[i] != '\n',
            Resp::Error(text) => forall|i: int| 0 <= i < text.len() ==> #[trigger] text[i] != '\n',
            Resp::Integer(_) => true,
            Resp::Bulk(bytes) => bytes matches Some(bytes) ==> bytes.len()
                <= 0x7fff_ffff_ffff_ffff && bytes.len() <= usize::MAX,
            Resp::Array(elements) => elements matches Some(elements) ==> elements.len()
                <= 0x7fff_ffff_ffff_ffff && forall|i: int|
                0 <= i < elements.len() ==> writable(#[trigger] elements[i]),
        },
{
    match value {
        Resp::Simple(text) => {
            if !text.contains('\n') {
                assert forall|i: int| 0 <= i < text.len() implies #[trigger] text[i] != '\n' by {
                    assert(text.contains(text[i]));
                }
            }
        },
        Resp::Error(text) => {
            if !text.contains('\n') {
                assert forall|i: int| 0 <= i < text.len() implies #[trigger] text[i] != '\n' by {
                    assert(text.contains(text[i]));
                }
            }
        },
        _ => {},
    }
}

/// A line that is followed by any bytes: where it ends, what it holds, and what
/// is left after it.
proof fn lemma_line_found(tag: u8, text: Seq<u8>, rest: Seq<u8>)
    requires
        tag != 10,
        !text.contains(10),
    ensures
        ({
            let input = seq![tag] + text + seq![13u8, 10u8] + rest;
            let end = text.len() as int + 2;
            &&& input.index_of_first(LF) == Some(end)
            &&& input[0] == tag
            &&& input[end - 1] == 13
            &&& input.subrange(1, end - 1) == text
            &&& input.skip(end + 1) == rest
        }),
{
    let input = seq![tag] + text + seq![13u8, 10u8] + rest;
    let end = text.len() as int + 2;
    input.index_of_first_ensures(LF);
    assert(input[end] == 10);
    let found = input.index_of_first(LF)->0;
    if found < end {
        if 1 <= found < 1 + text.len() {
            assert(text[found - 1] == 10);
            assert(text.contains(10));
        }
    }
    assert(input.subrange(1, end - 1) =~= text);
    assert(input.skip(end + 1) =~= rest);
}

/// `+`, a line and CRLF are a simple string, `-` an error, and what follows is
/// left.
pub proof fn law_text_is_read(text: Seq<u8>, rest: Seq<u8>)
    requires
        !text.contains(10),
    ensures
        parse(seq![43u8] + text + seq![13u8, 10u8] + rest) == Parsed::Value(
            Resp::Simple(lossy(text)),
            rest,
        ),
        parse(seq![45u8] + text + seq![13u8, 10u8] + rest) == Parsed::Value(
            Resp::Error(lossy(text)),
            rest,
        ),
{
    lemma_line_found(43, text, rest);
    lemma_line_found(45, text, rest);
}

/// `:`, a number and CRLF are that integer, and what follows is left.
pub proof fn law_integer_is_read(text: Seq<u8>, n: i64, rest: Seq<u8>)
    requires
        !text.contains(10),
        parse_i64(lossy(text)) == Some(n),
    ensures
        parse(seq![58u8] + text + seq![13u8, 10u8] + rest) == Parsed::Value(
            Resp::Integer(n),
            rest,
        ),
{
    lemma_line_found(58, text, rest);
}

/// A length or an integer that is not a number is refused, and what follows its
/// line is left.
pub proof fn law_no_number_is_refused(tag: u8, text: Seq<u8>, rest: Seq<u8>)
    requires
        tag == 58 || tag == 36 || tag == 42,
        !text.contains(10),
        parse_i64(lossy(text)) is None,
    ensures
        parse(seq![tag] + text + seq![13u8, 10u8] + rest) == Parsed::Bad(
            Fault::NotANumber(lossy(text)),
            rest,
        ),
{
    lemma_line_found(tag, text, rest);
}

/// A type byte that RESP does not have is refused, and what follows its line is
/// left.
pub proof fn law_no_type_is_refused(tag: u8, text: Seq<u8>, rest: Seq<u8>)
    requires
        tag != 43 && tag != 45 && tag != 58 && tag != 36 && tag != 42 && tag != 10,
        !text.contains(10),
    ensures
        parse(seq![tag] + text + seq![13u8, 10u8] + rest) == Parsed::Bad(
            Fault::NotAType(tag),
            rest,
        ),
{
    lemma_line_found(tag, text, rest);
}

/// A line that ends in LF without CR before it, or that holds nothing before its
/// CRLF, is refused, and what follows it is left.
pub proof fn law_bare_line_is_refused(line: Seq<u8>, rest: Seq<u8>)
    requires
        !line.contains(10),
        line.len() < 2 || line.last() != 13,
    ensures
        parse(line + seq![10u8] + rest) == Parsed::Bad(Fault::BareLine, rest),
{
    let input = line + seq![10u8] + rest;
    input.index_of_first_ensures(LF);
    assert(input[line.len() as int] == 10);
    let found = input.index_of_first(LF)->0;
    if found < line.len() {
        assert(line[found] == 10);
        assert(line.contains(10));
    }
    assert(input.skip(line.len() as int + 1) =~= rest);
}

/// Where nothing arrived the bytes ended between values, and where no line feed
/// did, inside a line.
pub proof fn law_no_line_is_cut(input: Seq<u8>)
    requires
        !input.contains(10),
    ensures
        parse(input) == if input.len() == 0 {
            Parsed::Closed
        } else {
            Parsed::Cut(Fault::UnendedLine)
        },
{
    input.index_of_first_ensures(LF);
}

/// `$`, a length, CRLF, as many bytes as that, and CRLF are a bulk string of
/// exactly those bytes in their order, and what follows is left.
pub proof fn law_bulk_is_read(text: Seq<u8>, bytes: Seq<u8>, rest: Seq<u8>)
    requires
        !text.contains(10),
        bytes.len() <= 0x7fff_ffff_ffff_ffff,
        bytes.len() <= usize::MAX,
        parse_i64(lossy(text)) == Some(bytes.len() as i64),
    ensures
        parse(
            seq![36u8] + text + seq![13u8, 10u8] + bytes + seq![13u8, 10u8] + rest,
        ) == Parsed::Value(Resp::Bulk(Some(bytes)), rest),
{
    let n = bytes.len() as int;
    let after = bytes + seq![13u8, 10u8] + rest;
    lemma_line_found(36, text, after);
    assert(seq![36u8] + text + seq![13u8, 10u8] + bytes + seq![13u8, 10u8] + rest =~= seq![36u8]
        + text + seq![13u8, 10u8] + after);
    assert(after.subrange(n, n + 2) =~= seq![13u8, 10u8]);
    assert(after.take(n) =~= bytes);
    assert(after.skip(n + 2) =~= rest);
}

/// The same where the length is written in decimal, as every length is.
pub proof fn law_bulk_of_written_length_is_read(bytes: Seq<u8>, rest: Seq<u8>)
    requires
        bytes.len() <= 0x7fff_ffff_ffff_ffff,
        bytes.len() <= usize::MAX,
    ensures
        parse(
            seq![36u8] + encode_utf8(decimal(bytes.len())) + seq![13u8, 10u8] + bytes + seq![
                13u8,
                10u8,
            ] + rest,
        ) == Parsed::Value(Resp::Bulk(Some(bytes)), rest),
{
    let n = bytes.len();
    let length = decimal(n);
    let text = encode_utf8(length);
    lemma_decimal(n);
    lemma_signed_round_trip(n as i64);
    lemma_lossy_of_text(length);
    assert(!length.contains('\n')) by {
        if length.contains('\n') {
            let i = choose|i: int| 0 <= i < length.len() && length[i] == '\n';
            assert(is_digit(length[i]));
        }
    }
    crate::framing::lemma_text_without_lf(length);
    law_bulk_is_read(text, bytes, rest);
}

/// A bulk string whose bytes are not followed by CRLF is refused; one that ends
/// before that waits for the rest.
pub proof fn law_bulk_is_held_to_its_length(text: Seq<u8>, size: int, after: Seq<u8>)
    requires
        0 <= size,
        !text.contains(10),
        size <= 0x7fff_ffff_ffff_ffff,
        size <= usize::MAX,
        parse_i64(lossy(text)) == Some(size as i64),
    ensures
        after.len() < size + 2 ==> parse(seq![36u8] + text + seq![13u8, 10u8] + after)
            == Parsed::Cut(Fault::ShortBulk),
        after.len() >= size + 2 && !(after[size] == 13 && after[size + 1] == 10) ==> parse(
            seq![36u8] + text + seq![13u8, 10u8] + after,
        ) == Parsed::Bad(Fault::UnendedBulk, after.skip(size + 2)),
{
    lemma_line_found(36, text, after);
    if after.len() >= size + 2 {
        let end = after.subrange(size, size + 2);
        assert(end[0] == after[size] && end[1] == after[size + 1]);
    }
}

/// A length that no address reaches counts as zero.
pub proof fn law_bulk_past_every_address(text: Seq<u8>, n: i64, after: Seq<u8>)
    requires
        !text.contains(10),
        parse_i64(lossy(text)) == Some(n),
        n > usize::MAX,
    ensures
        parse(seq![36u8] + text + seq![13u8, 10u8] + after) == if after.len() < 2 {
            Parsed::Cut(Fault::ShortBulk)
        } else if after[0] == 13 && after[1] == 10 {
            Parsed::Value(Resp::Bulk(Some(Seq::empty())), after.skip(2))
        } else {
            Parsed::Bad(Fault::UnendedBulk, after.skip(2))
        },
{
    lemma_line_found(36, text, after);
    if after.len() >= 2 {
        let end = after.subrange(0, 2);
        assert(end[0] == after[0] && end[1] == after[1]);
        if after[0] == 13 && after[1] == 10 {
            assert(end =~= seq![13u8, 10u8]);
        }
        assert(after.take(0) =~= Seq::<u8>::empty());
    }
}

/// The length `-1` is the null, of bulk strings and of arrays, and any other
/// length below zero is refused.
pub proof fn law_lengths_below_zero(text: Seq<u8>, n: i64, rest: Seq<u8>)
    requires
        !text.contains(10),
        parse_i64(lossy(text)) == Some(n),
        n < 0,
    ensures
        parse(seq![36u8] + text + seq![13u8, 10u8] + rest) == if n == -1 {
            Parsed::Value(Resp::Bulk(None), rest)
        } else {
            Parsed::Bad(Fault::NegativeBulk, rest)
        },
        parse(seq![42u8] + text + seq![13u8, 10u8] + rest) == if n == -1 {
            Parsed::Value(Resp::Array(None), rest)
        } else {
            Parsed::Bad(Fault::NegativeArray, rest)
        },
{
    lemma_line_found(36, text, rest);
    lemma_line_found(42, text, rest);
}

/// Pieces that are values each, one after the other and before more bytes, are
/// read as those values before whatever the other bytes are read as.
proof fn lemma_pieces_read(
    pieces: Seq<Seq<u8>>,
    elements: Seq<Resp>,
    others: nat,
    after: Seq<u8>,
)
    requires
        pieces.len() == elements.len(),
        forall|i: int|
            0 <= i < pieces.len() ==> parse(#[trigger] pieces[i]) == Parsed::Value(
                elements[i],
                Seq::empty(),
            ),
    ensures
        parse_all(pieces.flatten() + after, pieces.len() + others) == match parse_all(
            after,
            others,
        ) {
            ParsedAll::Elements(later, left) => ParsedAll::Elements(elements + later, left),
            stopped => stopped,
        },
    decreases pieces.len(),
{
    if pieces.len() == 0 {
        assert(pieces.flatten() + after =~= after);
        if let ParsedAll::Elements(later, left) = parse_all(after, others) {
            assert(elements + later =~= later);
        }
    } else {
        let input = pieces.flatten() + after;
        let rest = pieces.drop_first().flatten() + after;
        assert(input =~= pieces[0] + rest);
        assert(parse(pieces[0]) == Parsed::Value(elements[0], Seq::empty()));
        law_later_bytes_change_nothing(pieces[0], rest);
        assert(Seq::<u8>::empty() + rest =~= rest);
        lemma_parse_takes(input);
        assert forall|i: int| 0 <= i < pieces.drop_first().len() implies parse(
            #[trigger] pieces.drop_first()[i],
        ) == Parsed::Value(elements.drop_first()[i], Seq::empty()) by {
            assert(pieces.drop_first()[i] == pieces[i + 1]);
        }
        lemma_pieces_read(pieces.drop_first(), elements.drop_first(), others, after);
        if let ParsedAll::Elements(later, left) = parse_all(after, others) {
            assert(seq![elements[0]] + (elements.drop_first() + later) =~= elements + later);
        }
    }
}

/// An array comes to what its elements come to.
proof fn lemma_array_found(text: Seq<u8>, n: i64, after: Seq<u8>)
    requires
        !text.contains(10),
        parse_i64(lossy(text)) == Some(n),
        n >= 0,
    ensures
        parse(seq![42u8] + text + seq![13u8, 10u8] + after) == match parse_all(after, n as nat) {
            ParsedAll::Elements(elements, left) => Parsed::Value(
                Resp::Array(Some(elements)),
                left,
            ),
            ParsedAll::Stopped(parsed) => parsed,
        },
{
    lemma_line_found(42, text, after);
}

/// `*`, a number, CRLF, and as many pieces as that, each a value, are the array
/// of those values in their order, and what follows is left.
pub proof fn law_array_is_read(
    text: Seq<u8>,
    pieces: Seq<Seq<u8>>,
    elements: Seq<Resp>,
    rest: Seq<u8>,
)
    requires
        !text.contains(10),
        pieces.len() == elements.len(),
        elements.len() <= 0x7fff_ffff_ffff_ffff,
        parse_i64(lossy(text)) == Some(elements.len() as i64),
        forall|i: int|
            0 <= i < pieces.len() ==> parse(#[trigger] pieces[i]) == Parsed::Value(
                elements[i],
                Seq::empty(),
            ),
    ensures
        parse(seq![42u8] + text + seq![13u8, 10u8] + pieces.flatten() + rest) == Parsed::Value(
            Resp::Array(Some(elements)),
            rest,
        ),
{
    let after = pieces.flatten() + rest;
    lemma_array_found(text, elements.len() as i64, after);
    assert(seq![42u8] + text + seq![13u8, 10u8] + pieces.flatten() + rest =~= seq![42u8] + text
        + seq![13u8, 10u8] + after);
    lemma_pieces_read(pieces, elements, 0, rest);
    assert(elements + Seq::<Resp>::empty() =~= elements);
}

/// Where values are awaited and none comes, what stands in its place stops them.
proof fn lemma_nothing_more(after: Seq<u8>, others: nat)
    requires
        others > 0,
        !(parse(after) is Value),
    ensures
        parse_all(after, others) == ParsedAll::Stopped(
            if after.len() == 0 {
                Parsed::Cut(Fault::UnendedArray)
            } else {
                parse(after)
            },
        ),
{
    lemma_parse_takes(after);
}

/// An array whose elements stop short of their number comes to what stands in
/// the place of the next: a refusal, a value that is cut, or an end inside the
/// array.
pub proof fn law_array_stops_short(
    text: Seq<u8>,
    n: i64,
    pieces: Seq<Seq<u8>>,
    elements: Seq<Resp>,
    after: Seq<u8>,
)
    requires
        !text.contains(10),
        parse_i64(lossy(text)) == Some(n),
        pieces.len() == elements.len(),
        elements.len() < n,
        forall|i: int|
            0 <= i < pieces.len() ==> parse(#[trigger] pieces[i]) == Parsed::Value(
                elements[i],
                Seq::empty(),
            ),
        !(parse(after) is Value),
    ensures
        parse(seq![42u8] + text + seq![13u8, 10u8] + pieces.flatten() + after) == if after.len()
            == 0 {
            Parsed::Cut(Fault::UnendedArray)
        } else {
            parse(after)
        },
{
    let all = pieces.flatten() + after;
    let others = (n - elements.len()) as nat;
    lemma_array_found(text, n, all);
    assert(seq![42u8] + text + seq![13u8, 10u8] + pieces.flatten() + after =~= seq![42u8] + text
        + seq![13u8, 10u8] + all);
    lemma_nothing_more(after, others);
    lemma_pieces_read(pieces, elements, others, after);
    assert(pieces.len() + others == n);
}

/// A connection hands on what its bytes are read as: a value with the rest left,
/// a refusal with the rest left, and, where the bytes end, that it waits, or what
/// is wrong once the peer has closed.
pub proof fn law_connection_hands_on(unread: Seq<u8>, closed: bool)
    ensures
        match parse(unread) {
            Parsed::Value(value, rest) => next_value(unread, closed) == (
                Ok::<_, Fault>(Progress::Done(Some(value))),
                rest,
            ),
            Parsed::Bad(fault, rest) => next_value(unread, closed) == (
                Err::<Progress<Option<Resp>>, _>(fault),
                rest,
            ),
            Parsed::Closed => next_value(unread, closed) == (
                Ok::<_, Fault>(
                    if closed {
                        Progress::Done(None::<Resp>)
                    } else {
                        Progress::Waiting(Awaited::Line)
                    },
                ),
                unread,
            ),
            Parsed::Cut(fault) => if closed {
                next_value(unread, closed) == (
                    Err::<Progress<Option<Resp>>, _>(fault),
                    Seq::<u8>::empty(),
                )
            } else {
                next_value(unread, closed) == (
                    Ok::<_, Fault>(
                        Progress::Waiting::<Option<Resp>>(
                            if fault == Fault::ShortBulk {
                                Awaited::Bulk
                            } else {
                                Awaited::Line
                            },
                        ),
                    ),
                    unread,
                )
            },
        },
{
}

/// An outcome stands for what it holds.
pub proof fn law_value_outcome_stands_for_its_parts(
    outcome: Result<Progress<Option<Value>>, Error>,
)
    ensures
        match outcome {
            Ok(Progress::Done(Some(value))) => value_outcome(outcome) == Ok::<_, Fault>(
                Progress::Done(Some(value@)),
            ),
            Ok(Progress::Done(None)) => value_outcome(outcome) == Ok::<_, Fault>(
                Progress::Done(None::<Resp>),
            ),
            Ok(Progress::Waiting(awaited)) => value_outcome(outcome) == Ok::<_, Fault>(
                Progress::Waiting::<Option<Resp>>(awaited),
            ),
            Err(error) => value_outcome(outcome) == Err::<Progress<Option<Resp>>, _>(error@),
        },
{
}

/// An error stands for what it tells.
pub proof fn law_error_stands_for_its_parts(error: Error)
    ensures
        match error {
            Error::UnendedLine => error@ == Fault::UnendedLine,
            Error::BareLine => error@ == Fault::BareLine,
            Error::ShortBulk => error@ == Fault::ShortBulk,
            Error::UnendedBulk => error@ == Fault::UnendedBulk,
            Error::NegativeBulk => error@ == Fault::NegativeBulk,
            Error::UnendedArray => error@ == Fault::UnendedArray,
            Error::NegativeArray => error@ == Fault::NegativeArray,
            Error::NotAType(byte) => error@ == Fault::NotAType(byte),
            Error::NotANumber(text) => error@ == Fault::NotANumber(text@),
            Error::Answered(text) => error@ == Fault::Answered(text@),
            Error::NotPong(value) => error@ == Fault::NotPong(value@),
            Error::ClosedUnanswered => error@ == Fault::ClosedUnanswered,
            Error::NoId => error@ == Fault::NoId,
            Error::NotEntries => error@ == Fault::NotEntries,
            Error::NothingAppended => error@ == Fault::NothingAppended,
        },
{
}

} // verus!
