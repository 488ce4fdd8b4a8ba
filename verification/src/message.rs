//! What goes wrong, in words.

use vstd::prelude::*;
use vstd::string::StringExecFns;

use crate::decimal::{decimal, push_decimal, signed_decimal, signed_decimal_text};
use crate::error::{Error, Fault};
use crate::resp::{Resp, Value};
use crate::text::{quoted, quoted_char, quoted_letter, quoted_text};

verus! {

/// Bytes as numbers, with commas between them.
pub open spec fn shown_bytes(bytes: Seq<u8>) -> Seq<char>
    decreases bytes.len(),
{
    if bytes.len() == 0 {
        Seq::empty()
    } else if bytes.len() == 1 {
        decimal(bytes[0] as nat)
    } else {
        shown_bytes(bytes.drop_last()) + ", "@ + decimal(bytes.last() as nat)
    }
}

/// A value as a message shows it: the name of its type, and what it holds.
pub open spec fn shown(value: Resp) -> Seq<char>
    decreases value,
{
    match value {
        Resp::Simple(text) => "Simple("@ + quoted(text) + ")"@,
        Resp::Error(text) => "Error("@ + quoted(text) + ")"@,
        Resp::Integer(n) => "Integer("@ + signed_decimal(n as int) + ")"@,
        Resp::Bulk(None) => "Bulk(None)"@,
        Resp::Bulk(Some(bytes)) => "Bulk(Some(["@ + shown_bytes(bytes) + "]))"@,
        Resp::Array(None) => "Array(None)"@,
        Resp::Array(Some(elements)) => "Array(Some(["@ + shown_all(elements) + "]))"@,
    }
}

/// Values as a message shows them, with commas between them.
pub open spec fn shown_all(values: Seq<Resp>) -> Seq<char>
    decreases values,
{
    if values.len() == 0 {
        Seq::empty()
    } else if values.len() == 1 {
        shown(values[0])
    } else {
        shown_all(values.drop_last()) + ", "@ + shown(values.last())
    }
}

/// Appends bytes as numbers.
fn push_shown_bytes(out: &mut String, bytes: &[u8])
    ensures
        final(out)@ == old(out)@ + shown_bytes(bytes@),
{
    let ghost before = out@;
    assert(out@ =~= before + shown_bytes(bytes@.take(0)));
    for i in 0..bytes.len()
        invariant
            before == old(out)@,
            out@ == before + shown_bytes(bytes@.take(i as int)),
    {
        assert(bytes@.take(i + 1).drop_last() =~= bytes@.take(i as int));
        assert(bytes@.take(i + 1).last() == bytes@[i as int]);
        if i > 0 {
            out.append(", ");
        }
        push_decimal(out, bytes[i] as u64);
        assert(out@ =~= before + shown_bytes(bytes@.take(i + 1)));
    }
    assert(bytes@.take(bytes@.len() as int) =~= bytes@);
}

impl Value {
    /// Appends the value as a message shows it.
    fn push_shown(&self, out: &mut String)
        ensures
            final(out)@ == old(out)@ + shown(self@),
        decreases self,
    {
        let ghost before = out@;
        match self {
            Value::Simple(text) => {
                out.append("Simple(");
                out.append(quoted_text(text.as_str()).as_str());
                out.append(")");
            },
            Value::Error(text) => {
                out.append("Error(");
                out.append(quoted_text(text.as_str()).as_str());
                out.append(")");
            },
            Value::Integer(n) => {
                out.append("Integer(");
                out.append(signed_decimal_text(*n).as_str());
                out.append(")");
            },
            Value::Bulk(None) => {
                out.append("Bulk(None)");
            },
            Value::Bulk(Some(bytes)) => {
                out.append("Bulk(Some([");
                push_shown_bytes(out, bytes.as_slice());
                out.append("]))");
            },
            Value::Array(None) => {
                out.append("Array(None)");
            },
            Value::Array(Some(elements)) => {
                out.append("Array(Some([");
                let ghost opened = out@;
                let ghost model = self@->Array_0->0;
                assert(out@ =~= opened + shown_all(model.take(0)));
                for i in 0..elements.len()
                    invariant
                        model == self@->Array_0->0,
                        model.len() == elements@.len(),
                        forall|j: int| 0 <= j < model.len() ==> model[j] == elements@[j]@,
                        decreases_to!(*self => *elements),
                        out@ == opened + shown_all(model.take(i as int)),
                {
                    assert(model.take(i + 1).drop_last() =~= model.take(i as int));
                    assert(model.take(i + 1).last() == elements@[i as int]@);
                    if i > 0 {
                        out.append(", ");
                    }
                    elements[i].push_shown(out);
                    assert(out@ =~= opened + shown_all(model.take(i + 1)));
                }
                assert(model.take(elements@.len() as int) =~= model);
                out.append("]))");
            },
        }
        assert(out@ =~= before + shown(self@));
    }
}

/// What went wrong, in words. Of a bulk string that ended early it says what was
/// being read.
pub open spec fn message_of(fault: Fault) -> Seq<char> {
    match fault {
        Fault::UnendedLine => "a RESP line without its CRLF"@,
        Fault::BareLine => "a RESP line without its CRLF"@,
        Fault::ShortBulk => "reading a bulk string"@,
        Fault::UnendedBulk => "a bulk string not followed by CRLF"@,
        Fault::NegativeBulk => "a negative bulk length"@,
        Fault::UnendedArray => "the peer closed inside an array"@,
        Fault::NegativeArray => "a negative array length"@,
        Fault::NotAType(byte) => quoted_char(byte as char) + " is not a RESP type byte"@,
        Fault::NotANumber(text) => quoted(text) + " is not a number"@,
        Fault::Answered(text) => "the server answered "@ + text,
        Fault::NotPong(value) => "PING answered "@ + shown(value),
        Fault::ClosedUnanswered => "the server closed before answering"@,
        Fault::NoId => "XADD did not answer with an id"@,
        Fault::NotEntries => "a reply that is not a list of entries"@,
        Fault::NothingAppended => "the client closed without appending"@,
    }
}

impl Error {
    /// What went wrong, in words.
    pub fn message(&self) -> (text: String)
        ensures
            text@ == message_of(self@),
    {
        match self {
            Error::UnendedLine => "a RESP line without its CRLF".to_owned(),
            Error::BareLine => "a RESP line without its CRLF".to_owned(),
            Error::ShortBulk => "reading a bulk string".to_owned(),
            Error::UnendedBulk => "a bulk string not followed by CRLF".to_owned(),
            Error::NegativeBulk => "a negative bulk length".to_owned(),
            Error::UnendedArray => "the peer closed inside an array".to_owned(),
            Error::NegativeArray => "a negative array length".to_owned(),
            Error::NotAType(byte) => {
                let mut text = quoted_letter(*byte as char);
                text.append(" is not a RESP type byte");
                text
            },
            Error::NotANumber(number) => {
                let mut text = quoted_text(number.as_str());
                text.append(" is not a number");
                text
            },
            Error::Answered(answer) => {
                let mut text = "the server answered ".to_owned();
                text.append(answer.as_str());
                text
            },
            Error::NotPong(value) => {
                let mut text = "PING answered ".to_owned();
                value.push_shown(&mut text);
                text
            },
            Error::ClosedUnanswered => "the server closed before answering".to_owned(),
            Error::NoId => "XADD did not answer with an id".to_owned(),
            Error::NotEntries => "a reply that is not a list of entries".to_owned(),
            Error::NothingAppended => "the client closed without appending".to_owned(),
        }
    }
}

/// Bytes are shown as numbers in their order, and values one by one, with a
/// comma and a space between them.
pub proof fn law_lists_are_shown_in_order(bytes: Seq<u8>, byte: u8, values: Seq<Resp>, value: Resp)
    ensures
        shown_bytes(Seq::empty()).len() == 0,
        shown_bytes(seq![byte]) == decimal(byte as nat),
        bytes.len() > 0 ==> shown_bytes(bytes + seq![byte]) == shown_bytes(bytes) + seq![',', ' ']
            + decimal(byte as nat),
        shown_all(Seq::empty()).len() == 0,
        shown_all(seq![value]) == shown(value),
        values.len() > 0 ==> shown_all(values + seq![value]) == shown_all(values) + seq![',', ' ']
            + shown(value),
{
    reveal_strlit(", ");
    assert(", "@ =~= seq![',', ' ']);
    assert((bytes + seq![byte]).drop_last() =~= bytes);
    assert((values + seq![value]).drop_last() =~= values);
}

/// A value is shown by the name of its type, with what it holds in brackets.
pub proof fn law_value_is_shown_with_its_type(
    text: Seq<char>,
    n: i64,
    bytes: Seq<u8>,
    elements: Seq<Resp>,
)
    ensures
        shown(Resp::Simple(text)) == "Simple("@ + quoted(text) + ")"@,
        shown(Resp::Error(text)) == "Error("@ + quoted(text) + ")"@,
        shown(Resp::Integer(n)) == "Integer("@ + signed_decimal(n as int) + ")"@,
        shown(Resp::Bulk(None)) == "Bulk(None)"@,
        shown(Resp::Bulk(Some(bytes))) == "Bulk(Some(["@ + shown_bytes(bytes) + "]))"@,
        shown(Resp::Array(None)) == "Array(None)"@,
        shown(Resp::Array(Some(elements))) == "Array(Some(["@ + shown_all(elements) + "]))"@,
{
}

/// Every refusal has its own words, and tells what it was given.
pub proof fn law_messages_tell_what_was_given(byte: u8, text: Seq<char>, value: Resp)
    ensures
        message_of(Fault::UnendedLine) == "a RESP line without its CRLF"@,
        message_of(Fault::BareLine) == "a RESP line without its CRLF"@,
        message_of(Fault::ShortBulk) == "reading a bulk string"@,
        message_of(Fault::UnendedBulk) == "a bulk string not followed by CRLF"@,
        message_of(Fault::NegativeBulk) == "a negative bulk length"@,
        message_of(Fault::UnendedArray) == "the peer closed inside an array"@,
        message_of(Fault::NegativeArray) == "a negative array length"@,
        message_of(Fault::NotAType(byte)) == quoted_char(byte as char)
            + " is not a RESP type byte"@,
        message_of(Fault::NotANumber(text)) == quoted(text) + " is not a number"@,
        message_of(Fault::Answered(text)) == "the server answered "@ + text,
        message_of(Fault::NotPong(value)) == "PING answered "@ + shown(value),
        message_of(Fault::ClosedUnanswered) == "the server closed before answering"@,
        message_of(Fault::NoId) == "XADD did not answer with an id"@,
        message_of(Fault::NotEntries) == "a reply that is not a list of entries"@,
        message_of(Fault::NothingAppended) == "the client closed without appending"@,
{
}

} // verus!
