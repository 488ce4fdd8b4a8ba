//! The client's side of one connection: XADD, XRANGE and XREAD, which is
//! everything a Location needs to append and to read on from a cursor.
//!
//! A command and its answer are two calls: one adds the command to what is to
//! be sent, the other reads the answer out of what has arrived.

use vstd::prelude::*;
use vstd::slice::slice_to_vec;
use vstd::string::StringExecFns;
use vstd::utf8::encode_utf8;

use crate::connection::{next_value, Connection, Progress};
use crate::decimal::{decimal, decimal_text};
use crate::error::{Error, Fault};
use crate::resp::{
    bytes_in, command_of, elements_in, text_in, values_of, wire, Resp, Value,
};
use crate::text::{same_but_case, same_text, same_text_but_case};

verus! {

/// One entry as the server returns it: its id and its field-value pairs.
#[derive(Clone, Debug, PartialEq, Eq)]
pub struct Entry {
    pub id: String,
    pub fields: Vec<(String, Vec<u8>)>,
}

/// An [`Entry`] as a mathematical value.
pub struct Listed {
    pub id: Seq<char>,
    pub fields: Seq<(Seq<char>, Seq<u8>)>,
}

impl View for Entry {
    type V = Listed;

    open spec fn view(&self) -> Listed {
        Listed {
            id: self.id@,
            fields: self.fields@.map_values(|field: (String, Vec<u8>)| (field.0@, field.1@)),
        }
    }
}

/// The value of the first field with this name.
pub open spec fn field_value(fields: Seq<(Seq<char>, Seq<u8>)>, name: Seq<char>) -> Option<Seq<u8>>
    decreases fields.len(),
{
    if fields.len() == 0 {
        None
    } else if fields[0].0 == name {
        Some(fields[0].1)
    } else {
        field_value(fields.skip(1), name)
    }
}

impl Entry {
    /// The value of `field`, or none.
    #[must_use]
    pub fn field(&self, name: &str) -> (value: Option<&[u8]>)
        ensures
            match (value, field_value(self@.fields, name@)) {
                (Some(found), Some(expected)) => found@ == expected,
                (None, None) => true,
                _ => false,
            },
    {
        let ghost fields = self@.fields;
        assert(fields.skip(0) =~= fields);
        for i in 0..self.fields.len()
            invariant
                fields == self@.fields,
                field_value(fields, name@) == field_value(fields.skip(i as int), name@),
        {
            let ghost rest = fields.skip(i as int);
            assert(rest.skip(1) =~= fields.skip(i + 1));
            assert(rest[0] == fields[i as int]);
            if same_text(self.fields[i].0.as_str(), name) {
                return Some(self.fields[i].1.as_slice());
            }
        }
        None
    }
}

/// Whether elements are names and values by turns: texts and bulk strings.
pub open spec fn lists_fields(elements: Seq<Resp>) -> bool {
    &&& elements.len() % 2 == 0
    &&& forall|i: int|
        0 <= i < elements.len() / 2 ==> text_in(#[trigger] elements[2 * i]) is Some && bytes_in(
            elements[2 * i + 1],
        ) is Some
}

/// The fields that elements list.
pub open spec fn listed_fields(elements: Seq<Resp>) -> Seq<(Seq<char>, Seq<u8>)> {
    Seq::new(
        elements.len() / 2,
        |i: int| (text_in(elements[2 * i])->0, bytes_in(elements[2 * i + 1])->0),
    )
}

/// Whether a value is an entry: an array of an id, an array of fields, and
/// whatever comes after them.
pub open spec fn lists_entry(value: Resp) -> bool {
    &&& elements_in(value) matches Some(parts)
    &&& parts.len() >= 2
    &&& text_in(parts[0]) is Some
    &&& elements_in(parts[1]) matches Some(elements)
    &&& lists_fields(elements)
}

/// The entry that a value is.
pub open spec fn listed_entry(value: Resp) -> Listed {
    let parts = elements_in(value)->0;
    Listed { id: text_in(parts[0])->0, fields: listed_fields(elements_in(parts[1])->0) }
}

/// The entries that a reply lists; none where it is not an array of entries.
pub open spec fn listed_entries(reply: Resp) -> Option<Seq<Listed>> {
    match elements_in(reply) {
        Some(elements) => if forall|i: int|
            0 <= i < elements.len() ==> lists_entry(#[trigger] elements[i]) {
            Some(elements.map_values(|element: Resp| listed_entry(element)))
        } else {
            None
        },
        None => None,
    }
}

/// Entries as mathematical values.
pub open spec fn entries_of(entries: Seq<Entry>) -> Seq<Listed> {
    entries.map_values(|entry: Entry| entry@)
}

/// The fields that elements list, where they list fields.
fn read_fields(elements: &[Value]) -> (fields: Option<Vec<(String, Vec<u8>)>>)
    ensures
        match fields {
            Some(fields) => {
                &&& lists_fields(values_of(elements@))
                &&& fields@.map_values(|field: (String, Vec<u8>)| (field.0@, field.1@))
                    == listed_fields(values_of(elements@))
            },
            None => !lists_fields(values_of(elements@)),
        },
{
    let ghost model = values_of(elements@);
    if elements.len() % 2 != 0 {
        return None;
    }
    let mut fields: Vec<(String, Vec<u8>)> = Vec::new();
    for i in 0..elements.len() / 2
        invariant
            model == values_of(elements@),
            elements@.len() % 2 == 0,
            fields@.len() == i,
            forall|j: int|
                0 <= j < i ==> text_in(#[trigger] model[2 * j]) == Some(fields@[j].0@) && bytes_in(
                    model[2 * j + 1],
                ) == Some(fields@[j].1@),
    {
        assert(2 * i + 1 < elements.len());
        assert(model[2 * i as int] == elements@[2 * i as int]@);
        assert(model[2 * i + 1] == elements@[2 * i + 1]@);
        let name = match elements[2 * i].as_text() {
            Some(name) => name,
            None => {
                return None;
            },
        };
        let value = match elements[2 * i + 1].as_bytes() {
            Some(value) => slice_to_vec(value),
            None => {
                return None;
            },
        };
        fields.push((name, value));
    }
    assert(fields@.map_values(|field: (String, Vec<u8>)| (field.0@, field.1@)) =~= listed_fields(
        model,
    ));
    Some(fields)
}

/// The entry that a value is, where it is one.
fn read_entry(value: &Value) -> (entry: Option<Entry>)
    ensures
        match entry {
            Some(entry) => lists_entry(value@) && entry@ == listed_entry(value@),
            None => !lists_entry(value@),
        },
{
    let parts = match value.as_array() {
        Some(parts) => parts,
        None => {
            return None;
        },
    };
    if parts.len() < 2 {
        return None;
    }
    let ghost model = values_of(parts@);
    assert(model[0] == parts@[0]@ && model[1] == parts@[1]@);
    let id = match parts[0].as_text() {
        Some(id) => id,
        None => {
            return None;
        },
    };
    let elements = match parts[1].as_array() {
        Some(elements) => elements,
        None => {
            return None;
        },
    };
    match read_fields(elements) {
        Some(fields) => Some(Entry { id, fields }),
        None => None,
    }
}

/// An XRANGE reply as entries.
///
/// # Errors
/// Where the reply is not a list of entries.
pub fn entries(reply: &Value) -> (list: Result<Vec<Entry>, Error>)
    ensures
        match (list, listed_entries(reply@)) {
            (Ok(list), Some(expected)) => entries_of(list@) == expected,
            (Err(error), None) => error@ == Fault::NotEntries,
            _ => false,
        },
{
    let elements = match reply.as_array() {
        Some(elements) => elements,
        None => {
            return Err(Error::NotEntries);
        },
    };
    let ghost model = values_of(elements@);
    let mut list: Vec<Entry> = Vec::new();
    for i in 0..elements.len()
        invariant
            model == values_of(elements@),
            elements_in(reply@) == Some(model),
            list@.len() == i,
            forall|j: int|
                0 <= j < i ==> lists_entry(#[trigger] model[j]) && list@[j]@ == listed_entry(
                    model[j],
                ),
    {
        assert(model[i as int] == elements@[i as int]@);
        match read_entry(&elements[i]) {
            Some(entry) => list.push(entry),
            None => {
                return Err(Error::NotEntries);
            },
        }
    }
    assert(entries_of(list@) =~= model.map_values(|element: Resp| listed_entry(element)));
    Ok(list)
}

/// The arguments of the XADD that appends `fields` to `stream`, its id left to
/// the server.
pub open spec fn add_arguments(
    stream: Seq<char>,
    fields: Seq<(Seq<char>, Seq<u8>)>,
) -> Seq<Seq<u8>> {
    seq![encode_utf8("XADD"@), encode_utf8(stream), encode_utf8("*"@)] + Seq::new(
        2 * fields.len(),
        |i: int|
            if i % 2 == 0 {
                encode_utf8(fields[i / 2].0)
            } else {
                fields[i / 2].1
            },
    )
}

/// Where a read after this id starts: at the beginning for `0-0`.
pub open spec fn start_after(after: Seq<char>) -> Seq<char> {
    if after == "0-0"@ {
        "-"@
    } else {
        "("@ + after
    }
}

/// The arguments of the XRANGE that reads at most `count` entries of `stream`
/// after an id.
pub open spec fn range_arguments(stream: Seq<char>, after: Seq<char>, count: nat) -> Seq<Seq<u8>> {
    seq![
        encode_utf8("XRANGE"@),
        encode_utf8(stream),
        encode_utf8(start_after(after)),
        encode_utf8("+"@),
        encode_utf8("COUNT"@),
        encode_utf8(decimal(count)),
    ]
}

/// The answer to a command: an error reply is an error, and so is a server
/// that closed instead.
pub open spec fn answered(next: Result<Progress<Option<Resp>>, Fault>) -> Result<
    Progress<Resp>,
    Fault,
> {
    match next {
        Ok(Progress::Done(Some(Resp::Error(text)))) => Err(Fault::Answered(text)),
        Ok(Progress::Done(Some(value))) => Ok(Progress::Done(value)),
        Ok(Progress::Done(None)) => Err(Fault::ClosedUnanswered),
        Ok(Progress::Waiting(awaited)) => Ok(Progress::Waiting(awaited)),
        Err(fault) => Err(fault),
    }
}

/// The answer to PING: PONG, in whatever case, or an error.
pub open spec fn greeted(answer: Result<Progress<Resp>, Fault>) -> Result<Progress<()>, Fault> {
    match answer {
        Ok(Progress::Done(Resp::Simple(text))) if same_but_case(text, "PONG"@) => Ok(
            Progress::Done(()),
        ),
        Ok(Progress::Done(other)) => Err(Fault::NotPong(other)),
        Ok(Progress::Waiting(awaited)) => Ok(Progress::Waiting(awaited)),
        Err(fault) => Err(fault),
    }
}

/// The answer to XADD: the id, or an error where it holds no text.
pub open spec fn id_answered(answer: Result<Progress<Resp>, Fault>) -> Result<
    Progress<Seq<char>>,
    Fault,
> {
    match answer {
        Ok(Progress::Done(value)) => match text_in(value) {
            Some(id) => Ok(Progress::Done(id)),
            None => Err(Fault::NoId),
        },
        Ok(Progress::Waiting(awaited)) => Ok(Progress::Waiting(awaited)),
        Err(fault) => Err(fault),
    }
}

/// The answer to XRANGE: the entries, or an error where it lists none.
pub open spec fn entries_answered(answer: Result<Progress<Resp>, Fault>) -> Result<
    Progress<Seq<Listed>>,
    Fault,
> {
    match answer {
        Ok(Progress::Done(value)) => match listed_entries(value) {
            Some(list) => Ok(Progress::Done(list)),
            None => Err(Fault::NotEntries),
        },
        Ok(Progress::Waiting(awaited)) => Ok(Progress::Waiting(awaited)),
        Err(fault) => Err(fault),
    }
}

/// One client.
pub struct Client {
    /// What has arrived from the server, and what is to be sent to it.
    pub connection: Connection,
}

impl Client {
    /// A client that has its PING to send, and takes PONG for an answer.
    pub fn connect() -> (client: Self)
        ensures
            client.connection.unread().len() == 0,
            !client.connection.ended(),
            client.connection.unsent() == wire(command_of(seq![encode_utf8("PING"@)])),
    {
        let mut client = Client { connection: Connection::new() };
        let arguments: Vec<&[u8]> = vec!["PING".as_bytes()];
        client.call(arguments.as_slice());
        proof {
            assert(arguments@.map_values(|a: &[u8]| a@) =~= seq![encode_utf8("PING"@)]);
            assert(client.connection.unsent() =~= wire(command_of(seq![encode_utf8("PING"@)])));
        }
        client
    }

    /// Whether the server answered PING.
    ///
    /// # Errors
    /// Where the server did not answer PONG.
    pub fn connected(&mut self) -> (outcome: Result<Progress<()>, Error>)
        ensures
            ({
                let next = next_value(
                    old(self).connection.unread(),
                    old(self).connection.ended(),
                );
                &&& final(self).connection.unread() == next.1
                &&& match (outcome, greeted(answered(next.0))) {
                    (Ok(progress), Ok(expected)) => progress == expected,
                    (Err(error), Err(fault)) => error@ == fault,
                    _ => false,
                }
            }),
            final(self).connection.ended() == old(self).connection.ended(),
            final(self).connection.unsent() == old(self).connection.unsent(),
    {
        match self.reply()? {
            Progress::Waiting(awaited) => Ok(Progress::Waiting(awaited)),
            Progress::Done(value) => {
                if let Value::Simple(text) = &value {
                    if same_text_but_case(text.as_str(), "PONG") {
                        return Ok(Progress::Done(()));
                    }
                }
                Err(Error::NotPong(value))
            },
        }
    }

    /// Sends one command.
    pub fn call(&mut self, arguments: &[&[u8]])
        ensures
            final(self).connection.unread() == old(self).connection.unread(),
            final(self).connection.ended() == old(self).connection.ended(),
            final(self).connection.unsent() == old(self).connection.unsent() + wire(
                command_of(arguments@.map_values(|a: &[u8]| a@)),
            ),
    {
        self.connection.send(&Value::command(arguments));
    }

    /// Takes the reply to a command, an error reply as an error.
    ///
    /// # Errors
    /// Where the connection broke, or the server answered `-ERR`.
    pub fn reply(&mut self) -> (outcome: Result<Progress<Value>, Error>)
        ensures
            ({
                let next = next_value(
                    old(self).connection.unread(),
                    old(self).connection.ended(),
                );
                &&& final(self).connection.unread() == next.1
                &&& match (outcome, answered(next.0)) {
                    (Ok(Progress::Done(value)), Ok(Progress::Done(expected))) => value@ == expected,
                    (Ok(Progress::Waiting(a)), Ok(Progress::Waiting(b))) => a == b,
                    (Err(error), Err(fault)) => error@ == fault,
                    _ => false,
                }
            }),
            final(self).connection.ended() == old(self).connection.ended(),
            final(self).connection.unsent() == old(self).connection.unsent(),
    {
        match self.connection.next() {
            Err(error) => Err(error),
            Ok(Progress::Waiting(awaited)) => Ok(Progress::Waiting(awaited)),
            Ok(Progress::Done(None)) => Err(Error::ClosedUnanswered),
            Ok(Progress::Done(Some(value))) => match value {
                Value::Error(text) => Err(Error::Answered(text)),
                other => Ok(Progress::Done(other)),
            },
        }
    }

    /// Appends `fields` to `stream`.
    pub fn add(&mut self, stream: &str, fields: &[(&str, &[u8])])
        ensures
            final(self).connection.unread() == old(self).connection.unread(),
            final(self).connection.ended() == old(self).connection.ended(),
            final(self).connection.unsent() == old(self).connection.unsent() + wire(
                command_of(
                    add_arguments(
                        stream@,
                        fields@.map_values(|field: (&str, &[u8])| (field.0@, field.1@)),
                    ),
                ),
            ),
    {
        let ghost model = fields@.map_values(|field: (&str, &[u8])| (field.0@, field.1@));
        let ghost expected = add_arguments(stream@, model);
        let mut arguments: Vec<&[u8]> = vec!["XADD".as_bytes(), stream.as_bytes(), "*".as_bytes()];
        for i in 0..fields.len()
            invariant
                model == fields@.map_values(|field: (&str, &[u8])| (field.0@, field.1@)),
                expected == add_arguments(stream@, model),
                arguments@.len() == 3 + 2 * i,
                forall|j: int| 0 <= j < arguments@.len() ==> (#[trigger] arguments@[j])@ == expected[j],
        {
            let ghost k = 3 + 2 * i as int;
            assert(expected[k] == encode_utf8(model[i as int].0)) by {
                assert((k - 3) % 2 == 0 && (k - 3) / 2 == i);
            }
            assert(expected[k + 1] == model[i as int].1) by {
                assert((k - 2) % 2 == 1 && (k - 2) / 2 == i);
            }
            let (name, value) = fields[i];
            arguments.push(name.as_bytes());
            arguments.push(value);
        }
        assert(arguments@.map_values(|a: &[u8]| a@) =~= expected);
        self.call(arguments.as_slice());
    }

    /// Takes the id that the server gave what was appended.
    ///
    /// # Errors
    /// Where the server refused or went away.
    pub fn added(&mut self) -> (outcome: Result<Progress<String>, Error>)
        ensures
            ({
                let next = next_value(
                    old(self).connection.unread(),
                    old(self).connection.ended(),
                );
                &&& final(self).connection.unread() == next.1
                &&& match (outcome, id_answered(answered(next.0))) {
                    (Ok(Progress::Done(id)), Ok(Progress::Done(expected))) => id@ == expected,
                    (Ok(Progress::Waiting(a)), Ok(Progress::Waiting(b))) => a == b,
                    (Err(error), Err(fault)) => error@ == fault,
                    _ => false,
                }
            }),
            final(self).connection.ended() == old(self).connection.ended(),
            final(self).connection.unsent() == old(self).connection.unsent(),
    {
        match self.reply()? {
            Progress::Waiting(awaited) => Ok(Progress::Waiting(awaited)),
            Progress::Done(value) => match value.as_text() {
                Some(id) => Ok(Progress::Done(id)),
                None => Err(Error::NoId),
            },
        }
    }

    /// Asks for the entries of `stream` after `after`, `0-0` for all, at most
    /// `count`.
    pub fn read_after(&mut self, stream: &str, after: &str, count: usize)
        ensures
            final(self).connection.unread() == old(self).connection.unread(),
            final(self).connection.ended() == old(self).connection.ended(),
            final(self).connection.unsent() == old(self).connection.unsent() + wire(
                command_of(range_arguments(stream@, after@, count as nat)),
            ),
    {
        let mut start = String::new();
        if same_text(after, "0-0") {
            start.append("-");
        } else {
            start.append("(");
            start.append(after);
        }
        assert(start@ =~= start_after(after@));
        let count = decimal_text(count as u64);
        let arguments: Vec<&[u8]> = vec![
            "XRANGE".as_bytes(),
            stream.as_bytes(),
            start.as_str().as_bytes(),
            "+".as_bytes(),
            "COUNT".as_bytes(),
            count.as_str().as_bytes(),
        ];
        assert(arguments@.map_values(|a: &[u8]| a@) =~= seq![
            encode_utf8("XRANGE"@),
            encode_utf8(stream@),
            encode_utf8(start@),
            encode_utf8("+"@),
            encode_utf8("COUNT"@),
            encode_utf8(count@),
        ]);
        self.call(arguments.as_slice());
    }

    /// Takes the entries that were asked for.
    ///
    /// # Errors
    /// Where the server refused or answered a shape that is not entries.
    pub fn listed(&mut self) -> (outcome: Result<Progress<Vec<Entry>>, Error>)
        ensures
            ({
                let next = next_value(
                    old(self).connection.unread(),
                    old(self).connection.ended(),
                );
                &&& final(self).connection.unread() == next.1
                &&& match (outcome, entries_answered(answered(next.0))) {
                    (Ok(Progress::Done(list)), Ok(Progress::Done(expected))) => entries_of(list@)
                        == expected,
                    (Ok(Progress::Waiting(a)), Ok(Progress::Waiting(b))) => a == b,
                    (Err(error), Err(fault)) => error@ == fault,
                    _ => false,
                }
            }),
            final(self).connection.ended() == old(self).connection.ended(),
            final(self).connection.unsent() == old(self).connection.unsent(),
    {
        match self.reply()? {
            Progress::Waiting(awaited) => Ok(Progress::Waiting(awaited)),
            Progress::Done(value) => match entries(&value) {
                Ok(list) => Ok(Progress::Done(list)),
                Err(error) => Err(error),
            },
        }
    }
}

} // verus!
