//! What a client asks and takes for an answer, and what a Location hands up of
//! it, place by place.

use vstd::prelude::*;
use vstd::utf8::encode_utf8;

use crate::arrived::{Arrival, Arrived};
use crate::client::{
    add_arguments, answered, entries_answered, entries_of, field_value, greeted, id_answered,
    listed_entries, listed_entry, lists_entry, lists_fields, range_arguments, start_after, Entry,
    Listed,
};
use crate::commands::law_origin_names_the_entry;
use crate::connection::{Awaited, Progress};
use crate::decimal::decimal;
use crate::error::Fault;
use crate::location::{arrivals_of, carried, moved, Settings};
use crate::resp::{bytes_in, text_in, Resp};
use crate::text::same_but_case;

verus! {

/// The value of a field is that of the first field with its name.
pub proof fn law_field_is_the_first_of_its_name(
    fields: Seq<(Seq<char>, Seq<u8>)>,
    name: Seq<char>,
    k: int,
)
    requires
        0 <= k < fields.len(),
        fields[k].0 == name,
        forall|j: int| 0 <= j < k ==> (#[trigger] fields[j]).0 != name,
    ensures
        field_value(fields, name) == Some(fields[k].1),
    decreases k,
{
    if k > 0 {
        assert(fields[0].0 != name);
        let rest = fields.skip(1);
        assert forall|j: int| 0 <= j < k - 1 implies (#[trigger] rest[j]).0 != name by {
            assert(rest[j] == fields[j + 1]);
        }
        law_field_is_the_first_of_its_name(rest, name, k - 1);
    }
}

/// A field whose name no field has, has no value.
pub proof fn law_no_field_without_its_name(fields: Seq<(Seq<char>, Seq<u8>)>, name: Seq<char>)
    requires
        forall|j: int| 0 <= j < fields.len() ==> (#[trigger] fields[j]).0 != name,
    ensures
        field_value(fields, name) is None,
    decreases fields.len(),
{
    if fields.len() > 0 {
        assert(fields[0].0 != name);
        let rest = fields.skip(1);
        assert forall|j: int| 0 <= j < rest.len() implies (#[trigger] rest[j]).0 != name by {
            assert(rest[j] == fields[j + 1]);
        }
        law_no_field_without_its_name(rest, name);
    }
}

/// A Location hands up of an entry the value of the first field that has the
/// name it is configured to read, whatever other fields there are and wherever
/// it stands among them, with the URI of the entry.
pub proof fn law_location_hands_up_its_field(settings: Settings, entry: Listed, k: int)
    requires
        0 <= k < entry.fields.len(),
        entry.fields[k].0 == settings.field,
        forall|j: int| 0 <= j < k ==> (#[trigger] entry.fields[j]).0 != settings.field,
    ensures
        carried(settings, entry).bytes == entry.fields[k].1,
        carried(settings, entry).origin_uri == seq!['r', 'e', 'd', 'i', 's', ':', '/', '/']
            + settings.server + seq!['/'] + settings.stream + seq!['/'] + entry.id,
{
    law_field_is_the_first_of_its_name(entry.fields, settings.field, k);
    law_origin_names_the_entry(settings.server, settings.stream, entry.id);
}

/// Of an entry without the field it hands up no bytes, with the URI of the
/// entry.
pub proof fn law_location_hands_up_nothing_without_its_field(settings: Settings, entry: Listed)
    requires
        forall|j: int| 0 <= j < entry.fields.len() ==> (#[trigger] entry.fields[j]).0
            != settings.field,
    ensures
        carried(settings, entry).bytes.len() == 0,
        carried(settings, entry).origin_uri == seq!['r', 'e', 'd', 'i', 's', ':', '/', '/']
            + settings.server + seq!['/'] + settings.stream + seq!['/'] + entry.id,
{
    law_no_field_without_its_name(entry.fields, settings.field);
    law_origin_names_the_entry(settings.server, settings.stream, entry.id);
}

/// The cursor moves to the last entry that was read, and stays where none was.
pub proof fn law_cursor_moves_to_the_last(cursor: Seq<char>, entries: Seq<Listed>)
    ensures
        entries.len() > 0 ==> moved(cursor, entries) == entries[entries.len() - 1].id,
        entries.len() == 0 ==> moved(cursor, entries) == cursor,
{
}

/// An entry stands for its id and its fields, each in its place.
pub proof fn law_entry_stands_for_its_parts(entry: Entry, k: int)
    ensures
        entry@.id == entry.id@,
        entry@.fields.len() == entry.fields@.len(),
        0 <= k < entry.fields@.len() ==> entry@.fields[k] == (
            entry.fields@[k].0@,
            entry.fields@[k].1@,
        ),
{
}

/// Entries and Streams stand for what they hold, one by one.
pub proof fn law_entries_stand_one_by_one(
    entries: Seq<Entry>,
    arrived: Seq<Arrived>,
    i: int,
    k: int,
)
    ensures
        entries_of(entries).len() == entries.len(),
        0 <= i < entries.len() ==> {
            let listed = entries_of(entries)[i];
            &&& listed.id == entries[i].id@
            &&& listed.fields.len() == entries[i].fields@.len()
            &&& 0 <= k < listed.fields.len() ==> listed.fields[k] == (
                entries[i].fields@[k].0@,
                entries[i].fields@[k].1@,
            )
        },
        arrivals_of(arrived).len() == arrived.len(),
        0 <= i < arrived.len() ==> arrivals_of(arrived)[i] == (Arrival {
            origin_uri: arrived[i].origin_uri@,
            bytes: arrived[i].bytes@,
        }),
{
}

/// What appends fields to a stream is XADD, the stream, `*` for the id, and the
/// names and values by turns, in their order.
pub proof fn law_append_asks_for_its_fields(
    stream: Seq<char>,
    fields: Seq<(Seq<char>, Seq<u8>)>,
    k: int,
)
    ensures
        ({
            let asked = add_arguments(stream, fields);
            &&& asked.len() == 3 + 2 * fields.len()
            &&& asked[0] == encode_utf8("XADD"@)
            &&& asked[1] == encode_utf8(stream)
            &&& asked[2] == encode_utf8("*"@)
            &&& 0 <= k < fields.len() ==> asked[3 + 2 * k] == encode_utf8(fields[k].0) && asked[4 + 2
                * k] == fields[k].1
        }),
{
    assert((2 * k) % 2 == 0 && (2 * k) / 2 == k);
    assert((2 * k + 1) % 2 == 1 && (2 * k + 1) / 2 == k);
}

/// What reads on after an id is XRANGE, the stream, a `(` and the id, `+`, and
/// the count; after `0-0` it reads from `-`.
pub proof fn law_read_asks_for_what_comes_after(
    stream: Seq<char>,
    after: Seq<char>,
    count: nat,
)
    ensures
        range_arguments(stream, after, count) == seq![
            encode_utf8("XRANGE"@),
            encode_utf8(stream),
            encode_utf8(
                if after == seq!['0', '-', '0'] {
                    seq!['-']
                } else {
                    seq!['('] + after
                },
            ),
            encode_utf8("+"@),
            encode_utf8("COUNT"@),
            encode_utf8(decimal(count)),
        ],
        start_after(after) == if after == seq!['0', '-', '0'] {
            seq!['-']
        } else {
            seq!['('] + after
        },
{
    reveal_strlit("0-0");
    reveal_strlit("-");
    reveal_strlit("(");
    assert("0-0"@ =~= seq!['0', '-', '0']);
    assert("-"@ =~= seq!['-']);
    assert("("@ =~= seq!['(']);
}

/// Elements are fields where names and values stand by turns, each name a text
/// and each value a bulk string.
pub proof fn law_what_lists_fields(elements: Seq<Resp>)
    ensures
        lists_fields(elements) <==> elements.len() % 2 == 0 && forall|i: int|
            0 <= i < elements.len() ==> if i % 2 == 0 {
                text_in(#[trigger] elements[i]) is Some
            } else {
                bytes_in(elements[i]) is Some
            },
{
    if lists_fields(elements) {
        assert forall|i: int| 0 <= i < elements.len() implies if i % 2 == 0 {
            text_in(#[trigger] elements[i]) is Some
        } else {
            bytes_in(elements[i]) is Some
        } by {
            assert(text_in(elements[2 * (i / 2)]) is Some);
            assert(bytes_in(elements[2 * (i / 2) + 1]) is Some);
        }
    } else if elements.len() % 2 == 0 {
        let k = choose|k: int|
            0 <= k < elements.len() / 2 && !(text_in(#[trigger] elements[2 * k]) is Some
                && bytes_in(elements[2 * k + 1]) is Some);
        assert((2 * k) % 2 == 0 && (2 * k + 1) % 2 == 1);
        assert(elements[2 * k + 1] == elements[2 * k + 1]);
    }
}

/// A value is an entry where it is an array whose first element is a text and
/// whose second is an array of fields, and it is listed with that text for its
/// id and those fields in their order.
pub proof fn law_what_lists_an_entry(value: Resp, k: int)
    ensures
        lists_entry(value) <==> (value matches Resp::Array(Some(parts)) && parts.len() >= 2
            && text_in(parts[0]) is Some && (parts[1] matches Resp::Array(Some(flat))
            && lists_fields(flat))),
        lists_entry(value) ==> (value matches Resp::Array(Some(parts)) && (
        parts[1] matches Resp::Array(Some(flat)) && {
            let listed = listed_entry(value);
            &&& Some(listed.id) == text_in(parts[0])
            &&& 2 * listed.fields.len() == flat.len()
            &&& 0 <= k < listed.fields.len() ==> Some(listed.fields[k].0) == text_in(flat[2 * k])
                && Some(listed.fields[k].1) == bytes_in(flat[2 * k + 1])
        })),
{
}

/// A reply lists entries where it is an array of entries, each in its place, and
/// nothing else does.
pub proof fn law_what_lists_entries(reply: Resp, i: int)
    ensures
        match reply {
            Resp::Array(Some(rows)) => {
                &&& listed_entries(reply) is Some <==> forall|j: int|
                    0 <= j < rows.len() ==> lists_entry(#[trigger] rows[j])
                &&& listed_entries(reply) matches Some(list) ==> list.len() == rows.len() && (0
                    <= i < rows.len() ==> list[i] == listed_entry(rows[i]))
            },
            _ => listed_entries(reply) is None,
        },
{
}

/// A reply is the answer, an error reply an error with its text, a close before
/// it an error, and whatever else is wrong stays that.
pub proof fn law_reply_is_the_answer(value: Resp, fault: Fault, awaited: Awaited)
    ensures
        answered(Ok(Progress::Done(Some(value)))) == match value {
            Resp::Error(text) => Err::<Progress<Resp>, _>(Fault::Answered(text)),
            _ => Ok::<_, Fault>(Progress::Done(value)),
        },
        answered(Ok(Progress::Done(None))) == Err::<Progress<Resp>, _>(Fault::ClosedUnanswered),
        answered(Ok(Progress::Waiting(awaited))) == Ok::<_, Fault>(
            Progress::Waiting::<Resp>(awaited),
        ),
        answered(Err(fault)) == Err::<Progress<Resp>, _>(fault),
{
}

/// A greeting is answered by PONG in whatever case and by nothing else, an
/// append by any text, and a read by a list of entries.
pub proof fn law_answers_are_taken(value: Resp, fault: Fault, awaited: Awaited)
    ensures
        greeted(Ok(Progress::Done(value))) == if value matches Resp::Simple(text) && same_but_case(
            text,
            "PONG"@,
        ) {
            Ok::<_, Fault>(Progress::Done(()))
        } else {
            Err::<Progress<()>, _>(Fault::NotPong(value))
        },
        id_answered(Ok(Progress::Done(value))) == match text_in(value) {
            Some(id) => Ok::<_, Fault>(Progress::Done(id)),
            None => Err::<Progress<Seq<char>>, _>(Fault::NoId),
        },
        entries_answered(Ok(Progress::Done(value))) == match listed_entries(value) {
            Some(list) => Ok::<_, Fault>(Progress::Done(list)),
            None => Err::<Progress<Seq<Listed>>, _>(Fault::NotEntries),
        },
        greeted(Ok(Progress::Waiting(awaited))) == Ok::<_, Fault>(
            Progress::Waiting::<()>(awaited),
        ),
        id_answered(Ok(Progress::Waiting(awaited))) == Ok::<_, Fault>(
            Progress::Waiting::<Seq<char>>(awaited),
        ),
        entries_answered(Ok(Progress::Waiting(awaited))) == Ok::<_, Fault>(
            Progress::Waiting::<Seq<Listed>>(awaited),
        ),
        greeted(Err(fault)) == Err::<Progress<()>, _>(fault),
        id_answered(Err(fault)) == Err::<Progress<Seq<char>>, _>(fault),
        entries_answered(Err(fault)) == Err::<Progress<Seq<Listed>>, _>(fault),
{
}

} // verus!
