//! What holds between the two ends of a connection: what one appends, the other
//! hands up and serves back, in order, nothing twice and nothing left out.

use vstd::prelude::*;
use vstd::utf8::{encode_utf8, is_ascii_chars, is_ascii_chars_encode_utf8};

use crate::arrived::{origin, Arrival};
use crate::client::{
    add_arguments, answered, entries_answered, greeted, id_answered, listed_entries, listed_entry,
    lists_entry, lists_fields, range_arguments, start_after,
};
use crate::connection::{next_value, Progress};
use crate::decimal::{decimal, is_digit, lemma_decimal, lemma_unsigned_round_trip};
use crate::error::Fault;
use crate::framing::{
    law_all_written_are_read, law_later_bytes_change_nothing, law_written_is_read,
    lemma_wire_all_first, writable,
};
use crate::location::{carried, moved, Settings};
use crate::reading::{
    all_listed, as_listed, entries_after, law_given_ids_keep_order, numbered,
};
use crate::resp::{
    bulk_of, bytes_in, command_of, elements_in, lemma_parse_takes, parse, parse_all, text_in, wire,
    wire_all, Parsed, ParsedAll, Resp,
};
use crate::session::{
    adds, answer, arguments_in, count_at, entries_under, entry_values, field_values, fields_in,
    first, given_id, id_pair, names_from, pair_less, read_streams, refused_in_one_line,
    replies_in_turn, selected, serve, text_at, verb_in, within, word_is, Answer, Served, State,
    Stored,
};
use crate::text::{lemma_lossy_of_text, lossy, upper};

verus! {

/// Bytes that arrive later change nothing of the value that was next.
pub proof fn law_next_value_in_pieces(unread: Seq<u8>, more: Seq<u8>, closed: bool)
    ensures
        ({
            let (next, left) = next_value(unread, false);
            match next {
                Ok(Progress::Waiting(_)) => left == unread,
                _ => next_value(unread + more, closed) == (next, left + more),
            }
        }),
{
    law_later_bytes_change_nothing(unread, more);
}

/// It does not matter in which pieces a client's bytes arrive: where a session
/// waits for more and then gets it, it holds, replies and hands up what it
/// would have if all had arrived at once.
pub proof fn law_served_in_pieces(state: State, unread: Seq<u8>, more: Seq<u8>, closed: bool)
    ensures
        ({
            let early = serve(state, unread, false);
            match early.outcome {
                Ok(Progress::Waiting(_)) => {
                    let late = serve(early.state, early.unread + more, closed);
                    serve(state, unread + more, closed) == Served {
                        replies: early.replies + late.replies,
                        ..late
                    }
                },
                _ => serve(state, unread + more, closed) == Served {
                    unread: early.unread + more,
                    ..early
                },
            }
        }),
    decreases unread.len(),
{
    law_next_value_in_pieces(unread, more, closed);
    lemma_parse_takes(unread);
    lemma_parse_takes(unread + more);
    let (next, left) = next_value(unread, false);
    let early = serve(state, unread, false);
    match next {
        Ok(Progress::Done(Some(command))) => {
            let one = answer(state, command);
            if one.added is None {
                law_served_in_pieces(one.state, left, more, closed);
                if let Ok(Progress::Waiting(_)) = early.outcome {
                    let late = serve(early.state, early.unread + more, closed);
                    let rest = serve(one.state, left, false);
                    assert(wire(one.reply) + (rest.replies + late.replies) =~= early.replies
                        + late.replies);
                }
            }
        },
        Ok(Progress::Waiting(_)) => {
            let late = serve(state, unread + more, closed);
            assert(early.replies + late.replies =~= late.replies);
        },
        _ => {},
    }
}

/// A command is its arguments.
pub proof fn law_command_keeps_arguments(arguments: Seq<Seq<u8>>)
    ensures
        arguments_in(command_of(arguments)) == arguments,
    decreases arguments.len(),
{
    let elements = elements_in(command_of(arguments))->0;
    let pick = |element: Resp| bytes_in(element);
    if arguments.len() == 0 {
        assert(elements.filter_map(pick) =~= arguments);
    } else {
        let front = arguments.drop_last();
        law_command_keeps_arguments(front);
        assert(elements.drop_last() =~= elements_in(command_of(front))->0);
        assert(arguments_in(command_of(front)) == elements.drop_last().filter_map(pick));
        assert(elements.filter_map(pick) =~= front + seq![arguments.last()]);
        assert(front + seq![arguments.last()] =~= arguments);
    }
}

/// Whether a byte string of this length is short enough for RESP and for an
/// address.
pub open spec fn fits(length: nat) -> bool {
    length <= i64::MAX && length <= usize::MAX
}

/// Whether every argument of a command, and their number, is short enough.
pub open spec fn arguments_fit(arguments: Seq<Seq<u8>>) -> bool {
    &&& arguments.len() <= i64::MAX
    &&& forall|i: int| 0 <= i < arguments.len() ==> fits((#[trigger] arguments[i]).len())
}

/// A command whose arguments are short enough can be written, and is read as
/// the same command.
pub proof fn law_commands_arrive(arguments: Seq<Seq<u8>>, rest: Seq<u8>, closed: bool)
    requires
        arguments_fit(arguments),
    ensures
        writable(command_of(arguments)),
        next_value(wire(command_of(arguments)) + rest, closed) == (
            Ok::<_, Fault>(Progress::Done(Some(command_of(arguments)))),
            rest,
        ),
{
    let elements = elements_in(command_of(arguments))->0;
    assert forall|i: int| 0 <= i < elements.len() implies writable(#[trigger] elements[i]) by {
        assert(fits(arguments[i].len()));
    }
    law_written_is_read(command_of(arguments), rest);
}

/// What a session stores of fields whose names are text.
pub open spec fn stored_fields(fields: Seq<(Seq<char>, Seq<u8>)>) -> Seq<(Seq<u8>, Seq<u8>)> {
    fields.map_values(|field: (Seq<char>, Seq<u8>)| (encode_utf8(field.0), field.1))
}

/// What a client appends is answered with the next id, stored whole under its
/// stream, and handed up: the value of the first field as it was sent.
pub proof fn law_appended_is_taken(
    state: State,
    stream: Seq<char>,
    fields: Seq<(Seq<char>, Seq<u8>)>,
)
    requires
        fields.len() > 0,
        state.next_id < u64::MAX,
    ensures
        ({
            let next_id = (state.next_id + 1) as u64;
            let id = given_id(next_id as nat);
            let command = command_of(add_arguments(stream, fields));
            &&& adds(command)
            &&& answer(state, command) == Answer {
                state: State {
                    peer: state.peer,
                    streams: state.streams.insert(
                        stream,
                        entries_under(state.streams, stream).push(
                            Stored { id, fields: stored_fields(fields) },
                        ),
                    ),
                    next_id,
                },
                reply: bulk_of(id),
                added: Some(
                    Arrival { origin_uri: origin(state.peer, stream, id), bytes: fields[0].1 },
                ),
            }
        }),
{
    let arguments = add_arguments(stream, fields);
    law_command_keeps_arguments(arguments);
    lemma_lossy_of_text("XADD"@);
    lemma_lossy_of_text("*"@);
    lemma_lossy_of_text(stream);
    reveal_strlit("XADD");
    reveal_strlit("PING");
    assert(upper("XADD"@) =~= "XADD"@);
    assert("XADD"@[0] != "PING"@[0]);
    assert(arguments[0] == encode_utf8("XADD"@));
    assert(arguments[1] == encode_utf8(stream));
    assert(arguments[2] == encode_utf8("*"@));
    assert(arguments[4] == fields[0].1) by {
        assert((4 - 3) % 2 == 1int && (4 - 3) / 2 == 0int);
    }
    assert(fields_in(arguments) =~= stored_fields(fields)) by {
        assert forall|i: int| 0 <= i < fields.len() implies #[trigger] fields_in(arguments)[i]
            == stored_fields(fields)[i] by {
            assert((3 + 2 * i - 3) % 2 == 0 && (3 + 2 * i - 3) / 2 == i);
            assert((4 + 2 * i - 3) % 2 == 1 && (4 + 2 * i - 3) / 2 == i);
        }
    }
}

/// The Stream goes round whole: the bytes that append one payload, arriving at
/// a session, hand up that payload and nothing else, whatever it holds; and the
/// reply, arriving at the client, is the id that the origin names.
pub proof fn law_payload_goes_round(
    state: State,
    stream: Seq<char>,
    field: Seq<char>,
    payload: Seq<u8>,
    rest: Seq<u8>,
    closed: bool,
)
    requires
        fits(encode_utf8(stream).len()),
        fits(encode_utf8(field).len()),
        fits(payload.len()),
        state.next_id < u64::MAX,
    ensures
        ({
            let sent = wire(command_of(add_arguments(stream, seq![(field, payload)])));
            let id = given_id((state.next_id + 1) as nat);
            let served = serve(state, sent + rest, closed);
            &&& served.outcome == Ok::<_, Fault>(
                Progress::Done(
                    Some(
                        Arrival { origin_uri: origin(state.peer, stream, id), bytes: payload },
                    ),
                ),
            )
            &&& served.replies == wire(bulk_of(id))
            &&& served.unread == rest
            &&& id_answered(answered(next_value(served.replies, false).0)) == Ok::<
                _,
                Fault,
            >(Progress::Done(id))
        }),
{
    let fields = seq![(field, payload)];
    let arguments = add_arguments(stream, fields);
    reveal_strlit("XADD");
    reveal_strlit("*");
    is_ascii_chars_encode_utf8("XADD"@);
    is_ascii_chars_encode_utf8("*"@);
    assert forall|i: int| 0 <= i < arguments.len() implies fits((#[trigger] arguments[i]).len()) by {
        assert(i == 3 ==> (i - 3) % 2 == 0 && (i - 3) / 2 == 0);
        assert(i == 4 ==> (i - 3) % 2 == 1 && (i - 3) / 2 == 0);
    }
    law_commands_arrive(arguments, rest, closed);
    law_appended_is_taken(state, stream, fields);
    let sent = wire(command_of(arguments));
    lemma_parse_takes(sent + rest);
    let id = given_id((state.next_id + 1) as nat);
    lemma_given_id_fits((state.next_id + 1) as nat);
    lemma_reply_arrives(bulk_of(id));
    lemma_lossy_of_text(id);
}

/// The loopback goes round: what the near end sends, its PING first, a fresh
/// session answers and hands up whole, as the first entry of `probe`.
#[verifier::rlimit(40)]
pub proof fn law_loopback_goes_round(peer: Seq<char>, payload: Seq<u8>, closed: bool)
    requires
        fits(payload.len()),
    ensures
        ({
            let fresh = State { peer, streams: Map::empty(), next_id: 0 };
            let sent = wire(command_of(seq![encode_utf8("PING"@)])) + wire(
                command_of(add_arguments("probe"@, seq![("body"@, payload)])),
            );
            let served = serve(fresh, sent, closed);
            &&& served.outcome == Ok::<_, Fault>(
                Progress::Done(
                    Some(
                        Arrival {
                            origin_uri: "redis://"@ + peer + "/probe/1-0"@,
                            bytes: payload,
                        },
                    ),
                ),
            )
            &&& served.replies == wire(Resp::Simple("PONG"@)) + wire(bulk_of("1-0"@))
            &&& served.unread.len() == 0
        }),
{
    let fresh = State { peer, streams: Map::empty(), next_id: 0 };
    let nothing = Seq::<u8>::empty();
    let ping = seq![encode_utf8("PING"@)];
    let added = wire(command_of(add_arguments("probe"@, seq![("body"@, payload)])));
    reveal_strlit("PING");
    reveal_strlit("XADD");
    reveal_strlit("probe");
    reveal_strlit("body");
    reveal_strlit("-0");
    reveal_strlit("1-0");
    reveal_strlit("/");
    reveal_strlit("/probe/1-0");
    reveal_strlit("redis://");
    is_ascii_chars_encode_utf8("PING"@);
    is_ascii_chars_encode_utf8("probe"@);
    is_ascii_chars_encode_utf8("body"@);
    assert(arguments_fit(ping));
    law_commands_arrive(ping, added, closed);
    law_ping_is_answered(fresh);
    law_only_xadd_changes(fresh, command_of(ping), Seq::empty());
    law_command_keeps_arguments(ping);
    assert(!adds(command_of(ping)));
    lemma_parse_takes(wire(command_of(ping)) + added);
    law_payload_goes_round(fresh, "probe"@, "body"@, payload, nothing, closed);
    assert(added + nothing =~= added);
    assert(given_id(1) =~= "1-0"@);
    assert(origin(peer, "probe"@, "1-0"@) =~= "redis://"@ + peer + "/probe/1-0"@);
}

/// A reply that can be written is the next value that arrives.
proof fn lemma_reply_arrives(reply: Resp)
    requires
        writable(reply),
    ensures
        next_value(wire(reply), false) == (
            Ok::<_, Fault>(Progress::Done(Some(reply))),
            Seq::<u8>::empty(),
        ),
{
    law_written_is_read(reply, Seq::empty());
    assert(wire(reply) + Seq::<u8>::empty() =~= wire(reply));
}

/// A number below ten to the `k` has `k` digits at most.
proof fn lemma_decimal_short(n: nat, k: nat)
    requires
        n < ten_to(k),
        k > 0,
    ensures
        decimal(n).len() <= k,
    decreases n,
{
    if n >= 10 {
        lemma_decimal_short(n / 10, (k - 1) as nat);
    }
}

/// A power of ten.
spec fn ten_to(k: nat) -> nat
    decreases k,
{
    if k == 0 {
        1
    } else {
        10 * ten_to((k - 1) as nat)
    }
}

/// A decimal number of 64 bits is ASCII, and takes twenty bytes at most.
proof fn lemma_decimal_bytes(n: nat)
    requires
        n <= u64::MAX,
    ensures
        encode_utf8(decimal(n)).len() == decimal(n).len() <= 20,
        is_ascii_chars(decimal(n)),
{
    reveal_with_fuel(ten_to, 21);
    lemma_decimal_short(n, 20);
    lemma_decimal(n);
    let digits = decimal(n);
    assert forall|i: int| 0 <= i < digits.len() implies (#[trigger] digits[i]) as u32 <= 0x7f by {
        assert(is_digit(digits[i]));
    }
    is_ascii_chars_encode_utf8(digits);
}

/// The id that a session gives is short enough.
proof fn lemma_given_id_fits(n: nat)
    requires
        n <= u64::MAX,
    ensures
        fits(encode_utf8(given_id(n)).len()),
{
    lemma_decimal_bytes(n);
    let id = given_id(n);
    let digits = decimal(n);
    reveal_strlit("-0");
    assert forall|i: int| 0 <= i < id.len() implies (#[trigger] id[i]) as u32 <= 0x7f by {
        if i < digits.len() {
            assert(id[i] == digits[i]);
        }
    }
    is_ascii_chars_encode_utf8(id);
}

/// Only an XADD changes what a session holds, and only an XADD hands anything
/// up: one entry more at the end of its own stream, every other stream as it
/// was.
pub proof fn law_only_xadd_changes(state: State, command: Resp, other: Seq<char>)
    ensures
        ({
            let one = answer(state, command);
            let key = text_at(arguments_in(command), 1);
            if adds(command) {
                &&& one.added is Some
                &&& one.state.peer == state.peer
                &&& entries_under(one.state.streams, key).drop_last() == entries_under(
                    state.streams,
                    key,
                )
                &&& other != key ==> entries_under(one.state.streams, other) == entries_under(
                    state.streams,
                    other,
                )
            } else {
                &&& one.added is None
                &&& one.state == state
            }
        }),
{
    reveal_strlit("XADD");
    reveal_strlit("PING");
    assert("XADD"@[0] != "PING"@[0]);
    let key = text_at(arguments_in(command), 1);
    if adds(command) {
        assert(entries_under(answer(state, command).state.streams, key).drop_last()
            =~= entries_under(state.streams, key));
    }
}

/// A session answers the PING of a client in the way the client takes for an
/// answer.
pub proof fn law_ping_is_answered(state: State)
    ensures
        ({
            let one = answer(state, command_of(seq![encode_utf8("PING"@)]));
            &&& one.reply == Resp::Simple("PONG"@)
            &&& greeted(answered(next_value(wire(one.reply), false).0)) == Ok::<
                _,
                Fault,
            >(Progress::Done(()))
        }),
{
    let arguments = seq![encode_utf8("PING"@)];
    law_command_keeps_arguments(arguments);
    lemma_lossy_of_text("PING"@);
    reveal_strlit("PING");
    reveal_strlit("PONG");
    assert(upper("PING"@) =~= "PING"@);
    assert(!"PONG"@.contains('\n'));
    lemma_reply_arrives(Resp::Simple("PONG"@));
}

/// XLEN counts what was appended.
pub proof fn law_length_counts(state: State, stream: Seq<char>)
    requires
        entries_under(state.streams, stream).len() <= i64::MAX,
    ensures
        answer(
            state,
            command_of(seq![encode_utf8("XLEN"@), encode_utf8(stream)]),
        ).reply == Resp::Integer(entries_under(state.streams, stream).len() as i64),
{
    let arguments = seq![encode_utf8("XLEN"@), encode_utf8(stream)];
    law_command_keeps_arguments(arguments);
    lemma_lossy_of_text("XLEN"@);
    lemma_lossy_of_text(stream);
    reveal_strlit("XLEN");
    reveal_strlit("XADD");
    reveal_strlit("PING");
    assert(upper("XLEN"@) =~= "XLEN"@);
    assert("XLEN"@[1] != "XADD"@[1]);
    assert("XLEN"@[0] != "PING"@[0]);
}

/// The XRANGE of a client that reads on is answered with the entries after its
/// cursor, at most as many as it asked for, and changes nothing.
pub proof fn law_read_is_answered(
    state: State,
    stream: Seq<char>,
    cursor: Seq<char>,
    count: nat,
)
    requires
        count <= usize::MAX,
    ensures
        answer(state, command_of(range_arguments(stream, cursor, count))) == (Answer {
            state,
            reply: Resp::Array(
                Some(
                    entry_values(
                        first(entries_after(entries_under(state.streams, stream), cursor), count),
                    ),
                ),
            ),
            added: None,
        }),
{
    let arguments = range_arguments(stream, cursor, count);
    law_command_keeps_arguments(arguments);
    lemma_lossy_of_text("XRANGE"@);
    lemma_lossy_of_text(stream);
    lemma_lossy_of_text(start_after(cursor));
    lemma_lossy_of_text("+"@);
    lemma_lossy_of_text(decimal(count));
    lemma_unsigned_round_trip(count, usize::MAX as nat);
    reveal_strlit("XRANGE");
    reveal_strlit("XADD");
    reveal_strlit("XLEN");
    reveal_strlit("PING");
    assert(upper("XRANGE"@) =~= "XRANGE"@);
    assert("XRANGE"@[1] != "XADD"@[1]);
    assert("XRANGE"@[1] != "XLEN"@[1]);
    assert("XRANGE"@[0] != "PING"@[0]);
}

/// Entries as they are served are listed as they were stored.
pub proof fn law_served_is_listed(entries: Seq<Stored>)
    ensures
        listed_entries(Resp::Array(Some(entry_values(entries)))) == Some(all_listed(entries)),
{
    let served = entry_values(entries);
    assert forall|i: int| 0 <= i < served.len() implies lists_entry(#[trigger] served[i])
        && listed_entry(served[i]) == as_listed(entries[i]) by {
        let entry = entries[i];
        let elements = field_values(entry.fields);
        lemma_lossy_of_text(entry.id);
        assert forall|j: int| 0 <= j < elements.len() / 2 implies text_in(
            #[trigger] elements[2 * j],
        ) == Some(lossy(entry.fields[j].0)) && bytes_in(elements[2 * j + 1]) == Some(
            entry.fields[j].1,
        ) by {
            assert((2 * j) % 2 == 0 && (2 * j) / 2 == j);
            assert((2 * j + 1) % 2 == 1 && (2 * j + 1) / 2 == j);
        }
        assert(elements.len() == 2 * entry.fields.len());
        assert(lists_fields(elements));
        assert(listed_entry(served[i]).fields =~= as_listed(entry).fields);
    }
    assert(served.map_values(|element: Resp| listed_entry(element)) =~= all_listed(entries));
}

/// Whether what an entry holds is short enough to be served.
pub open spec fn entry_fits(entry: Stored) -> bool {
    &&& fits(encode_utf8(entry.id).len())
    &&& 2 * entry.fields.len() <= i64::MAX
    &&& forall|i: int|
        0 <= i < entry.fields.len() ==> fits((#[trigger] entry.fields[i]).0.len()) && fits(
            entry.fields[i].1.len(),
        )
}

/// Whether what a stream holds is short enough to be served.
pub open spec fn entries_fit(entries: Seq<Stored>) -> bool {
    &&& entries.len() <= i64::MAX
    &&& forall|i: int| 0 <= i < entries.len() ==> entry_fits(#[trigger] entries[i])
}

/// Entries that are short enough can be served.
proof fn lemma_entries_writable(entries: Seq<Stored>)
    requires
        entries_fit(entries),
    ensures
        writable(Resp::Array(Some(entry_values(entries)))),
{
    let served = entry_values(entries);
    assert forall|i: int| 0 <= i < served.len() implies writable(#[trigger] served[i]) by {
        let entry = entries[i];
        assert(entry_fits(entry));
        let elements = field_values(entry.fields);
        assert forall|j: int| 0 <= j < elements.len() implies writable(#[trigger] elements[j]) by {
            assert(fits(entry.fields[j / 2].0.len()));
        }
        let parts = elements_in(served[i])->0;
        assert(parts[0] == bulk_of(entry.id));
        assert(parts[1] == Resp::Array(Some(elements)));
        assert(writable(parts[0]) && writable(parts[1]));
    }
}

/// What is chosen of entries that are short enough is short enough.
proof fn lemma_range_fits(entries: Seq<Stored>, start: Seq<char>, end: Seq<char>, count: nat)
    requires
        entries_fit(entries),
    ensures
        entries_fit(first(selected(entries, start, end), count)),
{
    let chosen = selected(entries, start, end);
    let taken = first(chosen, count);
    entries.lemma_filter_len(within(start, end));
    assert forall|i: int| 0 <= i < taken.len() implies entry_fits(#[trigger] taken[i]) by {
        assert(taken[i] == chosen[i]);
        assert(chosen.contains(chosen[i]));
        entries.lemma_filter_contains_rev(within(start, end), chosen[i]);
        let k = choose|k: int| 0 <= k < entries.len() && entries[k] == chosen[i];
        assert(entry_fits(entries[k]));
    }
}

/// What was appended is read back: the bytes of a read, arriving at a session
/// with whatever comes after them, change nothing and are replied to first, and
/// the reply, arriving at the client, lists the stored entries after the cursor
/// in the order of their arrival, at most as many as were asked for.
pub proof fn law_entries_read_back(
    state: State,
    stream: Seq<char>,
    cursor: Seq<char>,
    count: nat,
    rest: Seq<u8>,
    closed: bool,
)
    requires
        count <= usize::MAX,
        fits(encode_utf8(stream).len()),
        fits(encode_utf8(start_after(cursor)).len()),
        entries_fit(entries_under(state.streams, stream)),
    ensures
        ({
            let sent = wire(command_of(range_arguments(stream, cursor, count)));
            let served = serve(state, sent + rest, closed);
            let later = serve(state, rest, closed);
            let entries = entries_under(state.streams, stream);
            let (next, left) = next_value(served.replies, false);
            &&& served == Served { replies: served.replies, ..later }
            &&& left == later.replies
            &&& entries_answered(answered(next)) == Ok::<_, Fault>(
                Progress::Done(all_listed(first(entries_after(entries, cursor), count))),
            )
        }),
{
    let arguments = range_arguments(stream, cursor, count);
    let entries = entries_under(state.streams, stream);
    let read = first(entries_after(entries, cursor), count);
    reveal_strlit("XRANGE");
    reveal_strlit("COUNT");
    reveal_strlit("+");
    is_ascii_chars_encode_utf8("XRANGE"@);
    is_ascii_chars_encode_utf8("COUNT"@);
    is_ascii_chars_encode_utf8("+"@);
    lemma_decimal_bytes(count);
    assert(arguments_fit(arguments));
    law_commands_arrive(arguments, rest, closed);
    lemma_parse_takes(wire(command_of(arguments)) + rest);
    law_read_is_answered(state, stream, cursor, count);
    lemma_range_fits(entries, start_after(cursor), "+"@, count);
    lemma_entries_writable(read);
    let reply = Resp::Array(Some(entry_values(read)));
    law_written_is_read(reply, serve(state, rest, closed).replies);
    law_served_is_listed(read);
}

/// What one Location appends, another that reads the same field of the same
/// stream receives whole: the last entry then carries the payload.
pub proof fn law_appended_is_received(state: State, settings: Settings, payload: Seq<u8>)
    requires
        state.next_id < u64::MAX,
    ensures
        ({
            let command = command_of(
                add_arguments(settings.stream, seq![(settings.field, payload)]),
            );
            let entries = entries_under(answer(state, command).state.streams, settings.stream);
            let id = given_id((state.next_id + 1) as nat);
            &&& entries.len() == entries_under(state.streams, settings.stream).len() + 1
            &&& carried(settings, as_listed(entries.last())) == Arrival {
                origin_uri: origin(settings.server, settings.stream, id),
                bytes: payload,
            }
        }),
{
    let fields = seq![(settings.field, payload)];
    law_appended_is_taken(state, settings.stream, fields);
    lemma_lossy_of_text(settings.field);
    let command = command_of(add_arguments(settings.stream, fields));
    let entries = entries_under(answer(state, command).state.streams, settings.stream);
    assert(as_listed(entries.last()).fields =~= fields);
}

/// What clients append keeps every stream of a session in order.
pub proof fn law_appending_keeps_order(
    state: State,
    stream: Seq<char>,
    fields: Seq<(Seq<char>, Seq<u8>)>,
)
    requires
        numbered(state),
        state.next_id < u64::MAX,
    ensures
        numbered(answer(state, command_of(add_arguments(stream, fields))).state),
{
    let arguments = add_arguments(stream, fields);
    law_command_keeps_arguments(arguments);
    lemma_lossy_of_text("*"@);
    assert(arguments[2] == encode_utf8("*"@));
    law_given_ids_keep_order(state, command_of(arguments));
}

/// A fresh session holds nothing: whatever is read from it, nothing is listed,
/// and the cursor stays.
pub proof fn law_fresh_session_holds_nothing(
    peer: Seq<char>,
    stream: Seq<char>,
    cursor: Seq<char>,
    count: nat,
)
    ensures
        ({
            let state = State { peer, streams: Map::empty(), next_id: 0 };
            let read = first(entries_after(entries_under(state.streams, stream), cursor), count);
            &&& read.len() == 0
            &&& moved(cursor, all_listed(read)) == cursor
        }),
{
    let none = Seq::<Stored>::empty();
    none.lemma_filter_len(within(start_after(cursor), "+"@));
}

/// The arguments of `XREAD [COUNT n] STREAMS key... id...`.
pub open spec fn xread_arguments(
    keys: Seq<Seq<char>>,
    ids: Seq<Seq<char>>,
    count: Option<nat>,
) -> Seq<Seq<u8>> {
    let counted = match count {
        Some(n) => seq![encode_utf8("COUNT"@), encode_utf8(decimal(n))],
        None => Seq::empty(),
    };
    seq![encode_utf8("XREAD"@)] + counted + seq![encode_utf8("STREAMS"@)] + (keys
        + ids).map_values(|name: Seq<char>| encode_utf8(name))
}

/// What is new in each of several streams after an id: the key, and at most
/// `count` entries.
pub open spec fn found_in(
    streams: Map<Seq<char>, Seq<Stored>>,
    keys: Seq<Seq<char>>,
    ids: Seq<Seq<char>>,
    count: nat,
) -> Seq<(Seq<char>, Seq<Stored>)> {
    Seq::new(
        keys.len(),
        |i: int|
            (
                keys[i],
                first(selected(entries_under(streams, keys[i]), "("@ + ids[i], "+"@), count),
            ),
    )
}

/// What is new, where anything is.
pub open spec fn news() -> spec_fn((Seq<char>, Seq<Stored>)) -> bool {
    |one: (Seq<char>, Seq<Stored>)| one.1.len() > 0
}

/// What is new in one stream as it is served: the key, and the entries.
pub open spec fn news_value(one: (Seq<char>, Seq<Stored>)) -> Resp {
    Resp::Array(Some(seq![bulk_of(one.0), Resp::Array(Some(entry_values(one.1)))]))
}

/// What XREAD finds in the first streams is what is new in them.
proof fn lemma_read_streams_are_news(
    streams: Map<Seq<char>, Seq<Stored>>,
    keys: Seq<Seq<char>>,
    ids: Seq<Seq<char>>,
    k: nat,
    count: nat,
)
    requires
        keys.len() == ids.len(),
        k <= keys.len(),
    ensures
        read_streams(streams, keys + ids, keys.len(), k, count) == found_in(
            streams,
            keys,
            ids,
            count,
        ).take(k as int).filter(news()).map_values(
            |one: (Seq<char>, Seq<Stored>)| news_value(one),
        ),
    decreases k,
{
    reveal(Seq::filter);
    let all = found_in(streams, keys, ids, count);
    let show = |one: (Seq<char>, Seq<Stored>)| news_value(one);
    let taken = all.take(k as int);
    let found = read_streams(streams, keys + ids, keys.len(), k, count);
    if k > 0 {
        lemma_read_streams_are_news(streams, keys, ids, (k - 1) as nat, count);
        assert(taken.drop_last() =~= all.take(k - 1));
        assert(taken.last() == all[k - 1]);
        assert((keys + ids)[k - 1] == keys[k - 1]);
        assert((keys + ids)[keys.len() + k - 1] == ids[k - 1]);
    }
    assert(found =~= taken.filter(news()).map_values(show));
}

/// XREAD gives what comes after each id, at most as many entries as it asks
/// for, beside the key, in the order of the keys; a stream without later entries
/// is left out, and the reply is null where nothing is left.
pub proof fn law_xread_reads_on(
    state: State,
    keys: Seq<Seq<char>>,
    ids: Seq<Seq<char>>,
    count: Option<nat>,
)
    requires
        keys.len() == ids.len(),
        count matches Some(n) ==> n <= usize::MAX,
    ensures
        ({
            let limit = match count {
                Some(n) => n,
                None => usize::MAX as nat,
            };
            let found = found_in(state.streams, keys, ids, limit).filter(news());
            answer(state, command_of(xread_arguments(keys, ids, count))) == Answer {
                state,
                reply: if found.len() == 0 {
                    Resp::Array(None)
                } else {
                    Resp::Array(
                        Some(
                            found.map_values(
                                |one: (Seq<char>, Seq<Stored>)| news_value(one),
                            ),
                        ),
                    )
                },
                added: None,
            }
        }),
{
    let arguments = xread_arguments(keys, ids, count);
    law_command_keeps_arguments(arguments);
    lemma_lossy_of_text("XREAD"@);
    lemma_lossy_of_text("COUNT"@);
    lemma_lossy_of_text("STREAMS"@);
    reveal_strlit("XREAD");
    reveal_strlit("XADD");
    reveal_strlit("XLEN");
    reveal_strlit("XRANGE");
    reveal_strlit("PING");
    reveal_strlit("COUNT");
    reveal_strlit("STREAMS");
    assert(upper("XREAD"@) =~= "XREAD"@);
    assert("XREAD"@[1] != "XADD"@[1]);
    assert("XREAD"@[1] != "XLEN"@[1]);
    assert("XREAD"@[2] != "XRANGE"@[2]);
    assert("XREAD"@[0] != "PING"@[0]);
    assert(arguments[0] == encode_utf8("XREAD"@));
    let names = keys + ids;
    let (at, limit): (int, nat) = match count {
        Some(n) => {
            lemma_lossy_of_text(decimal(n));
            lemma_unsigned_round_trip(n, usize::MAX as nat);
            assert(arguments[1] == encode_utf8("COUNT"@));
            assert(arguments[2] == encode_utf8(decimal(n)));
            assert(arguments[3] == encode_utf8("STREAMS"@));
            (3, n)
        },
        None => {
            assert(arguments[1] == encode_utf8("STREAMS"@));
            assert(upper("STREAMS"@).len() != upper("COUNT"@).len());
            (1, usize::MAX as nat)
        },
    };
    assert(names_from(arguments, at + 1) =~= names) by {
        assert forall|i: int| 0 <= i < names.len() implies #[trigger] text_at(
            arguments,
            at + 1 + i,
        ) == names[i] by {
            assert(arguments[at + 1 + i] == encode_utf8(names[i]));
            lemma_lossy_of_text(names[i]);
        }
    }
    let all = found_in(state.streams, keys, ids, limit);
    lemma_read_streams_are_news(state.streams, keys, ids, keys.len(), limit);
    assert(all.take(keys.len() as int) =~= all);
}

/// No entry that XREAD finds in a stream has an id at or before the one that it
/// reads after.
pub proof fn law_xread_is_later(
    streams: Map<Seq<char>, Seq<Stored>>,
    keys: Seq<Seq<char>>,
    ids: Seq<Seq<char>>,
    count: nat,
    i: int,
    j: int,
)
    requires
        keys.len() == ids.len(),
        0 <= i < keys.len(),
        ids[i] != "-"@,
        0 <= j < found_in(streams, keys, ids, count)[i].1.len(),
    ensures
        pair_less(
            id_pair(ids[i]),
            id_pair(found_in(streams, keys, ids, count)[i].1[j].id),
        ),
{
    let start = "("@ + ids[i];
    reveal_strlit("(");
    assert(start.skip(1) =~= ids[i]);
    entries_under(streams, keys[i]).lemma_filter_pred(within(start, "+"@), j);
}

/// A command that a session does not know, or that lacks what it needs, is
/// answered with an error and changes nothing; and the error, which is one
/// line, arrives at the client as the error that it is.
pub proof fn law_refusal_arrives(state: State, command: Resp)
    requires
        answer(state, command).reply is Error,
    ensures
        answer(state, command).state == state,
        answer(state, command).added is None,
        ({
            let text = answer(state, command).reply->Error_0;
            !text.contains('\n') ==> answered(
                next_value(wire(answer(state, command).reply), false).0,
            ) == Err::<Progress<Resp>, _>(Fault::Answered(text))
        }),
{
    law_only_xadd_changes(state, command, Seq::empty());
    let reply = answer(state, command).reply;
    if !reply->Error_0.contains('\n') {
        lemma_reply_arrives(reply);
    }
}

/// Whether what a session holds is short enough to be served.
pub open spec fn state_fits(state: State) -> bool {
    forall|key: Seq<char>| #[trigger]
        state.streams.contains_key(key) ==> fits(encode_utf8(key).len()) && entries_fit(
            state.streams[key],
        )
}

/// What XREAD finds in streams that are short enough can be served.
proof fn lemma_read_streams_writable(
    state: State,
    names: Seq<Seq<char>>,
    half: nat,
    k: nat,
    count: nat,
)
    requires
        state_fits(state),
        k <= i64::MAX,
    ensures
        read_streams(state.streams, names, half, k, count).len() <= k,
        forall|i: int|
            0 <= i < read_streams(state.streams, names, half, k, count).len() ==> writable(
                #[trigger] read_streams(state.streams, names, half, k, count)[i],
            ),
    decreases k,
{
    if k > 0 {
        lemma_read_streams_writable(state, names, half, (k - 1) as nat, count);
        let key = names[k - 1];
        let entries = entries_under(state.streams, key);
        let start = "("@ + names[half + k - 1];
        let found = first(selected(entries, start, "+"@), count);
        if found.len() > 0 {
            entries.lemma_filter_len(within(start, "+"@));
            assert(state.streams.contains_key(key));
            lemma_range_fits(entries, start, "+"@, count);
            lemma_entries_writable(found);
            let parts = seq![bulk_of(key), Resp::Array(Some(entry_values(found)))];
            assert(writable(parts[0]) && writable(parts[1]));
            assert(writable(Resp::Array(Some(parts))));
        }
    }
}

/// What a session replies is what the client reads: every reply that is no
/// error, where what the session holds is short enough, arrives as it was sent.
pub proof fn law_replies_arrive(state: State, command: Resp)
    requires
        state_fits(state),
        arguments_in(command).len() <= i64::MAX,
        adds(command) ==> fits(encode_utf8(text_at(arguments_in(command), 2)).len()),
        !(answer(state, command).reply is Error),
    ensures
        answered(next_value(wire(answer(state, command).reply), false).0) == Ok::<_, Fault>(
            Progress::Done(answer(state, command).reply),
        ),
{
    lemma_reply_writable(state, command);
    lemma_reply_arrives(answer(state, command).reply);
}

/// Every reply that is no error can be written, where what the session holds is
/// short enough.
proof fn lemma_reply_writable(state: State, command: Resp)
    requires
        state_fits(state),
        arguments_in(command).len() <= i64::MAX,
        adds(command) ==> fits(encode_utf8(text_at(arguments_in(command), 2)).len()),
        !(answer(state, command).reply is Error),
    ensures
        writable(answer(state, command).reply),
{
    let arguments = arguments_in(command);
    let verb = verb_in(arguments);
    if verb == "PING"@ {
        reveal_strlit("PONG");
        assert(!"PONG"@.contains('\n'));
    } else if adds(command) {
        lemma_given_id_fits((state.next_id + 1) as u64 as nat);
    } else if verb == "XLEN"@ {
    } else if verb == "XRANGE"@ && arguments.len() >= 4 {
        let key = text_at(arguments, 1);
        let entries = entries_under(state.streams, key);
        assert(state.streams.contains_key(key) ==> entries_fit(entries));
        let count = count_at(arguments, 5);
        let read = first(
            selected(entries, text_at(arguments, 2), text_at(arguments, 3)),
            count,
        );
        lemma_range_fits(entries, text_at(arguments, 2), text_at(arguments, 3), count);
        lemma_entries_writable(read);
    } else {
        let counted = word_is(arguments, 1, "COUNT"@);
        let at: int = if counted {
            3
        } else {
            1
        };
        let count = if counted {
            count_at(arguments, 2)
        } else {
            usize::MAX as nat
        };
        let names = names_from(arguments, at + 1);
        let half = names.len() / 2;
        lemma_read_streams_writable(state, names, half, half, count);
    }
}

/// What is appended to a session that is short enough leaves it so, where the
/// new entry is short enough and its stream is not full.
pub proof fn law_appending_fits(
    state: State,
    stream: Seq<char>,
    fields: Seq<(Seq<char>, Seq<u8>)>,
)
    requires
        fields.len() > 0,
        state.next_id < u64::MAX,
        state_fits(state),
        fits(encode_utf8(stream).len()),
        entries_under(state.streams, stream).len() < i64::MAX,
        2 * fields.len() <= i64::MAX,
        forall|i: int|
            0 <= i < fields.len() ==> fits(encode_utf8((#[trigger] fields[i]).0).len()) && fits(
                fields[i].1.len(),
            ),
    ensures
        state_fits(answer(state, command_of(add_arguments(stream, fields))).state),
{
    let after = answer(state, command_of(add_arguments(stream, fields))).state;
    law_appended_is_taken(state, stream, fields);
    lemma_given_id_fits(after.next_id as nat);
    let before = entries_under(state.streams, stream);
    let entries = entries_under(after.streams, stream);
    assert(state.streams.contains_key(stream) ==> entries_fit(before));
    assert forall|i: int| 0 <= i < entries.len() implies entry_fits(#[trigger] entries[i]) by {
        if i < before.len() {
            assert(entries[i] == before[i]);
        } else {
            let entry = entries[i];
            assert forall|j: int| 0 <= j < entry.fields.len() implies fits(
                (#[trigger] entry.fields[j]).0.len(),
            ) && fits(entry.fields[j].1.len()) by {
                assert(fits(fields[j].1.len()));
            }
        }
    }
    assert forall|key: Seq<char>| #[trigger] after.streams.contains_key(key) implies fits(
        encode_utf8(key).len(),
    ) && entries_fit(after.streams[key]) by {
        if key != stream {
            assert(state.streams.contains_key(key));
        }
    }
}

/// Whether these bytes are values, whole and none of them an XADD, and nothing
/// else.
pub open spec fn appends_nothing(unread: Seq<u8>) -> bool
    decreases unread.len(),
{
    match parse(unread) {
        Parsed::Closed => true,
        Parsed::Value(command, left) if left.len() < unread.len() => !adds(command)
            && appends_nothing(left),
        _ => false,
    }
}

/// A session hands up that there is no more exactly where the client closed
/// and what it had sent is whole values that append nothing.
pub proof fn law_none_where_the_client_closed(state: State, unread: Seq<u8>, closed: bool)
    ensures
        serve(state, unread, closed).outcome == Ok::<_, Fault>(Progress::Done(None::<Arrival>))
            <==> closed && appends_nothing(unread),
    decreases unread.len(),
{
    lemma_parse_takes(unread);
    if let Parsed::Value(command, left) = parse(unread) {
        law_only_xadd_changes(state, command, Seq::empty());
        if !adds(command) {
            law_none_where_the_client_closed(answer(state, command).state, left, closed);
        }
    }
}

/// What a session sends is its replies, one after the other.
pub proof fn law_what_is_sent_is_replies(state: State, unread: Seq<u8>, closed: bool)
    ensures
        serve(state, unread, closed).replies == wire_all(replies_in_turn(state, unread, closed)),
    decreases unread.len(),
{
    lemma_parse_takes(unread);
    let replies = replies_in_turn(state, unread, closed);
    match next_value(unread, closed) {
        (Ok(Progress::Done(Some(command))), left) => {
            let one = answer(state, command);
            lemma_wire_all_first(replies);
            if one.added is None {
                law_what_is_sent_is_replies(one.state, left, closed);
                assert(replies.skip(1) =~= replies_in_turn(one.state, left, closed));
            } else {
                assert(replies.skip(1) =~= Seq::<Resp>::empty());
                assert(wire(one.reply) + Seq::<u8>::empty() =~= wire(one.reply));
            }
        },
        _ => {},
    }
}

/// Whether an id of the client's own, in the XADD among these bytes, is short
/// enough to be answered with.
pub open spec fn own_id_fits(unread: Seq<u8>) -> bool
    decreases unread.len(),
{
    match parse(unread) {
        Parsed::Value(command, left) if left.len() < unread.len() => if adds(command) {
            fits(encode_utf8(text_at(arguments_in(command), 2)).len())
        } else {
            own_id_fits(left)
        },
        _ => true,
    }
}

/// A command has no more arguments than elements.
proof fn lemma_arguments_short(elements: Seq<Resp>)
    ensures
        elements.filter_map(|element: Resp| bytes_in(element)).len() <= elements.len(),
    decreases elements.len(),
{
    if elements.len() > 0 {
        lemma_arguments_short(elements.drop_last());
    }
}

/// Every reply of a session, where what it holds is short enough and its errors
/// are one line, can be written.
proof fn lemma_replies_in_turn_writable(state: State, unread: Seq<u8>, closed: bool)
    requires
        state_fits(state),
        own_id_fits(unread),
        refused_in_one_line(replies_in_turn(state, unread, closed)),
    ensures
        forall|i: int|
            0 <= i < replies_in_turn(state, unread, closed).len() ==> writable(
                #[trigger] replies_in_turn(state, unread, closed)[i],
            ),
    decreases unread.len(),
{
    lemma_parse_takes(unread);
    let replies = replies_in_turn(state, unread, closed);
    if let Parsed::Value(command, left) = parse(unread) {
        let one = answer(state, command);
        law_only_xadd_changes(state, command, Seq::empty());
        if let Some(elements) = elements_in(command) {
            lemma_arguments_short(elements);
        }
        assert(replies[0] == one.reply);
        assert(writable(one.reply)) by {
            if !(one.reply is Error) {
                lemma_reply_writable(state, command);
            }
        }
        if !adds(command) {
            let later = replies_in_turn(state, left, closed);
            assert forall|i: int| 0 <= i < later.len() implies (#[trigger] later[i])
                == replies[i + 1] by {}
            assert(refused_in_one_line(later));
            lemma_replies_in_turn_writable(state, left, closed);
            assert forall|i: int| 0 <= i < replies.len() implies writable(
                #[trigger] replies[i],
            ) by {
                if i > 0 {
                    assert(replies[i] == later[i - 1]);
                }
            }
        }
    }
}

/// Whatever a session sends, the client reads as the replies that they are, one
/// for each command, an error as one error. (That a session's errors are one
/// line is what [`Session::next_add`](crate::session::Session::next_add) states.)
pub proof fn law_replies_in_turn_arrive(state: State, unread: Seq<u8>, closed: bool)
    requires
        state_fits(state),
        own_id_fits(unread),
        refused_in_one_line(replies_in_turn(state, unread, closed)),
    ensures
        ({
            let replies = replies_in_turn(state, unread, closed);
            parse_all(serve(state, unread, closed).replies, replies.len())
                == ParsedAll::Elements(replies, Seq::empty())
        }),
{
    let replies = replies_in_turn(state, unread, closed);
    lemma_replies_in_turn_writable(state, unread, closed);
    law_what_is_sent_is_replies(state, unread, closed);
    law_all_written_are_read(replies, Seq::empty());
    assert(wire_all(replies) + Seq::<u8>::empty() =~= wire_all(replies));
}

} // verus!
