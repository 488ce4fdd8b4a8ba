//! Each command by its arguments: what a session holds after it, what it
//! replies, and what it hands up.

use vstd::prelude::*;
use vstd::utf8::encode_utf8;

use crate::arrived::{origin, Arrival, Arrived};
use crate::connection::{Awaited, Progress};
use crate::decimal::{decimal, parse_unsigned};
use crate::error::{Error, Fault};
use crate::ordering::law_range_is_served_in_order;
use crate::reading::law_whole_stream_from_the_beginning;
use crate::resp::{bytes_in, elements_in, lemma_parse_takes, parse, wire, Parsed, Resp};
use crate::session::{
    add_outcome, adds, answer, appends, arguments_in, arrival_of, count_at, entries_under,
    entry_value, is_after, is_before, names_from, range_values, read_streams, replies_in_turn,
    selected, serve, text_at, verb_in, within, word_is, Answer, State, Stored,
};
use crate::text::{lossy, quoted, same_but_case, upper};

verus! {

/// The arguments of a command are the bulk strings among its elements, in their
/// order; what is no array has none.
pub proof fn law_arguments_are_the_bulk_strings(
    command: Resp,
    before: Seq<Resp>,
    element: Resp,
    after: Seq<Resp>,
)
    ensures
        elements_in(command) is None ==> arguments_in(command).len() == 0,
        arguments_in(Resp::Array(Some(Seq::empty()))).len() == 0,
        element matches Resp::Bulk(Some(bytes)) ==> arguments_in(
            Resp::Array(Some(before + seq![element] + after)),
        ) == arguments_in(Resp::Array(Some(before))) + seq![bytes] + arguments_in(
            Resp::Array(Some(after)),
        ),
        !(element matches Resp::Bulk(Some(_))) ==> arguments_in(
            Resp::Array(Some(before + seq![element] + after)),
        ) == arguments_in(Resp::Array(Some(before))) + arguments_in(Resp::Array(Some(after))),
    decreases after.len(),
{
    let pick = |element: Resp| bytes_in(element);
    let whole = before + seq![element] + after;
    assert(Seq::<Resp>::empty().filter_map(pick) =~= Seq::<Seq<u8>>::empty());
    if after.len() == 0 {
        assert(whole.drop_last() =~= before);
        assert(whole.last() == element);
        assert(after =~= Seq::<Resp>::empty());
    } else {
        let front = after.drop_last();
        law_arguments_are_the_bulk_strings(command, before, element, front);
        assert(whole.drop_last() =~= before + seq![element] + front);
        assert(whole.last() == after.last());
    }
    if let Resp::Bulk(Some(bytes)) = element {
        assert(whole.filter_map(pick) =~= before.filter_map(pick) + seq![bytes]
            + after.filter_map(pick));
    } else {
        assert(whole.filter_map(pick) =~= before.filter_map(pick) + after.filter_map(pick));
    }
}

/// The entries under a key are those of its stream, and none where there is no
/// such stream.
pub proof fn law_entries_of_a_stream(streams: Map<Seq<char>, Seq<Stored>>, key: Seq<char>)
    ensures
        streams.contains_key(key) ==> entries_under(streams, key) == streams[key],
        !streams.contains_key(key) ==> entries_under(streams, key).len() == 0,
{
}

/// The verbs differ in their letters.
proof fn lemma_verbs_differ()
    ensures
        "PING"@ != "XADD"@,
        "PING"@ != "XLEN"@,
        "PING"@ != "XRANGE"@,
        "PING"@ != "XREAD"@,
        "XADD"@ != "XLEN"@,
        "XADD"@ != "XRANGE"@,
        "XADD"@ != "XREAD"@,
        "XLEN"@ != "XRANGE"@,
        "XLEN"@ != "XREAD"@,
        "XRANGE"@ != "XREAD"@,
{
    reveal_strlit("PING");
    reveal_strlit("XADD");
    reveal_strlit("XLEN");
    reveal_strlit("XRANGE");
    reveal_strlit("XREAD");
    assert("PING"@[0] == 'P' && "XADD"@[0] == 'X' && "XLEN"@[0] == 'X' && "XRANGE"@[0] == 'X'
        && "XREAD"@[0] == 'X');
    assert("XADD"@[1] == 'A' && "XLEN"@[1] == 'L' && "XRANGE"@[1] == 'R' && "XREAD"@[1] == 'R');
    assert("XRANGE"@[2] == 'A' && "XREAD"@[2] == 'E');
}

/// The URI of an entry is `redis://`, the server, the stream and the id, with a
/// slash between them.
pub proof fn law_origin_names_the_entry(server: Seq<char>, stream: Seq<char>, id: Seq<char>)
    ensures
        origin(server, stream, id) == seq!['r', 'e', 'd', 'i', 's', ':', '/', '/'] + server + seq![
            '/',
        ] + stream + seq!['/'] + id,
{
    reveal_strlit("redis://");
    reveal_strlit("/");
    assert(origin(server, stream, id) =~= seq!['r', 'e', 'd', 'i', 's', ':', '/', '/'] + server
        + seq!['/'] + stream + seq!['/'] + id);
}

/// An XADD with a key, an id and whole fields, whichever way its id comes about:
/// one entry more at the end of its stream and nothing else changed, its fields
/// the name and value arguments pair by pair in order, its id the stated one, or
/// for `*` the next number and 0; the id is the reply, and the value of the first
/// field is handed up with the URI of the entry.
pub proof fn law_xadd_appends_what_it_is_given(
    state: State,
    command: Resp,
    other: Seq<char>,
    i: int,
    k: int,
)
    requires
        arguments_in(command).len() >= 5,
        arguments_in(command).len() % 2 == 1,
        upper(lossy(arguments_in(command)[0])) == "XADD"@,
        state.next_id < u64::MAX,
    ensures
        ({
            let given = arguments_in(command);
            let key = lossy(given[1]);
            let stated = lossy(given[2]);
            let id = if stated == seq!['*'] {
                decimal((state.next_id + 1) as nat) + seq!['-', '0']
            } else {
                stated
            };
            let after = answer(state, command);
            let before = if state.streams.contains_key(key) {
                state.streams[key]
            } else {
                Seq::empty()
            };
            &&& after.state.peer == state.peer
            &&& after.state.next_id == state.next_id + 1
            &&& other != key ==> {
                &&& after.state.streams.contains_key(other) == state.streams.contains_key(other)
                &&& after.state.streams[other] == state.streams[other]
            }
            &&& after.state.streams.contains_key(key)
            &&& after.state.streams[key].len() == before.len() + 1
            &&& 0 <= i < before.len() ==> after.state.streams[key][i] == before[i]
            &&& after.state.streams[key].last().id == id
            &&& 2 * after.state.streams[key].last().fields.len() == given.len() - 3
            &&& 0 <= k < after.state.streams[key].last().fields.len()
                ==> after.state.streams[key].last().fields[k] == (given[3 + 2 * k], given[4 + 2
                * k])
            &&& after.reply == Resp::Bulk(Some(encode_utf8(id)))
            &&& after.added == Some(
                Arrival {
                    origin_uri: seq!['r', 'e', 'd', 'i', 's', ':', '/', '/'] + state.peer + seq![
                        '/',
                    ] + key + seq!['/'] + id,
                    bytes: given[4],
                },
            )
        }),
{
    lemma_verbs_differ();
    let given = arguments_in(command);
    let key = lossy(given[1]);
    let id = text_at(given, 2);
    reveal_strlit("*");
    reveal_strlit("-0");
    assert("*"@ =~= seq!['*']);
    assert("-0"@ =~= seq!['-', '0']);
    law_origin_names_the_entry(state.peer, key, id);
    law_origin_names_the_entry(
        state.peer,
        key,
        decimal((state.next_id + 1) as nat) + seq!['-', '0'],
    );
    assert(verb_in(given) == "XADD"@);
    assert(adds(command));
}

/// What an XADD was given is what an XRANGE over the whole stream, without a
/// count, then lists last: its id, and its names and values by turns.
pub proof fn law_xadd_is_served_whole(state: State, command: Resp, range: Resp, k: int)
    requires
        arguments_in(command).len() >= 5,
        arguments_in(command).len() % 2 == 1,
        upper(lossy(arguments_in(command)[0])) == "XADD"@,
        state.next_id < u64::MAX,
        arguments_in(range).len() == 4,
        upper(lossy(arguments_in(range)[0])) == "XRANGE"@,
        lossy(arguments_in(range)[1]) == lossy(arguments_in(command)[1]),
        lossy(arguments_in(range)[2]) == seq!['-'],
        lossy(arguments_in(range)[3]) == seq!['+'],
        entries_under(state.streams, lossy(arguments_in(command)[1])).len() < usize::MAX,
    ensures
        ({
            let given = arguments_in(command);
            let one = answer(state, command);
            &&& answer(one.state, range).reply matches Resp::Array(Some(rows)) && {
                &&& rows.len() == entries_under(state.streams, lossy(given[1])).len() + 1
                &&& rows.last() matches Resp::Array(Some(parts)) && {
                    &&& parts.len() == 2
                    &&& parts[0] == one.reply
                    &&& parts[1] matches Resp::Array(Some(flat)) && {
                        &&& flat.len() == given.len() - 3
                        &&& 0 <= k < flat.len() ==> flat[k] == Resp::Bulk(Some(given[3 + k]))
                    }
                }
            }
        }),
{
    let given = arguments_in(command);
    let one = answer(state, command);
    law_xadd_appends_what_it_is_given(state, command, lossy(given[1]), 0, k / 2);
    let entries = one.state.streams[lossy(given[1])];
    law_xrange_without_count_lists_all(one.state, range, entries.len() - 1);
}

/// An XADD that lacks its key, its id or a field, or the value of one, is an
/// unknown command, and so is whatever is none of the five; nothing changes and
/// nothing is handed up.
pub proof fn law_unknown_commands_are_refused(state: State, command: Resp)
    requires
        ({
            let given = arguments_in(command);
            let verb = if given.len() > 0 {
                upper(lossy(given[0]))
            } else {
                Seq::empty()
            };
            &&& verb != "PING"@
            &&& verb == "XADD"@ ==> given.len() < 5 || given.len() % 2 == 0
            &&& verb != "XLEN"@
            &&& verb == "XRANGE"@ ==> given.len() < 4
            &&& verb != "XREAD"@
        }),
    ensures
        ({
            let given = arguments_in(command);
            let verb = if given.len() > 0 {
                upper(lossy(given[0]))
            } else {
                Seq::empty()
            };
            answer(state, command) == Answer {
                state,
                reply: Resp::Error("ERR unknown command "@ + quoted(verb)),
                added: None,
            }
        }),
{
    lemma_verbs_differ();
    let given = arguments_in(command);
    if given.len() == 0 {
        assert(verb_in(given) =~= Seq::<char>::empty());
    }
}

/// PING is answered PONG, whatever comes with it, and changes nothing.
pub proof fn law_ping_is_ponged(state: State, command: Resp)
    requires
        arguments_in(command).len() > 0,
        upper(lossy(arguments_in(command)[0])) == "PING"@,
    ensures
        answer(state, command) == (Answer { state, reply: Resp::Simple("PONG"@), added: None }),
{
    lemma_verbs_differ();
}

/// XLEN is answered with the number of entries under its key, none for a key it
/// lacks or nothing was appended under, and changes nothing.
pub proof fn law_xlen_counts_its_stream(state: State, command: Resp)
    requires
        arguments_in(command).len() > 0,
        upper(lossy(arguments_in(command)[0])) == "XLEN"@,
    ensures
        ({
            let given = arguments_in(command);
            let key = if given.len() > 1 {
                lossy(given[1])
            } else {
                Seq::empty()
            };
            let length = if state.streams.contains_key(key) {
                state.streams[key].len()
            } else {
                0
            };
            answer(state, command) == Answer {
                state,
                reply: Resp::Integer(
                    if length <= 0x7fff_ffff_ffff_ffff {
                        length as i64
                    } else {
                        0
                    },
                ),
                added: None,
            }
        }),
{
    lemma_verbs_differ();
}

/// XRANGE is answered with the entries of its stream that lie within its range,
/// in their order: as many as its sixth argument states, and all where it states
/// no number.
pub proof fn law_xrange_lists_its_range(state: State, command: Resp, i: int)
    requires
        arguments_in(command).len() >= 4,
        upper(lossy(arguments_in(command)[0])) == "XRANGE"@,
    ensures
        ({
            let given = arguments_in(command);
            let entries = entries_under(state.streams, lossy(given[1]));
            let chosen = entries.filter(
                |entry: Stored|
                    is_after(entry.id, lossy(given[2])) && is_before(entry.id, lossy(given[3])),
            );
            let one = answer(state, command);
            &&& one.state == state
            &&& one.added is None
            &&& one.reply matches Resp::Array(Some(rows)) && {
                &&& rows.len() <= chosen.len()
                &&& 0 <= i < rows.len() ==> rows[i] == entry_value(chosen[i])
                &&& match if given.len() >= 6 {
                    parse_unsigned(lossy(given[5]), usize::MAX as nat)
                } else {
                    None
                } {
                    Some(count) => rows.len() == if count < chosen.len() {
                        count
                    } else {
                        chosen.len()
                    },
                    None => chosen.len() <= usize::MAX ==> rows.len() == chosen.len(),
                }
            }
        }),
{
    lemma_verbs_differ();
    let given = arguments_in(command);
    let entries = entries_under(state.streams, lossy(given[1]));
    let inside = |entry: Stored|
        is_after(entry.id, lossy(given[2])) && is_before(entry.id, lossy(given[3]));
    assert(within(lossy(given[2]), lossy(given[3])) =~= inside);
    assert(selected(entries, lossy(given[2]), lossy(given[3])) == entries.filter(inside));
    law_range_is_served_in_order(
        entries,
        lossy(given[2]),
        lossy(given[3]),
        count_at(given, 5),
        i,
    );
}

/// XRANGE from `-` to `+` without a count is answered with every entry of its
/// stream, in order.
pub proof fn law_xrange_without_count_lists_all(state: State, command: Resp, i: int)
    requires
        4 <= arguments_in(command).len() <= 5,
        upper(lossy(arguments_in(command)[0])) == "XRANGE"@,
        lossy(arguments_in(command)[2]) == seq!['-'],
        lossy(arguments_in(command)[3]) == seq!['+'],
        entries_under(state.streams, lossy(arguments_in(command)[1])).len() <= usize::MAX,
    ensures
        ({
            let entries = entries_under(state.streams, lossy(arguments_in(command)[1]));
            answer(state, command).reply matches Resp::Array(Some(rows)) && {
                &&& rows.len() == entries.len()
                &&& 0 <= i < rows.len() ==> rows[i] == entry_value(entries[i])
            }
        }),
{
    let given = arguments_in(command);
    let entries = entries_under(state.streams, lossy(given[1]));
    reveal_strlit("-");
    reveal_strlit("+");
    assert("-"@ =~= seq!['-']);
    assert("+"@ =~= seq!['+']);
    law_whole_stream_from_the_beginning(entries);
    assert(selected(entries, "-"@, "+"@) == entries);
    let inside = |entry: Stored|
        is_after(entry.id, lossy(given[2])) && is_before(entry.id, lossy(given[3]));
    assert(within("-"@, "+"@) =~= inside);
    law_xrange_lists_its_range(state, command, i);
}

/// What XREAD finds in its first `k` streams: one by one those with news.
proof fn lemma_news_in_order(
    streams: Map<Seq<char>, Seq<Stored>>,
    names: Seq<Seq<char>>,
    half: nat,
    k: nat,
    count: nat,
    has_news: spec_fn(int) -> bool,
    j: int,
)
    requires
        has_news == (|i: int|
            range_values(
                entries_under(streams, names[i]),
                seq!['('] + names[half + i],
                seq!['+'],
                count,
            ).len() > 0),
    ensures
        ({
            let indices = Seq::new(k, |i: int| i).filter(has_news);
            let found = read_streams(streams, names, half, k, count);
            &&& found.len() == indices.len()
            &&& 0 <= j < found.len() ==> found[j] == Resp::Array(
                Some(
                    seq![
                        Resp::Bulk(Some(encode_utf8(names[indices[j]]))),
                        Resp::Array(
                            Some(
                                range_values(
                                    entries_under(streams, names[indices[j]]),
                                    seq!['('] + names[half + indices[j]],
                                    seq!['+'],
                                    count,
                                ),
                            ),
                        ),
                    ],
                ),
            )
        }),
    decreases k,
{
    reveal(Seq::filter);
    reveal_strlit("(");
    reveal_strlit("+");
    assert("("@ =~= seq!['(']);
    assert("+"@ =~= seq!['+']);
    if k > 0 {
        let all = Seq::new(k, |i: int| i);
        assert(all.drop_last() =~= Seq::new((k - 1) as nat, |i: int| i));
        assert(all.last() == k - 1);
        lemma_news_in_order(streams, names, half, (k - 1) as nat, count, has_news, j);
    }
}

/// `XREAD [COUNT n] STREAMS key... id...` is answered, in the order of the keys,
/// with each key whose stream has entries after the id that stands beside it,
/// and those entries, at most as many as the count states, or all where it
/// states no number; with the null array where no stream has any; and with an
/// error where the word STREAMS is missing. It changes nothing.
pub proof fn law_xread_lists_what_is_new(state: State, command: Resp, j: int)
    requires
        arguments_in(command).len() > 0,
        upper(lossy(arguments_in(command)[0])) == "XREAD"@,
    ensures
        ({
            let given = arguments_in(command);
            let counted = given.len() > 1 && same_but_case(lossy(given[1]), "COUNT"@);
            let at: int = if counted {
                3
            } else {
                1
            };
            let limit = match if counted && given.len() > 2 {
                parse_unsigned(lossy(given[2]), usize::MAX as nat)
            } else {
                None
            } {
                Some(n) => n,
                None => usize::MAX as nat,
            };
            let half = (given.len() - at - 1) / 2;
            let key = |i: int| lossy(given[at + 1 + i]);
            let news = |i: int|
                range_values(
                    entries_under(state.streams, key(i)),
                    seq!['('] + lossy(given[at + 1 + half + i]),
                    seq!['+'],
                    limit,
                );
            let one = answer(state, command);
            let indices = Seq::new(half as nat, |i: int| i).filter(|i: int| news(i).len() > 0);
            &&& one.state == state
            &&& one.added is None
            &&& if !(given.len() > at && same_but_case(lossy(given[at]), "STREAMS"@)) {
                one.reply == Resp::Error("ERR syntax error"@)
            } else if indices.len() == 0 {
                one.reply == Resp::Array(None)
            } else {
                one.reply matches Resp::Array(Some(rows)) && {
                    &&& rows.len() == indices.len()
                    &&& 0 <= j < rows.len() ==> rows[j] == Resp::Array(
                        Some(
                            seq![
                                Resp::Bulk(Some(encode_utf8(key(indices[j])))),
                                Resp::Array(Some(news(indices[j]))),
                            ],
                        ),
                    )
                }
            }
        }),
{
    lemma_verbs_differ();
    let given = arguments_in(command);
    let counted = word_is(given, 1, "COUNT"@);
    let at: int = if counted {
        3
    } else {
        1
    };
    let limit = if counted {
        count_at(given, 2)
    } else {
        usize::MAX as nat
    };
    if given.len() <= 2 {
        crate::numerals::law_no_number_without_digits(Seq::empty(), usize::MAX as nat, 0);
    }
    if word_is(given, at, "STREAMS"@) {
        let names = names_from(given, at + 1);
        let half = (given.len() - at - 1) / 2;
        let key = |i: int| lossy(given[at + 1 + i]);
        let news = |i: int|
            range_values(
                entries_under(state.streams, key(i)),
                seq!['('] + lossy(given[at + 1 + half + i]),
                seq!['+'],
                limit,
            );
        let by_place = |i: int| news(i).len() > 0;
        let by_name = |i: int|
            range_values(
                entries_under(state.streams, names[i]),
                seq!['('] + names[half as nat + i],
                seq!['+'],
                limit,
            ).len() > 0;
        assert(half as nat == names.len() / 2);
        lemma_news_in_order(state.streams, names, half as nat, half as nat, limit, by_name, j);
        let all = Seq::new(half as nat, |i: int| i);
        assert forall|i: int| 0 <= i < half implies #[trigger] by_name(i) == by_place(i) by {
            assert(names[i] == lossy(given[at + 1 + i]));
            assert(names[half + i] == lossy(given[at + 1 + half + i]));
        }
        lemma_same_filter(half as nat, by_name, by_place);
        let indices = all.filter(by_place);
        if 0 <= j < indices.len() {
            let i = indices[j];
            assert(indices.contains(i));
            all.lemma_filter_contains_rev(by_place, i);
            assert(0 <= i < half);
            assert(names[i] == lossy(given[at + 1 + i]));
            assert(names[half + i] == lossy(given[at + 1 + half + i]));
            assert(key(i) == names[i]);
        }
    }
}

/// Properties that agree below a number pick the same numbers below it.
proof fn lemma_same_filter(n: nat, a: spec_fn(int) -> bool, b: spec_fn(int) -> bool)
    requires
        forall|i: int| 0 <= i < n ==> #[trigger] a(i) == b(i),
    ensures
        Seq::new(n, |i: int| i).filter(a) == Seq::new(n, |i: int| i).filter(b),
    decreases n,
{
    reveal(Seq::filter);
    let all = Seq::new(n, |i: int| i);
    if n > 0 {
        lemma_same_filter((n - 1) as nat, a, b);
        assert(all.drop_last() =~= Seq::new((n - 1) as nat, |i: int| i));
        assert(all.last() == n - 1);
        assert(a(n - 1) == b(n - 1));
    }
}

/// A session answers the values that arrive in turn, each with its reply, and
/// stops with the first that appends; where the bytes end it waits, or it is
/// over once the client closed; and what is no value is refused.
pub proof fn law_session_serves_in_turn(state: State, unread: Seq<u8>, closed: bool)
    ensures
        appends(serve(state, unread, closed)) <==> (serve(
            state,
            unread,
            closed,
        ).outcome matches Ok(Progress::Done(Some(_)))),
        ({
            let served = serve(state, unread, closed);
            match parse(unread) {
                Parsed::Value(command, left) => {
                    let one = answer(state, command);
                    match one.added {
                        Some(arrival) => {
                            &&& served.state == one.state
                            &&& served.unread == left
                            &&& served.replies == wire(one.reply)
                            &&& served.outcome == Ok::<_, Fault>(Progress::Done(Some(arrival)))
                            &&& replies_in_turn(state, unread, closed) == seq![one.reply]
                        },
                        None => {
                            let later = serve(one.state, left, closed);
                            &&& served.state == later.state
                            &&& served.unread == later.unread
                            &&& served.replies == wire(one.reply) + later.replies
                            &&& served.outcome == later.outcome
                            &&& replies_in_turn(state, unread, closed) == seq![one.reply]
                                + replies_in_turn(one.state, left, closed)
                        },
                    }
                },
                Parsed::Bad(fault, rest) => {
                    &&& served.state == state
                    &&& served.unread == rest
                    &&& served.replies.len() == 0
                    &&& served.outcome == Err::<Progress<Option<Arrival>>, _>(fault)
                },
                Parsed::Closed => {
                    &&& served.state == state
                    &&& served.unread == unread
                    &&& served.replies.len() == 0
                    &&& closed ==> served.outcome == Ok::<_, Fault>(
                        Progress::Done(None::<Arrival>),
                    )
                    &&& !closed ==> served.outcome == Ok::<_, Fault>(
                        Progress::Waiting::<Option<Arrival>>(Awaited::Line),
                    )
                },
                Parsed::Cut(fault) => {
                    &&& served.state == state
                    &&& served.replies.len() == 0
                    &&& closed ==> served.outcome == Err::<Progress<Option<Arrival>>, _>(fault)
                    &&& !closed ==> served.unread == unread && served.outcome == Ok::<_, Fault>(
                        Progress::Waiting::<Option<Arrival>>(
                            if fault == Fault::ShortBulk {
                                Awaited::Bulk
                            } else {
                                Awaited::Line
                            },
                        ),
                    )
                },
            }
        }),
{
    lemma_parse_takes(unread);
}

/// An outcome of serving stands for what it holds.
pub proof fn law_add_outcome_stands_for_its_parts(
    outcome: Result<Progress<Option<Arrived>>, Error>,
    arrived: Arrived,
)
    ensures
        match outcome {
            Ok(Progress::Done(Some(one))) => add_outcome(outcome) == Ok::<_, Fault>(
                Progress::Done(Some(one@)),
            ),
            Ok(Progress::Done(None)) => add_outcome(outcome) == Ok::<_, Fault>(
                Progress::Done(None::<Arrival>),
            ),
            Ok(Progress::Waiting(awaited)) => add_outcome(outcome) == Ok::<_, Fault>(
                Progress::Waiting::<Option<Arrival>>(awaited),
            ),
            Err(error) => add_outcome(outcome) == Err::<Progress<Option<Arrival>>, _>(error@),
        },
        arrival_of(Some(arrived)) == Some(arrived@),
        arrival_of(None) is None,
        arrived@.origin_uri == arrived.origin_uri@,
        arrived@.bytes == arrived.bytes@,
{
}

} // verus!
