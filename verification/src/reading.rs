//! What a read gives back of what was appended: the entries in the order of
//! their arrival, from a cursor on, nothing twice and nothing left out.

use vstd::prelude::*;

use crate::arrived::Arrival;
use crate::client::{start_after, Listed};
use crate::decimal::{decimal, is_digit, lemma_decimal, lemma_unsigned_round_trip};
use crate::location::{carried, moved, Settings};
use crate::resp::Resp;
use crate::session::{
    adds, answer, arguments_in, entries_under, first, given_id, id_pair, id_parts, is_after,
    pair_less, range_values, selected, text_at, within, State, Stored,
};
use crate::text::lossy;

verus! {

/// An entry as a client lists it: the names of its fields as text.
pub open spec fn as_listed(entry: Stored) -> Listed {
    Listed {
        id: entry.id,
        fields: entry.fields.map_values(
            |field: (Seq<u8>, Seq<u8>)| (lossy(field.0), field.1),
        ),
    }
}

/// Entries as a client lists them.
pub open spec fn all_listed(entries: Seq<Stored>) -> Seq<Listed> {
    entries.map_values(|entry: Stored| as_listed(entry))
}

/// What a read after `cursor` is owed: every later entry, in order.
pub open spec fn entries_after(entries: Seq<Stored>, cursor: Seq<char>) -> Seq<Stored> {
    selected(entries, start_after(cursor), "+"@)
}

/// Whether the ids of a stream never fall from an entry to a later one.
pub open spec fn never_descends(entries: Seq<Stored>) -> bool {
    forall|i: int, j: int|
        0 <= i < j < entries.len() ==> !pair_less(
            id_pair((#[trigger] entries[j]).id),
            id_pair((#[trigger] entries[i]).id),
        )
}

/// Whether every id of a stream comes after `0-0`.
pub open spec fn above_zero(entries: Seq<Stored>) -> bool {
    forall|i: int|
        0 <= i < entries.len() ==> pair_less((0, 0), id_pair((#[trigger] entries[i]).id))
}

/// Whether the ids of a stream rise from each entry to the next, and none is
/// `0-0` or `-`, after which a read would start over.
pub open spec fn in_order(entries: Seq<Stored>) -> bool {
    &&& forall|i: int|
        0 <= i < entries.len() ==> (#[trigger] entries[i]).id != "0-0"@ && entries[i].id != "-"@
    &&& forall|i: int, j: int|
        0 <= i < j < entries.len() ==> pair_less(
            id_pair((#[trigger] entries[i]).id),
            id_pair((#[trigger] entries[j]).id),
        )
}

/// Ids that rise from above `0-0` are in order.
pub proof fn law_rising_ids_are_in_order(entries: Seq<Stored>)
    requires
        above_zero(entries),
        forall|i: int, j: int|
            0 <= i < j < entries.len() ==> pair_less(
                id_pair((#[trigger] entries[i]).id),
                id_pair((#[trigger] entries[j]).id),
            ),
    ensures
        in_order(entries),
{
    lemma_zero_id();
    lemma_dash_id();
}

/// The id that a session gives the entry it numbers `n` reads as `n` and 0, so
/// that given ids order as the entries arrived.
pub proof fn law_given_ids_order(n: nat)
    requires
        n <= u64::MAX,
    ensures
        id_pair(given_id(n)) == (n, 0nat),
{
    let id = given_id(n);
    let digits = decimal(n);
    lemma_decimal(n);
    lemma_unsigned_round_trip(n, u64::MAX as nat);
    lemma_unsigned_round_trip(0, u64::MAX as nat);
    reveal_strlit("-0");
    id.index_of_first_ensures('-');
    assert(id[digits.len() as int] == '-');
    let i = id.index_of_first('-')->0;
    if i < digits.len() {
        assert(is_digit(digits[i]));
    }
    assert(id.take(i) =~= digits);
    assert(id.skip(i + 1) =~= decimal(0));
}

/// A read from `0-0` is owed the whole stream.
pub proof fn law_whole_stream_from_the_beginning(entries: Seq<Stored>)
    ensures
        entries_after(entries, "0-0"@) == entries,
{
    reveal_strlit("-");
    reveal_strlit("+");
    lemma_filter_is_skip(entries, within("-"@, "+"@), 0);
    assert(entries.skip(0) =~= entries);
}

/// A read after an id gives entries with later ids only, and no more of them
/// than it asked for.
pub proof fn law_read_is_later(entries: Seq<Stored>, cursor: Seq<char>, count: nat, i: int)
    requires
        cursor != "0-0"@,
        cursor != "-"@,
        0 <= i < first(entries_after(entries, cursor), count).len(),
    ensures
        first(entries_after(entries, cursor), count).len() <= count,
        pair_less(
            id_pair(cursor),
            id_pair(first(entries_after(entries, cursor), count)[i].id),
        ),
        entries.contains(first(entries_after(entries, cursor), count)[i]),
{
    let start = start_after(cursor);
    let chosen = entries_after(entries, cursor);
    entries.lemma_filter_pred(within(start, "+"@), i);
    entries.lemma_filter_contains_rev(within(start, "+"@), chosen[i]);
    reveal_strlit("(");
    assert(start.skip(1) =~= cursor);
}

/// Where a property holds from an index on and not before it, what has it is
/// what stands from that index on.
proof fn lemma_filter_is_skip(entries: Seq<Stored>, holds: spec_fn(Stored) -> bool, from: int)
    requires
        0 <= from <= entries.len(),
        forall|i: int| 0 <= i < from ==> !holds(#[trigger] entries[i]),
        forall|i: int| from <= i < entries.len() ==> holds(#[trigger] entries[i]),
    ensures
        entries.filter(holds) == entries.skip(from),
    decreases entries.len(),
{
    reveal(Seq::filter);
    if entries.len() > 0 {
        let front = entries.drop_last();
        if from == entries.len() {
            lemma_filter_is_skip(front, holds, from - 1);
            assert(front.skip(from - 1) =~= entries.skip(from));
        } else {
            lemma_filter_is_skip(front, holds, from);
            assert(front.skip(from).push(entries.last()) =~= entries.skip(from));
        }
    } else {
        assert(entries.skip(from) =~= entries);
    }
}

/// Where in a stream whose ids never fall the entries after `cursor` start.
proof fn lemma_first_after(entries: Seq<Stored>, cursor: Seq<char>) -> (from: int)
    requires
        never_descends(entries),
    ensures
        0 <= from <= entries.len(),
        entries_after(entries, cursor) == entries.skip(from),
        forall|i: int|
            0 <= i < from ==> !is_after((#[trigger] entries[i]).id, start_after(cursor)),
        forall|i: int|
            from <= i < entries.len() ==> is_after(
                (#[trigger] entries[i]).id,
                start_after(cursor),
            ),
    decreases entries.len(),
{
    let start = start_after(cursor);
    reveal_strlit("(");
    reveal_strlit("-");
    reveal_strlit("+");
    assert(cursor != "0-0"@ ==> start.skip(1) =~= cursor);
    let from = if entries.len() == 0 {
        0
    } else {
        let front = entries.drop_last();
        let earlier = lemma_first_after(front, cursor);
        let last = entries.len() - 1;
        assert forall|i: int| 0 <= i < earlier implies !is_after(
            (#[trigger] entries[i]).id,
            start,
        ) by {
            assert(front[i] == entries[i]);
        }
        assert forall|i: int| earlier <= i < last implies is_after(
            (#[trigger] entries[i]).id,
            start,
        ) by {
            assert(front[i] == entries[i]);
        }
        if earlier < last {
            assert(is_after(entries[earlier].id, start));
            assert(!pair_less(id_pair(entries[last].id), id_pair(entries[earlier].id)));
            earlier
        } else if is_after(entries[last].id, start) {
            last
        } else {
            last + 1
        }
    };
    lemma_filter_is_skip(entries, within(start, "+"@), from);
    from
}

/// A Location that reads on from its cursor misses nothing and reads nothing
/// twice: what is owed after the cursor has moved is what was owed before,
/// without what was read.
pub proof fn law_cursor_reads_on(entries: Seq<Stored>, cursor: Seq<char>, count: nat)
    requires
        in_order(entries),
    ensures
        ({
            let read = first(entries_after(entries, cursor), count);
            let next = moved(cursor, all_listed(read));
            entries_after(entries, cursor) == read + entries_after(entries, next)
        }),
{
    let owed = entries_after(entries, cursor);
    let read = first(owed, count);
    let next = moved(cursor, all_listed(read));
    let from = lemma_first_after(entries, cursor);
    if read.len() == 0 {
        assert(read + owed =~= owed);
    } else {
        let at = from + read.len() - 1;
        assert(read.last() == entries[at]);
        assert(all_listed(read).last() == as_listed(entries[at]));
        assert(next == entries[at].id);
        reveal_strlit("+");
        reveal_strlit("(");
        assert(start_after(next).skip(1) =~= next);
        assert forall|i: int| 0 <= i < at + 1 implies !within(start_after(next), "+"@)(
            #[trigger] entries[i],
        ) by {
            if i < at {
                assert(pair_less(id_pair(entries[i].id), id_pair(entries[at].id)));
            }
        }
        assert forall|i: int| at + 1 <= i < entries.len() implies within(
            start_after(next),
            "+"@,
        )(#[trigger] entries[i]) by {
            assert(pair_less(id_pair(entries[at].id), id_pair(entries[i].id)));
        }
        lemma_filter_is_skip(entries, within(start_after(next), "+"@), at + 1);
        assert(owed =~= read + entries.skip(at + 1));
    }
}

/// What `k` reads in turn give, joined, and where the cursor then stands.
pub open spec fn read_in_turn(
    entries: Seq<Stored>,
    cursor: Seq<char>,
    count: nat,
    k: nat,
) -> (Seq<Stored>, Seq<char>)
    decreases k,
{
    if k == 0 {
        (Seq::empty(), cursor)
    } else {
        let (before, at) = read_in_turn(entries, cursor, count, (k - 1) as nat);
        let read = first(entries_after(entries, at), count);
        (before + read, moved(at, all_listed(read)))
    }
}

/// Reads in turn give every entry once: what `k` of them give, joined, is the
/// first of what was owed, `count` for each, and the rest stays owed. Once all
/// was read, a read gives nothing and leaves the cursor.
pub proof fn law_reads_in_turn(entries: Seq<Stored>, cursor: Seq<char>, count: nat, k: nat)
    requires
        in_order(entries),
    ensures
        ({
            let owed = entries_after(entries, cursor);
            let (joined, at) = read_in_turn(entries, cursor, count, k);
            let next = first(entries_after(entries, at), count);
            &&& joined == first(owed, count * k)
            &&& joined + entries_after(entries, at) == owed
            &&& owed.len() <= count * k ==> next.len() == 0 && moved(at, all_listed(next)) == at
        }),
    decreases k,
{
    let owed = entries_after(entries, cursor);
    let (joined, at) = read_in_turn(entries, cursor, count, k);
    if k == 0 {
        assert(count * k == 0) by (nonlinear_arith)
            requires
                k == 0,
        ;
        assert(joined =~= first(owed, 0));
        assert(joined + owed =~= owed);
    } else {
        let earlier = (k - 1) as nat;
        law_reads_in_turn(entries, cursor, count, earlier);
        let (before, from) = read_in_turn(entries, cursor, count, earlier);
        let read = first(entries_after(entries, from), count);
        law_cursor_reads_on(entries, from, count);
        assert(count * k == count * earlier + count) by (nonlinear_arith)
            requires
                k == earlier + 1,
        ;
        assert(joined + entries_after(entries, at) =~= before + (read + entries_after(
            entries,
            at,
        )));
        assert(joined =~= first(owed, count * k));
    }
    if owed.len() <= count * k {
        assert(entries_after(entries, at).len() == 0);
    }
}

/// What `k` receives of a Location hand up, joined, and the Location after
/// them, while its server's stream holds these entries.
pub open spec fn received_in_turn(
    settings: Settings,
    entries: Seq<Stored>,
    k: nat,
) -> (Seq<Arrival>, Settings)
    decreases k,
{
    if k == 0 {
        (Seq::empty(), settings)
    } else {
        let (before, at) = received_in_turn(settings, entries, (k - 1) as nat);
        let listed = all_listed(first(entries_after(entries, at.cursor), at.batch as nat));
        (
            before + listed.map_values(|entry: Listed| carried(at, entry)),
            Settings { cursor: moved(at.cursor, listed), ..at },
        )
    }
}

/// A Location that receives in turn hands up every entry of its stream once:
/// what `k` receives give, joined, is what the first entries after its cursor
/// carry, in order, a batch for each receive; once all was handed up, a receive
/// hands up nothing and leaves the cursor.
pub proof fn law_receives_in_turn(settings: Settings, entries: Seq<Stored>, k: nat)
    requires
        in_order(entries),
    ensures
        ({
            let owed = entries_after(entries, settings.cursor);
            let (joined, at) = received_in_turn(settings, entries, k);
            let later = received_in_turn(settings, entries, k + 1);
            &&& joined == all_listed(first(owed, settings.batch as nat * k)).map_values(
                |entry: Listed| carried(settings, entry),
            )
            &&& at == Settings { cursor: at.cursor, ..settings }
            &&& owed.len() <= settings.batch as nat * k ==> later == (joined, at)
        }),
{
    lemma_received_is_read(settings, entries, k);
    lemma_received_is_read(settings, entries, k + 1);
    law_reads_in_turn(entries, settings.cursor, settings.batch as nat, k);
    let owed = entries_after(entries, settings.cursor);
    if owed.len() <= settings.batch as nat * k {
        let (joined, at) = received_in_turn(settings, entries, k);
        let listed = all_listed(first(entries_after(entries, at.cursor), at.batch as nat));
        assert(listed.len() == 0);
        assert(joined + listed.map_values(|entry: Listed| carried(at, entry)) =~= joined);
    }
}

/// A Location that starts at the beginning hands up the first entries of its
/// stream, a batch for each receive.
pub proof fn law_receives_from_the_beginning(settings: Settings, entries: Seq<Stored>, k: nat)
    requires
        in_order(entries),
        settings.cursor == "0-0"@,
    ensures
        received_in_turn(settings, entries, k).0 == all_listed(
            first(entries, settings.batch as nat * k),
        ).map_values(|entry: Listed| carried(settings, entry)),
{
    law_whole_stream_from_the_beginning(entries);
    law_receives_in_turn(settings, entries, k);
}

/// What a Location receives is what its reads give.
proof fn lemma_received_is_read(settings: Settings, entries: Seq<Stored>, k: nat)
    ensures
        ({
            let (joined, at) = received_in_turn(settings, entries, k);
            let (read, cursor) = read_in_turn(entries, settings.cursor, settings.batch as nat, k);
            &&& joined == all_listed(read).map_values(|entry: Listed| carried(settings, entry))
            &&& at == Settings { cursor, ..settings }
        }),
    decreases k,
{
    let (joined, at) = received_in_turn(settings, entries, k);
    let (read, cursor) = read_in_turn(entries, settings.cursor, settings.batch as nat, k);
    if k > 0 {
        lemma_received_is_read(settings, entries, (k - 1) as nat);
    }
    assert(joined =~= all_listed(read).map_values(|entry: Listed| carried(settings, entry)));
}

/// Whether a text is an id `ms-seq`.
pub open spec fn is_id(text: Seq<char>) -> bool {
    id_parts(text) is Some
}

/// An id starts with a digit or a plus sign, and is neither `-` nor `+`.
proof fn lemma_id_start(id: Seq<char>)
    requires
        is_id(id),
    ensures
        id.len() > 0,
        id[0] != '(',
        id != "-"@,
        id != "+"@,
{
    reveal_strlit("-");
    reveal_strlit("+");
    id.index_of_first_ensures('-');
    let i = id.index_of_first('-')->0;
    let ms = id.take(i);
    assert(id[i] == '-');
    assert(ms.len() > 0);
    assert(ms[0] == id[0]);
    assert(ms[0] == '+' || is_digit(ms[0]));
}

/// A read after an id is owed exactly the entries with later ids, in order;
/// after `0-0`, which reads from the beginning, where no id is as low as that.
pub proof fn law_owed_is_later(entries: Seq<Stored>, cursor: Seq<char>)
    requires
        is_id(cursor),
        cursor == "0-0"@ ==> above_zero(entries),
    ensures
        entries_after(entries, cursor) == entries.filter(
            |entry: Stored| pair_less(id_pair(cursor), id_pair(entry.id)),
        ),
{
    let later = |entry: Stored| pair_less(id_pair(cursor), id_pair(entry.id));
    lemma_id_start(cursor);
    reveal_strlit("+");
    reveal_strlit("(");
    if cursor == "0-0"@ {
        lemma_zero_id();
        law_whole_stream_from_the_beginning(entries);
        lemma_filter_is_skip(entries, later, 0);
        assert(entries.skip(0) =~= entries);
    } else {
        assert(start_after(cursor).skip(1) =~= cursor);
        assert(within(start_after(cursor), "+"@) =~= later);
    }
}

/// Reading up to an id and then on after it loses nothing and repeats nothing.
pub proof fn law_range_splits(entries: Seq<Stored>, start: Seq<char>, middle: Seq<char>)
    requires
        never_descends(entries),
        is_id(middle),
        start == "-"@ || (is_id(start) && !pair_less(id_pair(middle), id_pair(start))),
    ensures
        selected(entries, start, middle) + selected(entries, "("@ + middle, "+"@) == selected(
            entries,
            start,
            "+"@,
        ),
    decreases entries.len(),
{
    reveal(Seq::filter);
    reveal_strlit("-");
    reveal_strlit("+");
    reveal_strlit("(");
    lemma_id_start(middle);
    if is_id(start) {
        lemma_id_start(start);
    }
    let after = "("@ + middle;
    assert(after.skip(1) =~= middle);
    if entries.len() == 0 {
        assert(selected(entries, start, middle) + selected(entries, after, "+"@) =~= selected(
            entries,
            start,
            "+"@,
        ));
    } else {
        let front = entries.drop_last();
        let last = entries.len() - 1;
        assert(never_descends(front)) by {
            assert forall|i: int, j: int| 0 <= i < j < front.len() implies !pair_less(
                id_pair((#[trigger] front[j]).id),
                id_pair((#[trigger] front[i]).id),
            ) by {
                assert(front[i] == entries[i] && front[j] == entries[j]);
            }
        }
        law_range_splits(front, start, middle);
        if !pair_less(id_pair(middle), id_pair(entries[last].id)) {
            assert forall|i: int| 0 <= i < front.len() implies !within(after, "+"@)(
                #[trigger] front[i],
            ) by {
                assert(front[i] == entries[i]);
                assert(!pair_less(id_pair(entries[last].id), id_pair(entries[i].id)));
            }
            lemma_filter_is_skip(front, within(after, "+"@), front.len() as int);
            assert(selected(front, after, "+"@).len() == 0);
        }
        assert(selected(entries, start, middle) + selected(entries, after, "+"@) =~= selected(
            entries,
            start,
            "+"@,
        ));
    }
}

/// What is served up to an id, followed by what is served after it, is what is
/// served of the whole range, where the count leaves nothing out.
pub proof fn law_served_range_splits(
    entries: Seq<Stored>,
    start: Seq<char>,
    middle: Seq<char>,
    count: nat,
)
    requires
        never_descends(entries),
        is_id(middle),
        start == "-"@ || (is_id(start) && !pair_less(id_pair(middle), id_pair(start))),
        entries.len() <= count,
    ensures
        range_values(entries, start, middle, count) + range_values(
            entries,
            "("@ + middle,
            "+"@,
            count,
        ) == range_values(entries, start, "+"@, count),
{
    law_range_splits(entries, start, middle);
    entries.lemma_filter_len(within(start, middle));
    entries.lemma_filter_len(within("("@ + middle, "+"@));
    entries.lemma_filter_len(within(start, "+"@));
    assert(range_values(entries, start, middle, count) + range_values(
        entries,
        "("@ + middle,
        "+"@,
        count,
    ) =~= range_values(entries, start, "+"@, count));
}

/// `0-0` reads as 0 and 0.
proof fn lemma_zero_id()
    ensures
        id_pair("0-0"@) == (0nat, 0nat),
{
    law_given_ids_order(0);
    reveal_strlit("0-0");
    reveal_strlit("-0");
    assert(given_id(0) =~= "0-0"@);
}

/// `-` reads as 0 and 0.
proof fn lemma_dash_id()
    ensures
        id_pair("-"@) == (0nat, 0nat),
{
    let id = "-"@;
    reveal_strlit("-");
    id.index_of_first_ensures('-');
    assert(id[0] == '-');
    assert(id.take(0) =~= Seq::<char>::empty());
    assert(id.skip(1) =~= Seq::<char>::empty());
}

/// Whether every stream of a session is in order, and no id is past the number
/// of entries appended.
pub open spec fn numbered(state: State) -> bool {
    forall|key: Seq<char>| #[trigger]
        state.streams.contains_key(key) ==> {
            &&& in_order(state.streams[key])
            &&& forall|i: int|
                0 <= i < state.streams[key].len() ==> id_pair(
                    (#[trigger] state.streams[key][i]).id,
                ).0 <= state.next_id
        }
}

/// A session with no entries is in order.
pub proof fn law_fresh_session_is_numbered(peer: Seq<char>)
    ensures
        numbered(State { peer, streams: Map::empty(), next_id: 0 }),
{
}

/// A session whose clients leave the ids to it keeps every stream in order.
pub proof fn law_given_ids_keep_order(state: State, command: Resp)
    requires
        numbered(state),
        adds(command) ==> state.next_id < u64::MAX && text_at(arguments_in(command), 2) == "*"@,
    ensures
        numbered(answer(state, command).state),
{
    if adds(command) {
        let key = text_at(arguments_in(command), 1);
        let old_entries = entries_under(state.streams, key);
        let after = answer(state, command).state;
        law_given_ids_order(after.next_id as nat);
        lemma_zero_id();
        lemma_dash_id();
        reveal_strlit("XADD");
        reveal_strlit("PING");
        assert("XADD"@[0] != "PING"@[0]);
        assert forall|k: Seq<char>| #[trigger] after.streams.contains_key(k) implies {
            &&& in_order(after.streams[k])
            &&& forall|i: int|
                0 <= i < after.streams[k].len() ==> id_pair((#[trigger] after.streams[k][i]).id).0
                    <= after.next_id
        } by {
            let entries = after.streams[k];
            if k == key {
                assert(state.streams.contains_key(k) ==> in_order(state.streams[k]));
                assert(entries.drop_last() =~= old_entries);
                assert forall|i: int| 0 <= i < entries.len() - 1 implies (#[trigger] entries[i])
                    == old_entries[i] by {}
            } else {
                assert(state.streams.contains_key(k));
            }
        }
    }
}

} // verus!
