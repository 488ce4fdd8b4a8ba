//! Ids and ranges by their numbers: what an id reads as, which of two comes
//! first, and which entries lie within a range.

use vstd::prelude::*;
use vstd::utf8::encode_utf8;

use crate::decimal::{
    decimal, is_digit, lemma_decimal, lemma_unsigned_round_trip, parse_unsigned,
};
use crate::resp::Resp;
use crate::session::{
    entry_value, entry_values, first, given_id, id_pair, id_parts, is_after, is_before, pair_less,
    range_values, selected, within, Stored,
};

verus! {

/// A text with a dash is an id where what stands before the first dash and what
/// stands after it are both numbers of 64 bits, and reads as those two; any
/// other reads as 0 and 0.
pub proof fn law_id_is_two_numbers(before: Seq<char>, after: Seq<char>)
    requires
        !before.contains('-'),
    ensures
        ({
            let id = before + seq!['-'] + after;
            let ms = parse_unsigned(before, 0xffff_ffff_ffff_ffff);
            let seq = parse_unsigned(after, 0xffff_ffff_ffff_ffff);
            if ms is Some && seq is Some {
                &&& id_parts(id) == Some((ms->0, seq->0))
                &&& id_pair(id) == (ms->0, seq->0)
            } else {
                &&& id_parts(id) is None
                &&& id_pair(id) == (0nat, 0nat)
            }
        }),
{
    let id = before + seq!['-'] + after;
    id.index_of_first_ensures('-');
    assert(id[before.len() as int] == '-');
    let i = id.index_of_first('-')->0;
    if i < before.len() {
        assert(before[i] == '-');
        assert(before.contains('-'));
    }
    assert(id.take(i) =~= before);
    assert(id.skip(i + 1) =~= after);
}

/// A text without a dash is no id, and reads as 0 and 0.
pub proof fn law_no_id_without_a_dash(text: Seq<char>)
    requires
        !text.contains('-'),
    ensures
        id_parts(text) is None,
        id_pair(text) == (0nat, 0nat),
{
    text.index_of_first_ensures('-');
}

/// An id of two numbers of 64 bits reads as those two numbers.
pub proof fn law_id_reads_as_its_numbers(ms: nat, seq: nat)
    requires
        ms <= 0xffff_ffff_ffff_ffff,
        seq <= 0xffff_ffff_ffff_ffff,
    ensures
        id_parts(decimal(ms) + seq!['-'] + decimal(seq)) == Some((ms, seq)),
        id_pair(decimal(ms) + seq!['-'] + decimal(seq)) == (ms, seq),
{
    let before = decimal(ms);
    lemma_decimal(ms);
    if before.contains('-') {
        let i = choose|i: int| 0 <= i < before.len() && before[i] == '-';
        assert(is_digit(before[i]));
    }
    lemma_unsigned_round_trip(ms, u64::MAX as nat);
    lemma_unsigned_round_trip(seq, u64::MAX as nat);
    law_id_is_two_numbers(before, decimal(seq));
}

/// The id that a session gives is the number of the entry and 0.
pub proof fn law_given_id_is_the_number_and_zero(n: nat)
    ensures
        given_id(n) == decimal(n) + seq!['-', '0'],
{
    reveal_strlit("-0");
    assert("-0"@ =~= seq!['-', '0']);
}

/// Of two ids, one is read after the other exactly where its first number is
/// greater, or that is the same and its second number is greater; and it lies at
/// or before the other exactly where it is not.
pub proof fn law_ids_order_by_their_numbers(ms_a: nat, seq_a: nat, ms_b: nat, seq_b: nat)
    requires
        ms_a <= 0xffff_ffff_ffff_ffff,
        seq_a <= 0xffff_ffff_ffff_ffff,
        ms_b <= 0xffff_ffff_ffff_ffff,
        seq_b <= 0xffff_ffff_ffff_ffff,
    ensures
        ({
            let a = decimal(ms_a) + seq!['-'] + decimal(seq_a);
            let b = decimal(ms_b) + seq!['-'] + decimal(seq_b);
            let later = ms_a < ms_b || (ms_a == ms_b && seq_a < seq_b);
            let same = ms_a == ms_b && seq_a == seq_b;
            &&& is_after(b, seq!['('] + a) <==> later
            &&& is_after(b, a) <==> later || same
            &&& is_before(a, seq!['('] + b) <==> later
            &&& is_before(a, b) <==> later || same
        }),
{
    let a = decimal(ms_a) + seq!['-'] + decimal(seq_a);
    let b = decimal(ms_b) + seq!['-'] + decimal(seq_b);
    law_id_reads_as_its_numbers(ms_a, seq_a);
    law_id_reads_as_its_numbers(ms_b, seq_b);
    lemma_decimal(ms_a);
    lemma_decimal(ms_b);
    assert(is_digit(decimal(ms_a)[0]));
    assert(is_digit(decimal(ms_b)[0]));
    assert(a[0] == decimal(ms_a)[0]);
    assert(b[0] == decimal(ms_b)[0]);
    reveal_strlit("-");
    reveal_strlit("+");
    assert((seq!['('] + a).skip(1) =~= a);
    assert((seq!['('] + b).skip(1) =~= b);
    assert(a.len() > 1 && b.len() > 1);
}

/// Where a range starts: at every id for `-`, exclusive or not; after the id
/// that follows a `(`; and at any other text inclusively.
pub proof fn law_start_of_a_range(id: Seq<char>, start: Seq<char>)
    ensures
        is_after(id, seq!['-']),
        is_after(id, seq!['(', '-']),
        start != seq!['-'] ==> (is_after(id, seq!['('] + start) <==> id_pair(start).0 < id_pair(
            id,
        ).0 || (id_pair(start).0 == id_pair(id).0 && id_pair(start).1 < id_pair(id).1)),
        start != seq!['-'] && (start.len() == 0 || start[0] != '(') ==> (is_after(id, start)
            <==> id_pair(start).0 < id_pair(id).0 || (id_pair(start).0 == id_pair(id).0 && id_pair(
            start,
        ).1 <= id_pair(id).1)),
{
    reveal_strlit("-");
    assert("-"@ =~= seq!['-']);
    assert(seq!['(', '-'].skip(1) =~= seq!['-']);
    assert((seq!['('] + start).skip(1) =~= start);
}

/// Where a range ends: at every id for `+`; before the id that follows a `(`; and
/// at any other text inclusively.
pub proof fn law_end_of_a_range(id: Seq<char>, end: Seq<char>)
    ensures
        is_before(id, seq!['+']),
        id_parts(end) is Some ==> (is_before(id, seq!['('] + end) <==> id_pair(id).0 < id_pair(
            end,
        ).0 || (id_pair(id).0 == id_pair(end).0 && id_pair(id).1 < id_pair(end).1)),
        id_parts(end) is None ==> (is_before(id, seq!['('] + end) <==> id_pair(id) == (0nat, 0nat)),
        end != seq!['+'] && (end.len() == 0 || end[0] != '(') ==> (is_before(id, end) <==> id_pair(
            id,
        ).0 < id_pair(end).0 || (id_pair(id).0 == id_pair(end).0 && id_pair(id).1 <= id_pair(
            end,
        ).1)),
{
    reveal_strlit("+");
    assert("+"@ =~= seq!['+']);
    let open = seq!['('] + end;
    assert(open.skip(1) =~= end);
    assert(open[0] == '(' && "+"@[0] == '+');
    // What starts with a bracket is no id itself.
    open.index_of_first_ensures('-');
    if let Some(i) = open.index_of_first('-') {
        assert(open.take(i)[0] == '(');
        assert(!is_digit('('));
    }
}

/// Of two pairs the one with the lesser first number comes first, and of two
/// with the same, the one with the lesser second.
pub proof fn law_pairs_order(a: (nat, nat), b: (nat, nat))
    ensures
        pair_less(a, b) <==> a.0 < b.0 || (a.0 == b.0 && a.1 < b.1),
{
}

/// A range of a stream holds the entries that lie at or after its start and at
/// or before its end, each as often as it stands in the stream and in the same
/// order.
pub proof fn law_range_holds_what_lies_within(
    entries: Seq<Stored>,
    more: Seq<Stored>,
    entry: Stored,
    start: Seq<char>,
    end: Seq<char>,
)
    ensures
        selected(Seq::empty(), start, end).len() == 0,
        is_after(entry.id, start) && is_before(entry.id, end) ==> selected(
            entries + seq![entry] + more,
            start,
            end,
        ) == selected(entries, start, end) + seq![entry] + selected(more, start, end),
        !(is_after(entry.id, start) && is_before(entry.id, end)) ==> selected(
            entries + seq![entry] + more,
            start,
            end,
        ) == selected(entries, start, end) + selected(more, start, end),
{
    reveal(Seq::filter);
    let inside = within(start, end);
    let one = seq![entry];
    Seq::filter_distributes_over_add(entries + one, more, inside);
    Seq::filter_distributes_over_add(entries, one, inside);
    assert(one.drop_last() =~= Seq::<Stored>::empty());
    assert(one.drop_last().filter(inside) =~= Seq::<Stored>::empty());
    if inside(entry) {
        assert(one.filter(inside) =~= one);
    } else {
        assert(one.filter(inside) =~= Seq::<Stored>::empty());
        assert(selected(entries, start, end) + Seq::<Stored>::empty() =~= selected(
            entries,
            start,
            end,
        ));
    }
}

/// The first of some entries are as many as were asked for, or all, each in its
/// place.
pub proof fn law_first_entries_keep_their_place(entries: Seq<Stored>, count: nat, i: int)
    ensures
        first(entries, count).len() == if count < entries.len() {
            count
        } else {
            entries.len()
        },
        0 <= i < first(entries, count).len() ==> first(entries, count)[i] == entries[i],
{
}

/// An entry is served as its id and its fields, names and values by turns.
pub proof fn law_entry_is_served_whole(entry: Stored, k: int)
    ensures
        entry_value(entry) matches Resp::Array(Some(parts)) && {
            &&& parts.len() == 2
            &&& parts[0] == Resp::Bulk(Some(encode_utf8(entry.id)))
            &&& parts[1] matches Resp::Array(Some(flat)) && {
                &&& flat.len() == 2 * entry.fields.len()
                &&& 0 <= k < entry.fields.len() ==> flat[2 * k] == Resp::Bulk(
                    Some(entry.fields[k].0),
                ) && flat[2 * k + 1] == Resp::Bulk(Some(entry.fields[k].1))
            }
        },
{
}

/// A range is served entry by entry: as many as lie within it, up to the count.
pub proof fn law_range_is_served_in_order(
    entries: Seq<Stored>,
    start: Seq<char>,
    end: Seq<char>,
    count: nat,
    i: int,
)
    ensures
        ({
            let chosen = selected(entries, start, end);
            let served = range_values(entries, start, end, count);
            &&& served.len() == if count < chosen.len() {
                count
            } else {
                chosen.len()
            }
            &&& 0 <= i < served.len() ==> served[i] == entry_value(chosen[i])
        }),
        entry_values(entries).len() == entries.len(),
        0 <= i < entries.len() ==> entry_values(entries)[i] == entry_value(entries[i]),
{
}

} // verus!
