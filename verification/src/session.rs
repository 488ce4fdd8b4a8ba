//! The server's side of one connection: what a test puts at the far end, and
//! what a Location that lets a producer XADD straight into it runs.
//!
//! Not Redis. One session serves one client over streams kept in memory:
//! `XADD`, `XLEN`, `XRANGE`, `XREAD` without blocking, `PING`. What is
//! appended is handed up as a Stream; what was appended before is served
//! back. Consumer groups, blocking reads and persistence are a server's.

use vstd::prelude::*;
use vstd::slice::{slice_subrange, slice_to_vec};
use vstd::string::StringExecFns;

use crate::arrived::{origin, origin_text, Arrival, Arrived};
use crate::connection::{next_value, Connection, Progress};
use crate::decimal::{decimal, parse_unsigned, push_decimal, read_unsigned};
use crate::error::{Error, Fault};
use crate::resp::{
    bulk_of, bytes_in, elements_in, lemma_parse_takes, parse, values_of, wire, Parsed, Resp, Taken,
    Value,
};
use crate::text::{
    chars_of, lossy, lossy_text, quoted, quoted_text, same_but_case, same_text, same_text_but_case,
    upper, upper_text,
};

verus! {

/// One entry of a stream, as a mathematical value: its id and its fields.
pub struct Stored {
    pub id: Seq<char>,
    pub fields: Seq<(Seq<u8>, Seq<u8>)>,
}

/// The two numbers of an id `ms-seq`; none where the text is not one.
pub open spec fn id_parts(id: Seq<char>) -> Option<(nat, nat)> {
    match id.index_of_first('-') {
        Some(i) => match (
            parse_unsigned(id.take(i), u64::MAX as nat),
            parse_unsigned(id.skip(i + 1), u64::MAX as nat),
        ) {
            (Some(ms), Some(seq)) => Some((ms, seq)),
            _ => None,
        },
        None => None,
    }
}

/// `ms-seq` as a pair for ordering; `0-0` for anything that is not one.
pub open spec fn id_pair(id: Seq<char>) -> (nat, nat) {
    match id_parts(id) {
        Some(pair) => pair,
        None => (0, 0),
    }
}

/// Whether one pair comes before another.
pub open spec fn pair_less(a: (nat, nat), b: (nat, nat)) -> bool {
    a.0 < b.0 || (a.0 == b.0 && a.1 < b.1)
}

/// Whether `id` lies at or after `start`: any id where that is `-`, a later id
/// than what follows a `(`, and otherwise an id no earlier than `start`.
pub open spec fn is_after(id: Seq<char>, start: Seq<char>) -> bool {
    if start.len() > 0 && start[0] == '(' {
        start.skip(1) == "-"@ || pair_less(id_pair(start.skip(1)), id_pair(id))
    } else {
        start == "-"@ || !pair_less(id_pair(id), id_pair(start))
    }
}

/// Whether `id` lies at or before `end`: any id where that is `+`, an earlier
/// id than the one that follows a `(`, and otherwise an id no later than `end`.
pub open spec fn is_before(id: Seq<char>, end: Seq<char>) -> bool {
    if end.len() > 0 && end[0] == '(' && id_parts(end.skip(1)) is Some {
        pair_less(id_pair(id), id_pair(end.skip(1)))
    } else {
        end == "+"@ || !pair_less(id_pair(end), id_pair(id))
    }
}

/// The entries of a stream that lie within a range.
pub open spec fn selected(entries: Seq<Stored>, start: Seq<char>, end: Seq<char>) -> Seq<Stored> {
    entries.filter(within(start, end))
}

/// Whether an entry lies within a range.
pub open spec fn within(start: Seq<char>, end: Seq<char>) -> spec_fn(Stored) -> bool {
    |entry: Stored| is_after(entry.id, start) && is_before(entry.id, end)
}

/// The first `count` entries, or all where there are no more.
pub open spec fn first(entries: Seq<Stored>, count: nat) -> Seq<Stored> {
    if entries.len() <= count {
        entries
    } else {
        entries.take(count as int)
    }
}

/// The names and values of fields, one after the other, as bulk strings.
pub open spec fn field_values(fields: Seq<(Seq<u8>, Seq<u8>)>) -> Seq<Resp> {
    Seq::new(
        2 * fields.len(),
        |i: int|
            if i % 2 == 0 {
                Resp::Bulk(Some(fields[i / 2].0))
            } else {
                Resp::Bulk(Some(fields[i / 2].1))
            },
    )
}

/// An entry as it is served: its id, and its fields.
pub open spec fn entry_value(entry: Stored) -> Resp {
    Resp::Array(
        Some(seq![bulk_of(entry.id), Resp::Array(Some(field_values(entry.fields)))]),
    )
}

/// Entries as they are served.
pub open spec fn entry_values(entries: Seq<Stored>) -> Seq<Resp> {
    entries.map_values(|entry: Stored| entry_value(entry))
}

/// What a range of a stream is served as, at most `count` entries of it.
pub open spec fn range_values(
    entries: Seq<Stored>,
    start: Seq<char>,
    end: Seq<char>,
    count: nat,
) -> Seq<Resp> {
    entry_values(first(selected(entries, start, end), count))
}

/// `ms-seq` as a pair for ordering; `0-0` for anything that is not one.
pub fn id_of(id: &str) -> (pair: (u64, u64))
    ensures
        (pair.0 as nat, pair.1 as nat) == id_pair(id@),
{
    pair_of(chars_of(id).as_slice())
}

/// The pair that the characters of an id are read as.
fn pair_of(id: &[char]) -> (pair: (u64, u64))
    ensures
        (pair.0 as nat, pair.1 as nat) == id_pair(id@),
{
    match parts_of(id) {
        Some(pair) => pair,
        None => (0, 0),
    }
}

/// The two numbers of an id `ms-seq`; none where the characters are not one.
fn parts_of(id: &[char]) -> (parts: Option<(u64, u64)>)
    ensures
        match (parts, id_parts(id@)) {
            (Some(pair), Some(expected)) => (pair.0 as nat, pair.1 as nat) == expected,
            (None, None) => true,
            _ => false,
        },
{
    let mut i: usize = 0;
    while i < id.len()
        invariant
            i <= id@.len(),
            forall|j: int| 0 <= j < i ==> id@[j] != '-',
        decreases id@.len() - i,
    {
        if id[i] == '-' {
            proof {
                id@.index_of_first_ensures('-');
            }
            let ms = read_unsigned(slice_subrange(id, 0, i), u64::MAX);
            let seq = read_unsigned(slice_subrange(id, i + 1, id.len()), u64::MAX);
            assert(id@.subrange(0, i as int) =~= id@.take(i as int));
            assert(id@.subrange(i + 1, id@.len() as int) =~= id@.skip(i + 1));
            return match (ms, seq) {
                (Some(ms), Some(seq)) => Some((ms, seq)),
                _ => None,
            };
        }
        i = i + 1;
    }
    proof {
        id@.index_of_first_ensures('-');
    }
    None
}

/// Whether one pair comes before another.
fn comes_before(a: (u64, u64), b: (u64, u64)) -> (less: bool)
    ensures
        less == pair_less((a.0 as nat, a.1 as nat), (b.0 as nat, b.1 as nat)),
{
    a.0 < b.0 || (a.0 == b.0 && a.1 < b.1)
}

/// Whether `text` is the one character `c`.
fn is_only(text: &[char], c: char) -> (only: bool)
    ensures
        only == (text@ == seq![c]),
{
    let only = text.len() == 1 && text[0] == c;
    proof {
        if only {
            assert(text@ =~= seq![c]);
        }
    }
    only
}

/// Whether `id` lies at or after `start`, and at or before `end`.
fn is_within(id: &str, start: &[char], end: &[char]) -> (inside: bool)
    ensures
        inside == (is_after(id@, start@) && is_before(id@, end@)),
{
    proof {
        reveal_strlit("-");
        reveal_strlit("+");
        assert("-"@ =~= seq!['-']);
        assert("+"@ =~= seq!['+']);
    }
    let pair = id_of(id);
    let after = if start.len() > 0 && start[0] == '(' {
        let from = slice_subrange(start, 1, start.len());
        assert(from@ =~= start@.skip(1));
        is_only(from, '-') || comes_before(pair_of(from), pair)
    } else {
        is_only(start, '-') || !comes_before(pair, pair_of(start))
    };
    let excluded = if end.len() > 0 && end[0] == '(' {
        let to = slice_subrange(end, 1, end.len());
        assert(to@ =~= end@.skip(1));
        parts_of(to)
    } else {
        None
    };
    let before = match excluded {
        Some(limit) => comes_before(pair, limit),
        None => is_only(end, '+') || !comes_before(pair_of(end), pair),
    };
    after && before
}

/// One entry of a stream.
struct StoredEntry {
    id: String,
    fields: Vec<(Vec<u8>, Vec<u8>)>,
}

/// Fields as mathematical values.
spec fn fields_of(fields: Seq<(Vec<u8>, Vec<u8>)>) -> Seq<(Seq<u8>, Seq<u8>)> {
    fields.map_values(|field: (Vec<u8>, Vec<u8>)| (field.0@, field.1@))
}

impl StoredEntry {
    /// The entry as a mathematical value.
    spec fn model(self) -> Stored {
        Stored { id: self.id@, fields: fields_of(self.fields@) }
    }
}

/// The entries as mathematical values.
spec fn models(entries: Seq<StoredEntry>) -> Seq<Stored> {
    entries.map_values(|entry: StoredEntry| entry.model())
}

/// An entry as it is served.
fn entry(id: &str, fields: &Vec<(Vec<u8>, Vec<u8>)>) -> (value: Value)
    ensures
        value@ == entry_value(Stored { id: id@, fields: fields_of(fields@) }),
{
    let ghost expected = field_values(fields_of(fields@));
    let mut pairs: Vec<Value> = Vec::new();
    for i in 0..fields.len()
        invariant
            pairs@.len() == 2 * i,
            expected == field_values(fields_of(fields@)),
            forall|j: int| 0 <= j < 2 * i ==> (#[trigger] pairs@[j])@ == expected[j],
    {
        pairs.push(Value::Bulk(Some(slice_to_vec(fields[i].0.as_slice()))));
        pairs.push(Value::Bulk(Some(slice_to_vec(fields[i].1.as_slice()))));
    }
    let fields_value = Value::Array(Some(pairs));
    assert(fields_value@->Array_0->0 =~= expected);
    let parts = vec![Value::bulk(id), fields_value];
    let value = Value::Array(Some(parts));
    assert(value@->Array_0->0 =~= seq![bulk_of(id@), Resp::Array(Some(expected))]);
    value
}

/// One entry more: it is served too where it lies within the range and the
/// count is not reached.
proof fn lemma_range_push(
    entries: Seq<Stored>,
    entry: Stored,
    start: Seq<char>,
    end: Seq<char>,
    count: nat,
)
    ensures
        range_values(entries.push(entry), start, end, count) == if is_after(entry.id, start)
            && is_before(entry.id, end) && range_values(entries, start, end, count).len() < count {
            range_values(entries, start, end, count).push(entry_value(entry))
        } else {
            range_values(entries, start, end, count)
        },
{
    entries.lemma_filter_push(entry, within(start, end));
    let before = selected(entries, start, end);
    let after = selected(entries.push(entry), start, end);
    assert(range_values(entries.push(entry), start, end, count) =~= if is_after(entry.id, start)
        && is_before(entry.id, end) && before.len() < count {
        range_values(entries, start, end, count).push(entry_value(entry))
    } else {
        range_values(entries, start, end, count)
    });
}

/// What a range of `entries` is served as, at most `count` of them.
fn serve_range(entries: &[StoredEntry], start: &str, end: &str, count: usize) -> (served: Vec<Value>)
    ensures
        values_of(served@) == range_values(models(entries@), start@, end@, count as nat),
{
    let start_chars = chars_of(start);
    let end_chars = chars_of(end);
    let ghost all = models(entries@);
    let mut served: Vec<Value> = Vec::new();
    proof {
        assert(all.take(0) =~= Seq::<Stored>::empty());
        reveal(Seq::filter);
        assert(values_of(served@) =~= range_values(all.take(0), start@, end@, count as nat));
    }
    for i in 0..entries.len()
        invariant
            start_chars@ == start@,
            end_chars@ == end@,
            all == models(entries@),
            values_of(served@) == range_values(all.take(i as int), start@, end@, count as nat),
    {
        let ghost before = served@;
        proof {
            lemma_range_push(
                all.take(i as int),
                all[i as int],
                start@,
                end@,
                count as nat,
            );
            assert(all.take(i + 1) =~= all.take(i as int).push(all[i as int]));
            assert(values_of(before).len() == before.len());
        }
        if is_within(entries[i].id.as_str(), start_chars.as_slice(), end_chars.as_slice())
            && served.len() < count {
            let value = entry(entries[i].id.as_str(), &entries[i].fields);
            served.push(value);
            assert(values_of(served@) =~= values_of(before).push(value@));
        }
    }
    assert(all.take(entries@.len() as int) =~= all);
    served
}

/// One stream: its key and its entries in the order of their arrival.
struct Stream {
    key: String,
    entries: Vec<StoredEntry>,
}

/// The streams by key. Of two with the same key the later would count.
spec fn by_key(streams: Seq<Stream>) -> Map<Seq<char>, Seq<Stored>>
    decreases streams.len(),
{
    if streams.len() == 0 {
        Map::empty()
    } else {
        by_key(streams.drop_last()).insert(streams.last().key@, models(streams.last().entries@))
    }
}

/// Whether no two streams have the same key.
spec fn distinct_keys(streams: Seq<Stream>) -> bool {
    forall|i: int, j: int|
        0 <= i < j < streams.len() ==> (#[trigger] streams[i]).key@ != (#[trigger] streams[j]).key@
}

/// A key is known where a stream has it, and leads to that stream's entries.
proof fn lemma_by_key(streams: Seq<Stream>, key: Seq<char>)
    requires
        distinct_keys(streams),
    ensures
        by_key(streams).contains_key(key) ==> exists|i: int|
            0 <= i < streams.len() && (#[trigger] streams[i]).key@ == key,
        forall|i: int|
            0 <= i < streams.len() && (#[trigger] streams[i]).key@ == key ==> by_key(
                streams,
            ).contains_key(key) && by_key(streams)[key] == models(streams[i].entries@),
    decreases streams.len(),
{
    if streams.len() > 0 {
        let front = streams.drop_last();
        assert forall|i: int, j: int| 0 <= i < j < front.len() implies (#[trigger] front[i]).key@
            != (#[trigger] front[j]).key@ by {
            assert(front[i] == streams[i] && front[j] == streams[j]);
        }
        lemma_by_key(front, key);
        if by_key(front).contains_key(key) {
            let i = choose|i: int| 0 <= i < front.len() && (#[trigger] front[i]).key@ == key;
            assert(streams[i].key@ == key);
        }
        assert forall|i: int|
            0 <= i < streams.len() && (#[trigger] streams[i]).key@ == key implies by_key(
            streams,
        ).contains_key(key) && by_key(streams)[key] == models(streams[i].entries@) by {
            if i < front.len() {
                assert(front[i] == streams[i]);
                assert(streams[i].key@ != streams[streams.len() - 1].key@);
            }
        }
    }
}

/// A stream that gets other entries changes what its key leads to, and nothing
/// else.
proof fn lemma_by_key_update(streams: Seq<Stream>, at: int, stream: Stream)
    requires
        distinct_keys(streams),
        0 <= at < streams.len(),
        stream.key@ == streams[at].key@,
    ensures
        distinct_keys(streams.update(at, stream)),
        by_key(streams.update(at, stream)) == by_key(streams).insert(
            stream.key@,
            models(stream.entries@),
        ),
    decreases streams.len(),
{
    let updated = streams.update(at, stream);
    assert forall|i: int, j: int| 0 <= i < j < updated.len() implies (#[trigger] updated[i]).key@
        != (#[trigger] updated[j]).key@ by {
        assert(streams[i].key@ != streams[j].key@);
    }
    let front = streams.drop_last();
    let last = streams.len() - 1;
    if at == last {
        assert(updated.drop_last() =~= front);
        assert(by_key(updated) =~= by_key(streams).insert(stream.key@, models(stream.entries@)));
    } else {
        assert forall|i: int, j: int| 0 <= i < j < front.len() implies (#[trigger] front[i]).key@
            != (#[trigger] front[j]).key@ by {
            assert(streams[i].key@ != streams[j].key@);
        }
        lemma_by_key_update(front, at, stream);
        assert(updated.drop_last() =~= front.update(at, stream));
        assert(streams[at].key@ != streams[last].key@);
        assert(by_key(updated) =~= by_key(streams).insert(stream.key@, models(stream.entries@)));
    }
}

/// What a session holds, as a mathematical value.
pub struct State {
    /// The address of the client.
    pub peer: Seq<char>,
    /// The entries of every stream that something was appended to.
    pub streams: Map<Seq<char>, Seq<Stored>>,
    /// How many entries were appended.
    pub next_id: u64,
}

/// One session: the streams that one client appended to.
pub struct Session {
    peer: String,
    streams: Vec<Stream>,
    next_id: u64,
}

impl View for Session {
    type V = State;

    closed spec fn view(&self) -> State {
        State { peer: self.peer@, streams: by_key(self.streams@), next_id: self.next_id }
    }
}

/// The entries under a key; none where nothing was appended under it.
pub open spec fn entries_under(streams: Map<Seq<char>, Seq<Stored>>, key: Seq<char>) -> Seq<
    Stored,
> {
    if streams.contains_key(key) {
        streams[key]
    } else {
        Seq::empty()
    }
}

impl Session {
    /// Whether every stream is kept once.
    pub closed spec fn wf(&self) -> bool {
        distinct_keys(self.streams@)
    }

    /// A session with the client at `peer`, to whose streams nothing was
    /// appended.
    pub fn new(peer: &str) -> (session: Self)
        ensures
            session.wf(),
            session@ == (State { peer: peer@, streams: Map::empty(), next_id: 0 }),
    {
        Session { peer: peer.to_owned(), streams: Vec::new(), next_id: 0 }
    }

    /// Where the stream with this key stands.
    fn find(&self, key: &str) -> (found: Option<usize>)
        requires
            self.wf(),
        ensures
            match found {
                Some(i) => {
                    &&& i < self.streams@.len()
                    &&& self.streams@[i as int].key@ == key@
                    &&& self@.streams.contains_key(key@)
                    &&& self@.streams[key@] == models(self.streams@[i as int].entries@)
                },
                None => {
                    &&& !self@.streams.contains_key(key@)
                    &&& forall|i: int|
                        0 <= i < self.streams@.len() ==> (#[trigger] self.streams@[i]).key@ != key@
                },
            },
    {
        proof {
            lemma_by_key(self.streams@, key@);
        }
        for i in 0..self.streams.len()
            invariant
                forall|j: int| 0 <= j < i ==> (#[trigger] self.streams@[j]).key@ != key@,
                forall|j: int|
                    0 <= j < self.streams@.len() && (#[trigger] self.streams@[j]).key@ == key@
                        ==> by_key(self.streams@).contains_key(key@) && by_key(self.streams@)[key@]
                        == models(self.streams@[j].entries@),
        {
            if same_text(self.streams[i].key.as_str(), key) {
                return Some(i);
            }
        }
        None
    }

    /// The entries under `key` from `start` to `end`: `-`, `+`, an id, or `(id`
    /// for exclusive; at most `count` of them.
    fn range(&self, key: &str, start: &str, end: &str, count: usize) -> (served: Vec<Value>)
        requires
            self.wf(),
        ensures
            values_of(served@) == range_values(
                entries_under(self@.streams, key@),
                start@,
                end@,
                count as nat,
            ),
    {
        match self.find(key) {
            Some(i) => serve_range(self.streams[i].entries.as_slice(), start, end, count),
            None => {
                let none: Vec<StoredEntry> = Vec::new();
                assert(models(none@) =~= Seq::<Stored>::empty());
                serve_range(none.as_slice(), start, end, count)
            },
        }
    }

    /// Appends an entry to the stream under `key`.
    fn append(&mut self, key: &str, entry: StoredEntry)
        requires
            old(self).wf(),
        ensures
            final(self).wf(),
            final(self)@ == (State {
                streams: old(self)@.streams.insert(
                    key@,
                    entries_under(old(self)@.streams, key@).push(entry.model()),
                ),
                ..old(self)@
            }),
    {
        let ghost before = self.streams@;
        let ghost known = by_key(self.streams@);
        match self.find(key) {
            Some(i) => {
                self.streams[i].entries.push(entry);
                proof {
                    let stream = self.streams@[i as int];
                    assert(self.streams@ =~= before.update(i as int, stream));
                    assert(models(stream.entries@) =~= models(before[i as int].entries@).push(
                        entry.model(),
                    ));
                    lemma_by_key_update(before, i as int, stream);
                }
            },
            None => {
                let mut entries: Vec<StoredEntry> = Vec::new();
                entries.push(entry);
                let stream = Stream { key: key.to_owned(), entries };
                self.streams.push(stream);
                proof {
                    assert(self.streams@.drop_last() =~= before);
                    assert(models(stream.entries@) =~= Seq::<Stored>::empty().push(entry.model()));
                }
            },
        }
    }
}

/// The arguments of a command: the bulk strings among the elements of an array,
/// in their order.
pub open spec fn arguments_in(command: Resp) -> Seq<Seq<u8>> {
    match elements_in(command) {
        Some(elements) => elements.filter_map(|element: Resp| bytes_in(element)),
        None => Seq::empty(),
    }
}

/// The text of an argument; empty where there is none.
pub open spec fn text_at(arguments: Seq<Seq<u8>>, i: int) -> Seq<char> {
    if 0 <= i < arguments.len() {
        lossy(arguments[i])
    } else {
        Seq::empty()
    }
}

/// The verb of a command: the first argument in upper case.
pub open spec fn verb_in(arguments: Seq<Seq<u8>>) -> Seq<char> {
    upper(text_at(arguments, 0))
}

/// The count that an argument states; no limit where it states none.
pub open spec fn count_at(arguments: Seq<Seq<u8>>, i: int) -> nat {
    match parse_unsigned(text_at(arguments, i), usize::MAX as nat) {
        Some(n) => n,
        None => usize::MAX as nat,
    }
}

/// The fields of an XADD: names and values by turns, from the fourth argument
/// on.
pub open spec fn fields_in(arguments: Seq<Seq<u8>>) -> Seq<(Seq<u8>, Seq<u8>)> {
    Seq::new(
        ((arguments.len() - 3) / 2) as nat,
        |i: int| (arguments[3 + 2 * i], arguments[4 + 2 * i]),
    )
}

/// The id that a session gives the entry it numbers `n`.
pub open spec fn given_id(n: nat) -> Seq<char> {
    decimal(n) + "-0"@
}

/// What a session answers a command with, what it then holds, and what it
/// hands up.
pub struct Answer {
    pub state: State,
    pub reply: Resp,
    pub added: Option<Arrival>,
}

/// An XADD: the entry is appended under its key, its id is the answer, and the
/// value of its first field is handed up.
pub open spec fn answer_xadd(state: State, arguments: Seq<Seq<u8>>) -> Answer {
    let key = text_at(arguments, 1);
    let next_id = (state.next_id + 1) as u64;
    let id = if text_at(arguments, 2) == "*"@ {
        given_id(next_id as nat)
    } else {
        text_at(arguments, 2)
    };
    let entry = Stored { id, fields: fields_in(arguments) };
    Answer {
        state: State {
            peer: state.peer,
            streams: state.streams.insert(key, entries_under(state.streams, key).push(entry)),
            next_id,
        },
        reply: bulk_of(id),
        added: Some(Arrival { origin_uri: origin(state.peer, key, id), bytes: arguments[4] }),
    }
}

/// What the first `k` of `half` streams are read as, a stream without entries
/// after its id left out. The keys stand first among `names`, then the ids.
pub open spec fn read_streams(
    streams: Map<Seq<char>, Seq<Stored>>,
    names: Seq<Seq<char>>,
    half: nat,
    k: nat,
    count: nat,
) -> Seq<Resp>
    decreases k,
{
    if k == 0 {
        Seq::empty()
    } else {
        let before = read_streams(streams, names, half, (k - 1) as nat, count);
        let key = names[k - 1];
        let found = range_values(
            entries_under(streams, key),
            "("@ + names[half + k - 1],
            "+"@,
            count,
        );
        if found.len() == 0 {
            before
        } else {
            before.push(Resp::Array(Some(seq![bulk_of(key), Resp::Array(Some(found))])))
        }
    }
}

/// Whether an argument is there and is this word, in whatever case.
pub open spec fn word_is(arguments: Seq<Seq<u8>>, i: int, word: Seq<char>) -> bool {
    i < arguments.len() && same_but_case(text_at(arguments, i), word)
}

/// The reply to `XREAD [COUNT n] STREAMS key... id...`.
pub open spec fn answer_xread(
    streams: Map<Seq<char>, Seq<Stored>>,
    arguments: Seq<Seq<u8>>,
) -> Resp {
    let counted = word_is(arguments, 1, "COUNT"@);
    let at: int = if counted {
        3
    } else {
        1
    };
    let count = if counted {
        count_at(arguments, 2)
    } else {
        usize::MAX as nat
    };
    if !word_is(arguments, at, "STREAMS"@) {
        Resp::Error("ERR syntax error"@)
    } else {
        let names = names_from(arguments, at + 1);
        let half = names.len() / 2;
        let found = read_streams(streams, names, half, half, count);
        if found.len() == 0 {
            Resp::Array(None)
        } else {
            Resp::Array(Some(found))
        }
    }
}

/// The texts of the arguments from `at` on.
pub open spec fn names_from(arguments: Seq<Seq<u8>>, at: int) -> Seq<Seq<char>> {
    Seq::new((arguments.len() - at) as nat, |i: int| text_at(arguments, at + i))
}

/// The number of entries under a key, as XLEN states it.
pub open spec fn length_under(streams: Map<Seq<char>, Seq<Stored>>, key: Seq<char>) -> i64 {
    let length = entries_under(streams, key).len();
    if length <= i64::MAX {
        length as i64
    } else {
        0
    }
}

/// Whether a command is an XADD with its key, its id and whole fields.
pub open spec fn adds(command: Resp) -> bool {
    let arguments = arguments_in(command);
    verb_in(arguments) == "XADD"@ && arguments.len() >= 5 && arguments.len() % 2 == 1
}

/// What a session answers a command with. Only XADD changes what it holds, and
/// only XADD hands anything up.
pub open spec fn answer(state: State, command: Resp) -> Answer {
    let arguments = arguments_in(command);
    let verb = verb_in(arguments);
    let unchanged = |reply: Resp| Answer { state, reply, added: None };
    if verb == "PING"@ {
        unchanged(Resp::Simple("PONG"@))
    } else if adds(command) {
        answer_xadd(state, arguments)
    } else if verb == "XLEN"@ {
        unchanged(Resp::Integer(length_under(state.streams, text_at(arguments, 1))))
    } else if verb == "XRANGE"@ && arguments.len() >= 4 {
        unchanged(
            Resp::Array(
                Some(
                    range_values(
                        entries_under(state.streams, text_at(arguments, 1)),
                        text_at(arguments, 2),
                        text_at(arguments, 3),
                        count_at(arguments, 5),
                    ),
                ),
            ),
        )
    } else if verb == "XREAD"@ {
        unchanged(answer_xread(state.streams, arguments))
    } else {
        unchanged(Resp::Error("ERR unknown command "@ + quoted(verb)))
    }
}

/// The arguments as mathematical values.
spec fn bytes_of(arguments: Seq<Vec<u8>>) -> Seq<Seq<u8>> {
    arguments.map_values(|argument: Vec<u8>| argument@)
}

/// The arguments of a command.
fn arguments_of(command: &Value) -> (arguments: Vec<Vec<u8>>)
    ensures
        bytes_of(arguments@) == arguments_in(command@),
{
    let mut arguments: Vec<Vec<u8>> = Vec::new();
    assert(bytes_of(arguments@) =~= Seq::<Seq<u8>>::empty());
    if let Some(elements) = command.as_array() {
        let ghost all = values_of(elements@);
        let ghost pick = |element: Resp| bytes_in(element);
        assert(all.take(0).filter_map(pick) =~= Seq::<Seq<u8>>::empty());
        for i in 0..elements.len()
            invariant
                all == values_of(elements@),
                bytes_of(arguments@) == all.take(i as int).filter_map(pick),
                pick == (|element: Resp| bytes_in(element)),
        {
            let ghost before = arguments@;
            proof {
                all.lemma_filter_map_take_succ(pick, i as int);
            }
            if let Some(bytes) = elements[i].as_bytes() {
                arguments.push(slice_to_vec(bytes));
                assert(bytes_of(arguments@) =~= bytes_of(before) + seq![bytes@]);
            } else {
                assert(bytes_of(arguments@) =~= bytes_of(before) + Seq::<Seq<u8>>::empty());
            }
        }
        assert(all.take(elements@.len() as int) =~= all);
    }
    arguments
}

/// The text of an argument; empty where there is none.
fn argument_text(arguments: &Vec<Vec<u8>>, i: usize) -> (text: String)
    ensures
        text@ == text_at(bytes_of(arguments@), i as int),
{
    if i < arguments.len() {
        lossy_text(arguments[i].as_slice())
    } else {
        String::new()
    }
}

/// The count that an argument states; no limit where it states none.
fn argument_count(arguments: &Vec<Vec<u8>>, i: usize) -> (count: usize)
    ensures
        count as nat == count_at(bytes_of(arguments@), i as int),
{
    let chars = chars_of(argument_text(arguments, i).as_str());
    match read_unsigned(chars.as_slice(), usize::MAX as u64) {
        Some(n) => n as usize,
        None => usize::MAX,
    }
}

/// Whether an argument is there and is this word, in whatever case.
fn argument_is(arguments: &Vec<Vec<u8>>, i: usize, word: &str) -> (is: bool)
    ensures
        is == word_is(bytes_of(arguments@), i as int, word@),
{
    i < arguments.len() && same_text_but_case(argument_text(arguments, i).as_str(), word)
}

/// The fields of an XADD.
fn argument_fields(arguments: &Vec<Vec<u8>>) -> (fields: Vec<(Vec<u8>, Vec<u8>)>)
    requires
        arguments@.len() >= 3,
        arguments@.len() % 2 == 1,
    ensures
        fields_of(fields@) == fields_in(bytes_of(arguments@)),
{
    let mut fields: Vec<(Vec<u8>, Vec<u8>)> = Vec::new();
    let count: usize = (arguments.len() - 3) / 2;
    for i in 0..count
        invariant
            count == (arguments@.len() - 3) / 2,
            arguments@.len() % 2 == 1,
            fields@.len() == i,
            forall|j: int|
                0 <= j < i ==> (#[trigger] fields@[j]).0@ == arguments@[3 + 2 * j]@ && fields@[j].1@
                    == arguments@[4 + 2 * j]@,
    {
        assert(4 + 2 * i < arguments.len());
        let name = slice_to_vec(arguments[3 + 2 * i].as_slice());
        let value = slice_to_vec(arguments[4 + 2 * i].as_slice());
        fields.push((name, value));
    }
    assert(fields_of(fields@) =~= fields_in(bytes_of(arguments@)));
    fields
}

/// Whether a command is an XADD with its key, its id and whole fields.
fn is_add(command: &Value) -> (add: bool)
    ensures
        add == adds(command@),
{
    let arguments = arguments_of(command);
    assert(bytes_of(arguments@).len() == arguments@.len());
    same_text(upper_text(argument_text(&arguments, 0).as_str()).as_str(), "XADD")
        && arguments.len() >= 5 && arguments.len() % 2 == 1
}

/// What an answer hands up, as a mathematical value.
pub open spec fn arrival_of(added: Option<Arrived>) -> Option<Arrival> {
    match added {
        Some(arrived) => Some(arrived@),
        None => None,
    }
}

impl Session {
    /// Whether the session has numbered as many entries as it can.
    pub fn exhausted(&self) -> (exhausted: bool)
        ensures
            exhausted == (self@.next_id == u64::MAX),
    {
        self.next_id == u64::MAX
    }

    /// Whether what has arrived on `connection` can be served: whether there is
    /// a number left for what it appends, if it appends.
    pub fn can_serve(&self, connection: &Connection) -> (can: bool)
        ensures
            can == (appends(serve(self@, connection.unread(), connection.ended()))
                ==> self@.next_id < u64::MAX),
    {
        let ghost unread = connection.unread();
        proof {
            law_appends_where_an_add_stands(self@, unread, connection.ended());
            assert(unread.skip(0) =~= unread);
        }
        if !self.exhausted() {
            return true;
        }
        let mut at: usize = 0;
        loop
            invariant
                unread == connection.unread(),
                at <= unread.len(),
                self@.next_id == u64::MAX,
                holds_an_add(unread) == appends(
                    serve(self@, connection.unread(), connection.ended()),
                ),
                holds_an_add(unread.skip(at as int)) == holds_an_add(unread),
            decreases unread.len() - at,
        {
            proof {
                lemma_parse_takes(unread.skip(at as int));
            }
            match connection.peek(at) {
                Taken::Value(command, next) => {
                    if is_add(&command) {
                        return false;
                    }
                    at = next;
                },
                _ => {
                    return true;
                },
            }
        }
    }

    /// `XREAD [COUNT n] STREAMS key... id...`, answered without blocking.
    fn xread(&self, arguments: &Vec<Vec<u8>>) -> (reply: Value)
        requires
            self.wf(),
        ensures
            reply@ == answer_xread(self@.streams, bytes_of(arguments@)),
    {
        let ghost model = bytes_of(arguments@);
        let mut count: usize = usize::MAX;
        let mut at: usize = 1;
        if argument_is(arguments, 1, "COUNT") {
            count = argument_count(arguments, 2);
            at = 3;
        }
        if !argument_is(arguments, at, "STREAMS") {
            return Value::Error("ERR syntax error".to_owned());
        }
        let ghost names = names_from(model, at + 1);
        let first: usize = at + 1;
        let half: usize = (arguments.len() - first) / 2;
        let mut found: Vec<Value> = Vec::new();
        assert(values_of(found@) =~= Seq::<Resp>::empty());
        for k in 0..half
            invariant
                self.wf(),
                model == bytes_of(arguments@),
                names == names_from(model, first as int),
                first <= arguments@.len(),
                half == names.len() / 2,
                values_of(found@) == read_streams(
                    self@.streams,
                    names,
                    half as nat,
                    k as nat,
                    count as nat,
                ),
        {
            let ghost before = found@;
            assert(first + half + k < arguments.len());
            let key = argument_text(arguments, first + k);
            let id = argument_text(arguments, first + half + k);
            let mut start = String::new();
            start.append("(");
            start.append(id.as_str());
            assert(start@ =~= "("@ + names[half + k]);
            assert(key@ == names[k as int]);
            let entries = self.range(key.as_str(), start.as_str(), "+", count);
            let ghost served = values_of(entries@);
            if entries.len() > 0 {
                let list = Value::Array(Some(entries));
                assert(list@->Array_0->0 =~= served);
                let pair = Value::Array(Some(vec![Value::bulk(key.as_str()), list]));
                assert(pair@->Array_0->0 =~= seq![bulk_of(key@), Resp::Array(Some(served))]);
                found.push(pair);
                assert(values_of(found@) =~= values_of(before).push(pair@));
            }
        }
        assert(values_of(found@).len() == found@.len());
        if found.len() == 0 {
            Value::Array(None)
        } else {
            let reply = Value::Array(Some(found));
            assert(reply@->Array_0->0 =~= values_of(found@));
            reply
        }
    }

    /// An XADD: appends the entry under its key, and answers with its id.
    fn xadd(&mut self, arguments: &Vec<Vec<u8>>) -> (answered: (Value, Arrived))
        requires
            old(self).wf(),
            old(self)@.next_id < u64::MAX,
            arguments@.len() >= 5,
            arguments@.len() % 2 == 1,
        ensures
            final(self).wf(),
            ({
                let expected = answer_xadd(old(self)@, bytes_of(arguments@));
                &&& final(self)@ == expected.state
                &&& answered.0@ == expected.reply
                &&& Some(answered.1@) == expected.added
            }),
    {
        let ghost model = bytes_of(arguments@);
        let key = argument_text(arguments, 1);
        self.next_id = self.next_id + 1;
        let stated = argument_text(arguments, 2);
        let id = if same_text(stated.as_str(), "*") {
            let mut given = String::new();
            push_decimal(&mut given, self.next_id);
            given.append("-0");
            assert(given@ =~= given_id(self.next_id as nat));
            given
        } else {
            stated
        };
        let fields = argument_fields(arguments);
        let body = slice_to_vec(arguments[4].as_slice());
        let origin_uri = origin_text(self.peer.as_str(), key.as_str(), id.as_str());
        let reply = Value::bulk(id.as_str());
        self.append(key.as_str(), StoredEntry { id, fields });
        (reply, Arrived { origin_uri, bytes: body })
    }

    /// Answers one command, and hands up what it appended. The Stream is the
    /// entry's first field value; the origin names the stream and the id. An
    /// error is answered in one line.
    pub fn answer(&mut self, command: &Value) -> (answered: (Value, Option<Arrived>))
        requires
            old(self).wf(),
            adds(command@) ==> old(self)@.next_id < u64::MAX,
        ensures
            final(self).wf(),
            (Answer {
                state: final(self)@,
                reply: answered.0@,
                added: arrival_of(answered.1),
            }) == answer(old(self)@, command@),
            answered.0@ matches Resp::Error(text) ==> !text.contains('\n'),
    {
        proof {
            reveal_strlit("ERR syntax error");
            reveal_strlit("ERR unknown command ");
        }
        let arguments = arguments_of(command);
        let ghost model = bytes_of(arguments@);
        let verb = upper_text(argument_text(&arguments, 0).as_str());
        if same_text(verb.as_str(), "PING") {
            (Value::Simple("PONG".to_owned()), None)
        } else if same_text(verb.as_str(), "XADD") && arguments.len() >= 5 && arguments.len() % 2
            == 1 {
            let (reply, arrived) = self.xadd(&arguments);
            (reply, Some(arrived))
        } else if same_text(verb.as_str(), "XLEN") {
            let length: usize = match self.find(argument_text(&arguments, 1).as_str()) {
                Some(i) => self.streams[i].entries.len(),
                None => 0,
            };
            let stated: i64 = if length as u64 <= i64::MAX as u64 {
                length as i64
            } else {
                0
            };
            (Value::Integer(stated), None)
        } else if same_text(verb.as_str(), "XRANGE") && arguments.len() >= 4 {
            let key = argument_text(&arguments, 1);
            let start = argument_text(&arguments, 2);
            let end = argument_text(&arguments, 3);
            let count: usize = argument_count(&arguments, 5);
            let entries = self.range(key.as_str(), start.as_str(), end.as_str(), count);
            let reply = Value::Array(Some(entries));
            assert(reply@->Array_0->0 =~= values_of(entries@));
            (reply, None)
        } else if same_text(verb.as_str(), "XREAD") {
            (self.xread(&arguments), None)
        } else {
            let mut text = "ERR unknown command ".to_owned();
            let shown = quoted_text(verb.as_str());
            text.append(shown.as_str());
            proof {
                let start = "ERR unknown command "@;
                if text@.contains('\n') {
                    let i = choose|i: int| 0 <= i < text@.len() && text@[i] == '\n';
                    assert(i >= start.len() ==> shown@[i - start.len()] == '\n');
                }
            }
            (Value::Error(text), None)
        }
    }
}

/// What a session does with the bytes that have arrived.
pub struct Served {
    /// What the session then holds.
    pub state: State,
    /// The bytes that stay unread.
    pub unread: Seq<u8>,
    /// The replies, in the order of their commands.
    pub replies: Seq<u8>,
    /// What the call comes to.
    pub outcome: Result<Progress<Option<Arrival>>, Fault>,
}

/// The commands among the bytes that have arrived are answered in turn, up to
/// and with the first that appends. (Every command takes bytes.)
pub open spec fn serve(state: State, unread: Seq<u8>, closed: bool) -> Served
    decreases unread.len(),
{
    match next_value(unread, closed) {
        (Ok(Progress::Done(Some(command))), left) if left.len() < unread.len() => {
            let answered = answer(state, command);
            match answered.added {
                Some(arrival) => Served {
                    state: answered.state,
                    unread: left,
                    replies: wire(answered.reply),
                    outcome: Ok(Progress::Done(Some(arrival))),
                },
                None => {
                    let later = serve(answered.state, left, closed);
                    Served { replies: wire(answered.reply) + later.replies, ..later }
                },
            }
        },
        (Ok(Progress::Waiting(awaited)), left) => Served {
            state,
            unread: left,
            replies: Seq::empty(),
            outcome: Ok(Progress::Waiting(awaited)),
        },
        (Err(fault), left) => Served {
            state,
            unread: left,
            replies: Seq::empty(),
            outcome: Err(fault),
        },
        (_, left) => Served {
            state,
            unread: left,
            replies: Seq::empty(),
            outcome: Ok(Progress::Done(None)),
        },
    }
}

/// Whether an entry is among what is answered.
pub open spec fn appends(served: Served) -> bool {
    served.outcome matches Ok(Progress::Done(Some(_)))
}

/// The replies to the commands among the bytes that have arrived, in their
/// order, up to and with that to the first that appends.
pub open spec fn replies_in_turn(state: State, unread: Seq<u8>, closed: bool) -> Seq<Resp>
    decreases unread.len(),
{
    match next_value(unread, closed) {
        (Ok(Progress::Done(Some(command))), left) if left.len() < unread.len() => {
            let answered = answer(state, command);
            match answered.added {
                Some(_) => seq![answered.reply],
                None => seq![answered.reply] + replies_in_turn(answered.state, left, closed),
            }
        },
        _ => Seq::empty(),
    }
}

/// Whether every error among replies is one line.
pub open spec fn refused_in_one_line(replies: Seq<Resp>) -> bool {
    forall|i: int|
        0 <= i < replies.len() ==> (#[trigger] replies[i] matches Resp::Error(text)
            ==> !text.contains('\n'))
}

/// Whether an XADD stands among the values at the start of these bytes.
pub open spec fn holds_an_add(unread: Seq<u8>) -> bool
    decreases unread.len(),
{
    match parse(unread) {
        Parsed::Value(command, left) if left.len() < unread.len() => adds(command) || holds_an_add(
            left,
        ),
        _ => false,
    }
}

/// An entry is appended exactly where an XADD stands among what has arrived.
pub proof fn law_appends_where_an_add_stands(state: State, unread: Seq<u8>, closed: bool)
    ensures
        appends(serve(state, unread, closed)) == holds_an_add(unread),
    decreases unread.len(),
{
    reveal_strlit("PING");
    reveal_strlit("XADD");
    assert("PING"@[0] != "XADD"@[0]);
    lemma_parse_takes(unread);
    if let Parsed::Value(command, left) = parse(unread) {
        if !adds(command) {
            law_appends_where_an_add_stands(answer(state, command).state, left, closed);
        }
    }
}

/// What an outcome of [`Session::next_add`] stands for.
pub open spec fn add_outcome(outcome: Result<Progress<Option<Arrived>>, Error>) -> Result<
    Progress<Option<Arrival>>,
    Fault,
> {
    match outcome {
        Ok(Progress::Done(added)) => Ok(Progress::Done(arrival_of(added))),
        Ok(Progress::Waiting(awaited)) => Ok(Progress::Waiting(awaited)),
        Err(error) => Err(error@),
    }
}

impl Session {
    /// The next entry the client appends, or `None` when it closed. Reads
    /// and pings are answered on the way, and what is refused is refused in one
    /// line. A session that is [exhausted](Session::exhausted) takes no more
    /// entries; [`can_serve`](Session::can_serve) says whether one has arrived.
    ///
    /// # Errors
    /// Where the client closed inside a command, or sent what is no RESP.
    pub fn next_add(&mut self, connection: &mut Connection) -> (outcome: Result<
        Progress<Option<Arrived>>,
        Error,
    >)
        requires
            old(self).wf(),
            appends(
                serve(old(self)@, old(connection).unread(), old(connection).ended()),
            ) ==> old(self)@.next_id < u64::MAX,
        ensures
            final(self).wf(),
            ({
                let served = serve(old(self)@, old(connection).unread(), old(connection).ended());
                &&& final(self)@ == served.state
                &&& final(connection).unread() == served.unread
                &&& final(connection).unsent() == old(connection).unsent() + served.replies
                &&& add_outcome(outcome) == served.outcome
            }),
            final(connection).ended() == old(connection).ended(),
            refused_in_one_line(
                replies_in_turn(old(self)@, old(connection).unread(), old(connection).ended()),
            ),
    {
        let ghost closed = connection.ended();
        let ghost whole = serve(self@, connection.unread(), closed);
        let ghost unsent = connection.unsent();
        let ghost mut replies: Seq<u8> = Seq::empty();
        let ghost all_said = replies_in_turn(self@, connection.unread(), closed);
        let ghost mut said: Seq<Resp> = Seq::empty();
        assert(said + all_said =~= all_said);
        assert(connection.unsent() =~= unsent + replies);
        assert(replies + whole.replies =~= whole.replies);
        loop
            invariant
                self.wf(),
                appends(whole) ==> self@.next_id < u64::MAX,
                closed == old(connection).ended(),
                unsent == old(connection).unsent(),
                whole == serve(old(self)@, old(connection).unread(), closed),
                connection.ended() == closed,
                connection.unsent() == unsent + replies,
                all_said == replies_in_turn(old(self)@, old(connection).unread(), closed),
                all_said == said + replies_in_turn(self@, connection.unread(), closed),
                refused_in_one_line(said),
                ({
                    let later = serve(self@, connection.unread(), closed);
                    whole == Served { replies: replies + later.replies, ..later }
                }),
            decreases connection.unread().len(),
        {
            let ghost unread = connection.unread();
            let ghost later = serve(self@, unread, closed);
            proof {
                lemma_parse_takes(unread);
            }
            let command = match connection.next() {
                Err(error) => {
                    assert(replies + later.replies =~= replies);
                    return Err(error);
                },
                Ok(Progress::Waiting(awaited)) => {
                    assert(replies + later.replies =~= replies);
                    return Ok(Progress::Waiting(awaited));
                },
                Ok(Progress::Done(None)) => {
                    assert(replies + later.replies =~= replies);
                    return Ok(Progress::Done(None));
                },
                Ok(Progress::Done(Some(command))) => command,
            };
            proof {
                reveal_strlit("PING");
                reveal_strlit("XADD");
                assert("PING"@[0] != "XADD"@[0]);
            }
            let (reply, added) = self.answer(&command);
            connection.send(&reply);
            proof {
                let left = connection.unread();
                let more = if added is Some {
                    Seq::empty()
                } else {
                    replies_in_turn(self@, left, closed)
                };
                assert(all_said =~= said.push(reply@) + more);
                said = said.push(reply@);
            }
            if let Some(arrived) = added {
                assert(unsent + (replies + later.replies) =~= unsent + replies + wire(reply@));
                return Ok(Progress::Done(Some(arrived)));
            }
            proof {
                let rest = serve(self@, connection.unread(), closed);
                assert(replies + later.replies =~= replies + wire(reply@) + rest.replies);
                replies = replies + wire(reply@);
                assert(connection.unsent() =~= unsent + replies);
            }
        }
    }
}

} // verus!
