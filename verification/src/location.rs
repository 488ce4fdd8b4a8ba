//! The two ends of a Location: what it reads, what it appends, and the cursor
//! between one read and the next.

use std::time::Duration;

use vstd::prelude::*;
use vstd::slice::slice_to_vec;

use crate::arrived::{origin, origin_text, Arrival, Arrived};
use crate::client::{
    add_arguments, entries_of, field_value, range_arguments, Client, Entry, Listed,
};
use crate::error::{Error, Fault};
use crate::resp::{command_of, wire};

verus! {

/// How many entries one receive asks for.
pub const BATCH: usize = 100;

/// A Redis server, one of its streams, and how far that has been read.
pub struct RedisStreamsTransport {
    server: String,
    stream: String,
    field: String,
    batch: usize,
    cursor: String,
    timeout: Option<Duration>,
}

/// A [`RedisStreamsTransport`] as a mathematical value.
pub struct Settings {
    /// The address of the server.
    pub server: Seq<char>,
    /// The key of the stream.
    pub stream: Seq<char>,
    /// The field that carries the Stream.
    pub field: Seq<char>,
    /// How many entries one receive asks for.
    pub batch: usize,
    /// The id that the next receive reads after.
    pub cursor: Seq<char>,
    /// How long a read may take.
    pub timeout: Option<Duration>,
}

impl View for RedisStreamsTransport {
    type V = Settings;

    closed spec fn view(&self) -> Settings {
        Settings {
            server: self.server@,
            stream: self.stream@,
            field: self.field@,
            batch: self.batch,
            cursor: self.cursor@,
            timeout: self.timeout,
        }
    }
}

/// The Stream that an entry carries: the value of the configured field, empty
/// where the entry lacks it, and the URI of the entry.
pub open spec fn carried(settings: Settings, entry: Listed) -> Arrival {
    Arrival {
        origin_uri: origin(settings.server, settings.stream, entry.id),
        bytes: match field_value(entry.fields, settings.field) {
            Some(bytes) => bytes,
            None => Seq::empty(),
        },
    }
}

/// The cursor after entries were read: the id of the last of them.
pub open spec fn moved(cursor: Seq<char>, entries: Seq<Listed>) -> Seq<char> {
    if entries.len() == 0 {
        cursor
    } else {
        entries.last().id
    }
}

/// Streams as mathematical values.
pub open spec fn arrivals_of(arrived: Seq<Arrived>) -> Seq<Arrival> {
    arrived.map_values(|one: Arrived| one@)
}

impl Clone for RedisStreamsTransport {
    /// The same server, stream and field, and the cursor as it stands now
    /// - a copy reads on from where this one has got to, not from the
    /// beginning.
    fn clone(&self) -> (copy: Self)
        ensures
            copy@ == self@,
    {
        RedisStreamsTransport {
            server: self.server.clone(),
            stream: self.stream.clone(),
            field: self.field.clone(),
            batch: self.batch,
            cursor: self.cursor.clone(),
            timeout: self.timeout,
        }
    }
}

impl RedisStreamsTransport {
    /// Speaks to the server at `server` about the stream `stream`, reading
    /// from its beginning.
    #[must_use]
    pub fn new(server: &str, stream: &str) -> (transport: Self)
        ensures
            transport@ == (Settings {
                server: server@,
                stream: stream@,
                field: "body"@,
                batch: 100,
                cursor: "0-0"@,
                timeout: None,
            }),
    {
        RedisStreamsTransport {
            server: server.to_owned(),
            stream: stream.to_owned(),
            field: "body".to_owned(),
            batch: BATCH,
            cursor: "0-0".to_owned(),
            timeout: None,
        }
    }

    /// Carries the Stream in this field rather than `body`.
    #[must_use]
    pub fn in_field(self, field: &str) -> (transport: Self)
        ensures
            transport@ == (Settings { field: field@, ..self@ }),
    {
        let mut transport = self;
        transport.field = field.to_owned();
        transport
    }

    /// Starts reading after this id rather than from the beginning.
    #[must_use]
    pub fn after(self, id: &str) -> (transport: Self)
        ensures
            transport@ == (Settings { cursor: id@, ..self@ }),
    {
        let mut transport = self;
        transport.cursor = id.to_owned();
        transport
    }

    /// Gives up on a server that stops mid-reply.
    #[must_use]
    pub fn timing_out_after(self, timeout: Duration) -> (transport: Self)
        ensures
            transport@ == (Settings { timeout: Some(timeout), ..self@ }),
    {
        let mut transport = self;
        transport.timeout = Some(timeout);
        transport
    }

    /// Both ends on this machine: an ephemeral local address, the stream
    /// `probe`, this timeout on every read.
    #[must_use]
    pub fn loopback(timeout: Duration) -> (transport: Self)
        ensures
            transport@ == (Settings {
                server: "127.0.0.1:0"@,
                stream: "probe"@,
                field: "body"@,
                batch: 100,
                cursor: "0-0"@,
                timeout: Some(timeout),
            }),
    {
        RedisStreamsTransport::new("127.0.0.1:0", "probe").timing_out_after(timeout)
    }

    /// The same stream and field at another address, to be read from the
    /// beginning, with this timeout on every read.
    #[must_use]
    pub fn toward(&self, address: &str, timeout: Duration) -> (transport: Self)
        ensures
            transport@ == (Settings {
                server: address@,
                stream: self@.stream,
                field: self@.field,
                batch: 100,
                cursor: "0-0"@,
                timeout: Some(timeout),
            }),
    {
        RedisStreamsTransport::new(address, self.stream.as_str()).in_field(
            self.field.as_str(),
        ).timing_out_after(timeout)
    }

    /// What this transport is called.
    #[must_use]
    pub fn name(&self) -> (name: &'static str)
        ensures
            name@ == "redis-streams"@,
    {
        "redis-streams"
    }

    /// The address of the server.
    #[must_use]
    pub fn server(&self) -> (server: &str)
        ensures
            server@ == self@.server,
    {
        self.server.as_str()
    }

    /// The key of the stream.
    #[must_use]
    pub fn stream(&self) -> (stream: &str)
        ensures
            stream@ == self@.stream,
    {
        self.stream.as_str()
    }

    /// How long a read may take.
    #[must_use]
    pub fn timeout(&self) -> (timeout: Option<Duration>)
        ensures
            timeout == self@.timeout,
    {
        self.timeout
    }

    /// The id the next receive reads after.
    #[must_use]
    pub fn cursor(&self) -> (cursor: String)
        ensures
            cursor@ == self@.cursor,
    {
        self.cursor.clone()
    }

    /// Where a target leads that names a server and a stream of its own -
    /// `redis://host:6379/orders`, given as `named` - or is a stream alone on
    /// this transport's server.
    #[must_use]
    pub fn resolve<'a>(&'a self, target: &'a str, named: Option<(&'a str, &'a str)>) -> (place: (
        &'a str,
        &'a str,
    ))
        ensures
            (place.0@, place.1@) == (match named {
                Some((peer, stream)) => if stream@.len() == 0 {
                    (peer@, self@.stream)
                } else {
                    (peer@, stream@)
                },
                None => (self@.server, target@),
            }),
    {
        match named {
            Some((peer, stream)) => if stream.is_empty() {
                (peer, self.stream.as_str())
            } else {
                (peer, stream)
            },
            None => (self.server.as_str(), target),
        }
    }

    /// Asks the server for the entries after the cursor.
    pub fn ask(&self, client: &mut Client)
        ensures
            final(client).connection.unread() == old(client).connection.unread(),
            final(client).connection.ended() == old(client).connection.ended(),
            final(client).connection.unsent() == old(client).connection.unsent() + wire(
                command_of(range_arguments(self@.stream, self@.cursor, self@.batch as nat)),
            ),
    {
        client.read_after(self.stream.as_str(), self.cursor.as_str(), self.batch);
    }

    /// The Streams that the entries carry, the cursor moved to the last of
    /// them.
    pub fn receive(&mut self, entries: Vec<Entry>) -> (arrived: Vec<Arrived>)
        ensures
            arrivals_of(arrived@) == entries_of(entries@).map_values(
                |entry: Listed| carried(old(self)@, entry),
            ),
            final(self)@ == (Settings {
                cursor: moved(old(self)@.cursor, entries_of(entries@)),
                ..old(self)@
            }),
    {
        let ghost before = self@;
        let ghost listed = entries_of(entries@);
        let mut arrived: Vec<Arrived> = Vec::new();
        for i in 0..entries.len()
            invariant
                listed == entries_of(entries@),
                before == old(self)@,
                arrived@.len() == i,
                forall|j: int| 0 <= j < i ==> (#[trigger] arrived@[j])@ == carried(before, listed[j]),
                self@ == (Settings {
                    cursor: moved(before.cursor, listed.take(i as int)),
                    ..before
                }),
        {
            assert(listed[i as int] == entries@[i as int]@);
            assert(listed.take(i + 1).last() == listed[i as int]);
            let origin_uri = origin_text(
                self.server.as_str(),
                self.stream.as_str(),
                entries[i].id.as_str(),
            );
            let bytes = match entries[i].field(self.field.as_str()) {
                Some(bytes) => slice_to_vec(bytes),
                None => Vec::new(),
            };
            arrived.push(Arrived { origin_uri, bytes });
            self.cursor = entries[i].id.clone();
            proof {
                let one = arrived@[i as int];
                assert(one@.bytes =~= carried(before, listed[i as int]).bytes);
            }
        }
        assert(listed.take(entries@.len() as int) =~= listed);
        assert(arrivals_of(arrived@) =~= listed.map_values(|entry: Listed| carried(before, entry)));
        arrived
    }

    /// Appends `bytes` to `stream`, in the configured field.
    pub fn send(&self, client: &mut Client, stream: &str, bytes: &[u8])
        ensures
            final(client).connection.unread() == old(client).connection.unread(),
            final(client).connection.ended() == old(client).connection.ended(),
            final(client).connection.unsent() == old(client).connection.unsent() + wire(
                command_of(add_arguments(stream@, seq![(self@.field, bytes@)])),
            ),
    {
        let fields: Vec<(&str, &[u8])> = vec![(self.field.as_str(), bytes)];
        assert(fields@.map_values(|field: (&str, &[u8])| (field.0@, field.1@)) =~= seq![
            (self@.field, bytes@),
        ]);
        client.add(stream, fields.as_slice());
    }

    /// The one Stream a client was to append.
    ///
    /// # Errors
    /// Where the client closed without appending.
    pub fn take_one(taken: Option<Arrived>) -> (one: Result<Arrived, Error>)
        ensures
            match (taken, one) {
                (Some(arrived), Ok(handed)) => handed == arrived,
                (None, Err(error)) => error@ == Fault::NothingAppended,
                _ => false,
            },
    {
        match taken {
            Some(arrived) => Ok(arrived),
            None => Err(Error::NothingAppended),
        }
    }
}

} // verus!
