//! One connection's bytes, both ways, without the socket: what has arrived and
//! is still to be read, and what is still to be sent.

use vstd::prelude::*;

use crate::error::{Error, Fault};
use crate::framing::writable;
use crate::resp::{parse, push_bytes, take, wire, Parsed, Resp, Taken, Value};

verus! {

/// What a connection waits for.
#[derive(Clone, Copy, Debug, PartialEq, Eq, Structural)]
pub enum Awaited {
    /// The rest of a line, or a line.
    Line,
    /// The rest of a bulk string.
    Bulk,
}

/// How far the bytes that have arrived lead.
#[derive(Debug)]
pub enum Progress<T> {
    /// To this.
    Done(T),
    /// Not far enough: more bytes have to arrive.
    Waiting(Awaited),
}

/// One connection's bytes.
pub struct Connection {
    incoming: Vec<u8>,
    closed: bool,
    outgoing: Vec<u8>,
}

/// The next value of a connection: the value, `None` where the peer closed
/// between values, or a refusal; and the bytes that stay unread. While the
/// peer has not closed, bytes that end inside a value wait for the rest.
pub open spec fn next_value(unread: Seq<u8>, closed: bool) -> (
    Result<Progress<Option<Resp>>, Fault>,
    Seq<u8>,
) {
    match parse(unread) {
        Parsed::Closed => if closed {
            (Ok(Progress::Done(None)), unread)
        } else {
            (Ok(Progress::Waiting(Awaited::Line)), unread)
        },
        Parsed::Value(value, rest) => (Ok(Progress::Done(Some(value))), rest),
        Parsed::Cut(fault) => if closed {
            (Err(fault), Seq::empty())
        } else if fault is ShortBulk {
            (Ok(Progress::Waiting(Awaited::Bulk)), unread)
        } else {
            (Ok(Progress::Waiting(Awaited::Line)), unread)
        },
        Parsed::Bad(fault, rest) => (Err(fault), rest),
    }
}

/// What an outcome of [`Connection::next`] stands for.
pub open spec fn value_outcome(outcome: Result<Progress<Option<Value>>, Error>) -> Result<
    Progress<Option<Resp>>,
    Fault,
> {
    match outcome {
        Ok(Progress::Done(Some(value))) => Ok(Progress::Done(Some(value@))),
        Ok(Progress::Done(None)) => Ok(Progress::Done(None)),
        Ok(Progress::Waiting(awaited)) => Ok(Progress::Waiting(awaited)),
        Err(error) => Err(error@),
    }
}

impl Connection {
    /// The bytes that have arrived and are still to be read.
    pub closed spec fn unread(&self) -> Seq<u8> {
        self.incoming@
    }

    /// Whether the peer has closed: no more bytes arrive.
    pub closed spec fn ended(&self) -> bool {
        self.closed
    }

    /// The bytes that are still to be sent.
    pub closed spec fn unsent(&self) -> Seq<u8> {
        self.outgoing@
    }

    /// A connection on which nothing has arrived and nothing is to be sent.
    pub fn new() -> (connection: Self)
        ensures
            connection.unread().len() == 0,
            !connection.ended(),
            connection.unsent().len() == 0,
    {
        Connection { incoming: Vec::new(), closed: false, outgoing: Vec::new() }
    }

    /// These bytes arrived.
    pub fn arrived(&mut self, bytes: &[u8])
        ensures
            final(self).unread() == old(self).unread() + bytes@,
            final(self).ended() == old(self).ended(),
            final(self).unsent() == old(self).unsent(),
    {
        push_bytes(&mut self.incoming, bytes);
    }

    /// The peer closed.
    pub fn close(&mut self)
        ensures
            final(self).unread() == old(self).unread(),
            final(self).ended(),
            final(self).unsent() == old(self).unsent(),
    {
        self.closed = true;
    }

    /// Hands over the bytes that are to be sent.
    pub fn departing(&mut self) -> (bytes: Vec<u8>)
        ensures
            bytes@ == old(self).unsent(),
            final(self).unread() == old(self).unread(),
            final(self).ended() == old(self).ended(),
            final(self).unsent().len() == 0,
    {
        let mut bytes: Vec<u8> = Vec::new();
        bytes.append(&mut self.outgoing);
        assert(bytes@ =~= old(self).unsent());
        bytes
    }

    /// Adds a value to what is to be sent.
    pub fn send(&mut self, value: &Value)
        ensures
            final(self).unread() == old(self).unread(),
            final(self).ended() == old(self).ended(),
            final(self).unsent() == old(self).unsent() + wire(value@),
    {
        crate::resp::write(&mut self.outgoing, value);
    }

    /// What stands at `at` among the bytes that are still to be read.
    pub(crate) fn peek(&self, at: usize) -> (taken: Taken)
        requires
            at <= self.unread().len(),
        ensures
            taken.matches(self.unread(), parse(self.unread().skip(at as int))),
    {
        take(self.incoming.as_slice(), at)
    }

    /// Reads the next value out of what has arrived, or `None` where the peer
    /// closed between values. Whatever is read can be written again.
    ///
    /// # Errors
    /// A peer that closed inside a value, or bytes that are no value.
    pub fn next(&mut self) -> (outcome: Result<Progress<Option<Value>>, Error>)
        ensures
            (value_outcome(outcome), final(self).unread()) == next_value(
                old(self).unread(),
                old(self).ended(),
            ),
            final(self).ended() == old(self).ended(),
            final(self).unsent() == old(self).unsent(),
            outcome matches Ok(Progress::Done(Some(value))) ==> writable(value@),
    {
        assert(self.incoming@.skip(0) =~= self.incoming@);
        match take(self.incoming.as_slice(), 0) {
            Taken::Closed => if self.closed {
                Ok(Progress::Done(None))
            } else {
                Ok(Progress::Waiting(Awaited::Line))
            },
            Taken::Value(value, next) => {
                self.incoming = self.incoming.split_off(next);
                Ok(Progress::Done(Some(value)))
            },
            Taken::Cut(error) => if self.closed {
                self.incoming = Vec::new();
                Err(error)
            } else {
                match error {
                    Error::ShortBulk => Ok(Progress::Waiting(Awaited::Bulk)),
                    _ => Ok(Progress::Waiting(Awaited::Line)),
                }
            },
            Taken::Bad(error, next) => {
                self.incoming = self.incoming.split_off(next);
                Err(error)
            },
        }
    }
}

} // verus!
