//! What goes wrong between the two ends of a connection.

use vstd::prelude::*;

use crate::resp::{Resp, Value};

verus! {

/// Why bytes were refused, or an answer was.
#[derive(Debug)]
pub enum Error {
    /// The bytes end inside a line.
    UnendedLine,
    /// A line that ends in LF without the CR before it, or that holds no type
    /// byte.
    BareLine,
    /// The bytes end inside a bulk string.
    ShortBulk,
    /// A bulk string whose length is not followed by CRLF.
    UnendedBulk,
    /// A bulk length below zero that is not the null of `-1`.
    NegativeBulk,
    /// The bytes end between the elements of an array.
    UnendedArray,
    /// An array length below zero that is not the null of `-1`.
    NegativeArray,
    /// A type byte that RESP does not have.
    NotAType(u8),
    /// A length or an integer that is not a number.
    NotANumber(String),
    /// The server answered with this error.
    Answered(String),
    /// The server answered PING with something other than PONG.
    NotPong(Value),
    /// The server closed before it answered.
    ClosedUnanswered,
    /// XADD was answered with something that is not an id.
    NoId,
    /// A reply that is not a list of entries.
    NotEntries,
    /// The client closed without appending.
    NothingAppended,
}

/// An [`Error`] as a mathematical value.
pub enum Fault {
    UnendedLine,
    BareLine,
    ShortBulk,
    UnendedBulk,
    NegativeBulk,
    UnendedArray,
    NegativeArray,
    NotAType(u8),
    NotANumber(Seq<char>),
    Answered(Seq<char>),
    NotPong(Resp),
    ClosedUnanswered,
    NoId,
    NotEntries,
    NothingAppended,
}

impl View for Error {
    type V = Fault;

    open spec fn view(&self) -> Fault {
        match self {
            Error::UnendedLine => Fault::UnendedLine,
            Error::BareLine => Fault::BareLine,
            Error::ShortBulk => Fault::ShortBulk,
            Error::UnendedBulk => Fault::UnendedBulk,
            Error::NegativeBulk => Fault::NegativeBulk,
            Error::UnendedArray => Fault::UnendedArray,
            Error::NegativeArray => Fault::NegativeArray,
            Error::NotAType(byte) => Fault::NotAType(*byte),
            Error::NotANumber(text) => Fault::NotANumber(text@),
            Error::Answered(text) => Fault::Answered(text@),
            Error::NotPong(value) => Fault::NotPong(value@),
            Error::ClosedUnanswered => Fault::ClosedUnanswered,
            Error::NoId => Fault::NoId,
            Error::NotEntries => Fault::NotEntries,
            Error::NothingAppended => Fault::NothingAppended,
        }
    }
}

} // verus!
