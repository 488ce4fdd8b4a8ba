//! Streams that arrive as Redis Stream entries. One entry is one Stream, the
//! stream key and the entry id kept beside it.
//!
//! A Redis Stream is an append-only log with ids that order it: XADD appends,
//! XRANGE and XREAD read on from an id, and the id a Location last read is its
//! cursor. A Receive Location reads the entries after its cursor; a Send
//! Location appends. Either may instead accept a producer or consumer directly
//! through [`Session`], one client's worth of server over streams kept in
//! memory.
//!
//! An entry is fields; a Location carries the Stream as one field, `body`
//! unless configured otherwise, and reads that field back. The origin URI
//! carries what the server knew: `redis://server/orders/1699999999999-0`.
//!
//! Nothing here touches a socket. A [`Connection`] is given the bytes that
//! arrive and gives the bytes that are to be sent; what reads it answers
//! [`Progress::Waiting`] until enough has arrived.

pub mod arrived;
pub mod client;
pub mod commands;
pub mod connection;
pub mod decimal;
pub mod delivery;
pub mod error;
pub mod exchange;
pub mod framing;
pub mod grammar;
pub mod location;
pub mod message;
pub mod numerals;
pub mod ordering;
pub mod reading;
pub mod resp;
pub mod session;
pub mod text;

pub use arrived::{Arrival, Arrived};
pub use client::{Client, Entry};
pub use connection::{Awaited, Connection, Progress};
pub use error::{Error, Fault};
pub use location::RedisStreamsTransport;
pub use resp::{encode, read, Resp, Value};
pub use session::Session;
