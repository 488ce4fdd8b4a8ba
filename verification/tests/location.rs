//! The settings of a Location, and its cursor.

use redis_streams::{Client, Entry, Error, RedisStreamsTransport};
use std::time::Duration;

fn entry(id: &str, field: &str, value: &[u8]) -> Entry {
    Entry {
        id: id.into(),
        fields: vec![(field.into(), value.to_vec())],
    }
}

fn asked(transport: &RedisStreamsTransport) -> Vec<u8> {
    let mut client = Client::connect();
    client.connection.departing();
    transport.ask(&mut client);
    client.connection.departing()
}

#[test]
fn a_location_starts_at_the_beginning() {
    let transport = RedisStreamsTransport::new("host:6379", "orders");
    assert_eq!(transport.name(), "redis-streams");
    assert_eq!(transport.server(), "host:6379");
    assert_eq!(transport.stream(), "orders");
    assert_eq!(transport.cursor(), "0-0");
    assert_eq!(transport.timeout(), None);
    assert_eq!(
        asked(&transport),
        b"*6\r\n$6\r\nXRANGE\r\n$6\r\norders\r\n$1\r\n-\r\n$1\r\n+\r\n$5\r\nCOUNT\r\n$3\r\n100\r\n"
    );
}

#[test]
fn a_location_reads_after_the_id_it_is_given() {
    let transport = RedisStreamsTransport::new("host:6379", "orders")
        .after("7-1")
        .timing_out_after(Duration::from_secs(2));
    assert_eq!(transport.cursor(), "7-1");
    assert_eq!(transport.timeout(), Some(Duration::from_secs(2)));
    assert_eq!(
        asked(&transport),
        b"*6\r\n$6\r\nXRANGE\r\n$6\r\norders\r\n$4\r\n(7-1\r\n$1\r\n+\r\n$5\r\nCOUNT\r\n$3\r\n100\r\n"
    );
}

#[test]
fn the_cursor_moves_to_the_last_entry() {
    let mut transport = RedisStreamsTransport::new("host:6379", "orders").in_field("kind");
    let arrived = transport.receive(vec![
        entry("1-0", "kind", b"a"),
        entry("3-2", "body", b"b"),
    ]);
    assert_eq!(arrived.len(), 2);
    assert_eq!(arrived[0].bytes, b"a");
    assert_eq!(arrived[0].origin_uri, "redis://host:6379/orders/1-0");
    assert!(arrived[1].bytes.is_empty(), "an entry without the field");
    assert_eq!(arrived[1].origin_uri, "redis://host:6379/orders/3-2");
    assert_eq!(transport.cursor(), "3-2");
    assert!(transport.receive(vec![]).is_empty());
    assert_eq!(transport.cursor(), "3-2");
}

#[test]
fn a_copy_reads_on_from_where_its_model_has_got_to() {
    let mut transport = RedisStreamsTransport::new("host:6379", "orders");
    transport.receive(vec![entry("4-0", "body", b"a")]);
    let mut copy = transport.clone();
    assert_eq!(copy.cursor(), "4-0");
    copy.receive(vec![entry("5-0", "body", b"b")]);
    assert_eq!(copy.cursor(), "5-0");
    assert_eq!(transport.cursor(), "4-0");
}

#[test]
fn a_target_names_a_server_and_a_stream_or_a_stream_alone() {
    let transport = RedisStreamsTransport::new("host:6379", "orders");
    assert_eq!(
        transport.resolve("invoices", None),
        ("host:6379", "invoices")
    );
    assert_eq!(
        transport.resolve("redis://other:1/x", Some(("other:1", "x"))),
        ("other:1", "x")
    );
    assert_eq!(
        transport.resolve("redis://other:1", Some(("other:1", ""))),
        ("other:1", "orders")
    );
}

#[test]
fn what_is_sent_is_one_field_of_one_entry() {
    let transport = RedisStreamsTransport::new("host:6379", "orders").in_field("f");
    let mut client = Client::connect();
    client.connection.departing();
    transport.send(&mut client, "s", b"v");
    assert_eq!(
        client.connection.departing(),
        b"*5\r\n$4\r\nXADD\r\n$1\r\ns\r\n$1\r\n*\r\n$1\r\nf\r\n$1\r\nv\r\n"
    );
}

#[test]
fn the_loopback_is_on_this_machine() {
    let timeout = Duration::from_secs(5);
    let transport = RedisStreamsTransport::loopback(timeout).in_field("f").after("9-9");
    assert_eq!(transport.server(), "127.0.0.1:0");
    assert_eq!(transport.stream(), "probe");
    assert_eq!(transport.timeout(), Some(timeout));
    let near = transport.toward("127.0.0.1:7", Duration::from_secs(1));
    assert_eq!(near.server(), "127.0.0.1:7");
    assert_eq!(near.stream(), "probe");
    assert_eq!(near.cursor(), "0-0");
    assert_eq!(near.timeout(), Some(Duration::from_secs(1)));
}

#[test]
fn a_client_that_appends_nothing_is_an_error() {
    assert!(matches!(
        RedisStreamsTransport::take_one(None),
        Err(Error::NothingAppended)
    ));
}
