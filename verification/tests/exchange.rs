//! A client and a session, their bytes carried from one to the other.

use redis_streams::client::entries;
use redis_streams::session::id_of;
use redis_streams::{
    encode, Arrived, Client, Connection, Entry, Error, Progress, RedisStreamsTransport, Session,
    Value,
};

/// Carries what the client sends to the session and the replies back; the
/// entries that were appended.
fn carry(client: &mut Client, session: &mut Session, far: &mut Connection) -> Vec<Arrived> {
    far.arrived(&client.connection.departing());
    let mut taken = Vec::new();
    while let Progress::Done(Some(arrived)) = session.next_add(far).expect("serving") {
        taken.push(arrived);
    }
    client.connection.arrived(&far.departing());
    taken
}

/// A client and the session that it has greeted.
fn pair(peer: &str) -> (Client, Session, Connection) {
    let mut client = Client::connect();
    let mut session = Session::new(peer);
    let mut far = Connection::new();
    assert!(carry(&mut client, &mut session, &mut far).is_empty());
    assert!(matches!(client.connected(), Ok(Progress::Done(()))));
    (client, session, far)
}

fn done<T>(outcome: Result<Progress<T>, Error>) -> T {
    match outcome {
        Ok(Progress::Done(value)) => value,
        Ok(Progress::Waiting(awaited)) => panic!("waiting for {awaited:?}"),
        Err(error) => panic!("{}", error.message()),
    }
}

/// What a session replies to one command.
fn replied(session: &mut Session, arguments: &[&[u8]]) -> Value {
    session.answer(&Value::command(arguments)).0
}

/// What comes back of a payload that a Location sends to one that accepts.
fn round(transport: &RedisStreamsTransport, payload: &[u8]) -> Arrived {
    let (mut client, mut session, mut far) = pair("127.0.0.1:50000");
    let timeout = transport.timeout().expect("a timeout");
    let near = transport.toward("127.0.0.1:49152", timeout);
    assert_eq!(near.server(), "127.0.0.1:49152");
    let (_, stream) = near.resolve(transport.stream(), None);
    near.send(&mut client, stream, payload);
    let mut taken = carry(&mut client, &mut session, &mut far);
    let id = done(client.added());
    let arrived = RedisStreamsTransport::take_one(taken.pop()).expect("one");
    assert!(taken.is_empty());
    assert!(arrived.origin_uri.ends_with(&id));
    arrived
}

fn secs(n: u64) -> std::time::Duration {
    std::time::Duration::from_secs(n)
}

#[test]
fn the_loopback_appends_one_entry_and_takes_it() {
    let arrived = round(&RedisStreamsTransport::loopback(secs(5)), b"entry");
    assert_eq!(arrived.bytes, b"entry");
    assert!(arrived.origin_uri.starts_with("redis://127.0.0.1:"));
    assert!(arrived.origin_uri.ends_with("/probe/1-0"));
    let long = vec![0x2a; 100_000];
    assert_eq!(
        round(&RedisStreamsTransport::loopback(secs(5)), &long).bytes,
        long
    );
}

#[test]
fn the_loopback_returns_the_edge_payloads_whole() {
    let transport = RedisStreamsTransport::loopback(secs(5));
    let every_byte: Vec<u8> = (0..=255).collect();
    let payloads = [
        ("empty", vec![]),
        ("one byte", vec![0]),
        ("line ends", b"\r\n\r\n\n\r".to_vec()),
        ("type bytes", b"*1\r\n$1\r\nx\r\n".to_vec()),
        ("not UTF-8", b"\xff\xfe\xc3".to_vec()),
        ("every byte", every_byte),
        ("text", "\u{e5}\u{2764}".as_bytes().to_vec()),
    ];
    for (name, bytes) in payloads {
        let arrived = round(&transport, &bytes);
        assert_eq!(arrived.bytes, bytes, "{name}");
    }
}

#[test]
fn a_producer_appends_to_a_session_and_a_consumer_reads_on_from_its_cursor() {
    let mut near = RedisStreamsTransport::new("127.0.0.1:49152", "orders").timing_out_after(secs(2));
    let (mut client, mut session, mut far) = pair("127.0.0.1:50000");
    let (_, stream) = near.resolve("orders", None);
    near.send(&mut client, stream, b"first");
    let mut taken = carry(&mut client, &mut session, &mut far);
    let one = taken.pop().expect("an entry");
    assert_eq!(one.bytes, b"first");
    assert!(one.origin_uri.ends_with("/orders/1-0"));
    far.close();
    assert!(matches!(
        session.next_add(&mut far),
        Ok(Progress::Done(None))
    ));
    let (mut client, mut session, mut far) = pair("127.0.0.1:50001");
    let target = "redis://127.0.0.1:49152/orders";
    let (server, stream) = near.resolve(target, Some(("127.0.0.1:49152", "orders")));
    assert_eq!(server, "127.0.0.1:49152");
    near.send(&mut client, stream, b"second\r\n\0");
    let mut taken = carry(&mut client, &mut session, &mut far);
    let two = taken.pop().expect("an entry");
    assert_eq!(two.bytes, b"second\r\n\0");
    far.close();
    assert!(matches!(
        session.next_add(&mut far),
        Ok(Progress::Done(None))
    ));
    // Each session keeps its own streams, so the two receives that follow
    // read from fresh sessions and find nothing.
    for peer in ["127.0.0.1:50002", "127.0.0.1:50003"] {
        let (mut client, mut session, mut far) = pair(peer);
        near.ask(&mut client);
        assert!(carry(&mut client, &mut session, &mut far).is_empty());
        let listed = done(client.listed());
        assert!(listed.is_empty(), "a fresh session holds nothing");
        assert!(near.receive(listed).is_empty());
        assert_eq!(near.cursor(), "0-0");
    }
}

#[test]
fn entries_read_back_from_the_session_that_holds_them() {
    let (mut client, mut session, mut far) = pair("127.0.0.1:50000");
    client.add("orders", &[("body", b"a"), ("kind", b"x")]);
    client.add("orders", &[("body", b"b")]);
    client.add("other", &[("body", b"c")]);
    assert_eq!(carry(&mut client, &mut session, &mut far).len(), 3);
    assert_eq!(done(client.added()), "1-0");
    assert_eq!(done(client.added()), "2-0");
    assert_eq!(done(client.added()), "3-0");
    client.read_after("orders", "0-0", 10);
    carry(&mut client, &mut session, &mut far);
    let all = done(client.listed());
    client.read_after("orders", &all[0].id, 10);
    carry(&mut client, &mut session, &mut far);
    let after_first = done(client.listed());
    client.read_after("orders", "0-0", 1);
    carry(&mut client, &mut session, &mut far);
    let one = done(client.listed());
    client.call(&[b"XREAD", b"COUNT", b"5", b"STREAMS", b"orders", b"1-0"]);
    client.call(&[b"XLEN", b"orders"]);
    client.call(&[b"FLUSHALL"]);
    carry(&mut client, &mut session, &mut far);
    let xread = done(client.reply());
    let length = done(client.reply());
    let unknown = client.reply();
    assert_eq!(all.len(), 2);
    assert_eq!(all[0].field("body"), Some(&b"a"[..]));
    assert_eq!(all[0].field("kind"), Some(&b"x"[..]));
    assert_eq!(all[0].field("none"), None);
    assert_eq!(after_first.len(), 1);
    assert_eq!(after_first[0].field("body"), Some(&b"b"[..]));
    assert_eq!(one.len(), 1);
    assert_eq!(length, Value::Integer(2));
    let streams = xread.as_array().expect("streams");
    assert_eq!(streams.len(), 1);
    assert_eq!(
        streams[0].as_array().expect("pair")[0].as_text().as_deref(),
        Some("orders")
    );
    match unknown {
        Err(Error::Answered(text)) => assert_eq!(text, "ERR unknown command \"FLUSHALL\""),
        other => panic!("{other:?}"),
    }
}

#[test]
fn a_location_reads_every_entry_once() {
    let (mut client, mut session, mut far) = pair("127.0.0.1:50000");
    let mut near = RedisStreamsTransport::new("s:6379", "orders");
    let mut sent: Vec<Vec<u8>> = Vec::new();
    for i in 0..250u32 {
        let payload = i.to_string().into_bytes();
        near.send(&mut client, "orders", &payload);
        sent.push(payload);
    }
    assert_eq!(carry(&mut client, &mut session, &mut far).len(), 250);
    for i in 1..=250u32 {
        assert_eq!(done(client.added()), format!("{i}-0"));
    }
    let mut got: Vec<Vec<u8>> = Vec::new();
    for (expected, cursor) in [(100, "100-0"), (100, "200-0"), (50, "250-0"), (0, "250-0")] {
        near.ask(&mut client);
        carry(&mut client, &mut session, &mut far);
        let arrived = near.receive(done(client.listed()));
        assert_eq!(arrived.len(), expected);
        assert_eq!(near.cursor(), cursor);
        got.extend(arrived.into_iter().map(|one| one.bytes));
    }
    assert_eq!(got, sent);
}

#[test]
fn a_command_may_arrive_in_whatever_pieces() {
    let mut bytes = encode(&Value::command(&[b"PING"]));
    bytes.extend(encode(&Value::command(&[b"XADD", b"s", b"*", b"f", b"v"])));
    for cut in 0..bytes.len() {
        let mut session = Session::new("p");
        let mut far = Connection::new();
        far.arrived(&bytes[..cut]);
        assert!(matches!(
            session.next_add(&mut far),
            Ok(Progress::Waiting(_))
        ));
        far.arrived(&bytes[cut..]);
        let arrived = done(session.next_add(&mut far)).expect("an entry");
        assert_eq!(arrived.bytes, b"v");
        assert_eq!(arrived.origin_uri, "redis://p/s/1-0");
        assert_eq!(far.departing(), b"+PONG\r\n$3\r\n1-0\r\n", "{cut}");
    }
}

#[test]
fn a_client_that_closes_inside_a_command_is_an_error() {
    let mut session = Session::new("p");
    let mut far = Connection::new();
    far.arrived(b"*1\r\n$4\r\nPI");
    far.close();
    assert!(matches!(session.next_add(&mut far), Err(Error::ShortBulk)));
    let mut far = Connection::new();
    far.arrived(b"*2\r\n$4\r\nPING\r\n");
    far.close();
    assert!(matches!(
        session.next_add(&mut far),
        Err(Error::UnendedArray)
    ));
}

#[test]
fn verbs_and_words_are_taken_in_either_case() {
    let mut session = Session::new("p");
    assert_eq!(
        replied(&mut session, &[b"ping"]),
        Value::Simple("PONG".into())
    );
    assert_eq!(
        replied(&mut session, &[b"xAdd", b"s", b"*", b"f", b"v"]),
        Value::bulk("1-0")
    );
    let read = replied(&mut session, &[b"xread", b"streams", b"s", b"0"]);
    assert_eq!(read.as_array().expect("streams").len(), 1);
    let counted = replied(
        &mut session,
        &[b"xread", b"count", b"0", b"Streams", b"s", b"0"],
    );
    assert_eq!(counted, Value::Array(None));
}

#[test]
fn what_is_not_a_known_command_is_refused_in_one_line() {
    let mut session = Session::new("p");
    let unknown = |verb: &str| Value::Error(format!("ERR unknown command {verb:?}"));
    assert_eq!(replied(&mut session, &[b"get", b"x"]), unknown("GET"));
    assert_eq!(replied(&mut session, &[b"a\r\nb"]), unknown("A\r\nB"));
    assert_eq!(replied(&mut session, &[]), unknown(""));
    assert_eq!(session.answer(&Value::Integer(1)).0, unknown(""));
    assert_eq!(session.answer(&Value::Array(None)).0, unknown(""));
    assert_eq!(
        replied(&mut session, &[b"XADD", b"s", b"*", b"f"]),
        unknown("XADD")
    );
    assert_eq!(
        replied(&mut session, &[b"XADD", b"s", b"*", b"f", b"v", b"g"]),
        unknown("XADD")
    );
    assert_eq!(
        replied(&mut session, &[b"XRANGE", b"s", b"-"]),
        unknown("XRANGE")
    );
    assert_eq!(
        replied(&mut session, &[b"XREAD", b"s", b"0"]),
        Value::Error("ERR syntax error".into())
    );
    assert_eq!(
        replied(&mut session, &[b"XREAD"]),
        Value::Error("ERR syntax error".into())
    );
    let (mut client, mut session, mut far) = pair("p");
    client.call(&[b"a\nb"]);
    carry(&mut client, &mut session, &mut far);
    assert!(
        matches!(client.reply(), Err(Error::Answered(text)) if text == "ERR unknown command \"A\\nB\"")
    );
}

#[test]
fn what_is_no_bulk_string_is_no_argument() {
    let mut session = Session::new("p");
    let command = Value::Array(Some(vec![
        Value::Integer(9),
        Value::bulk("XLEN"),
        Value::Bulk(None),
        Value::Simple("x".into()),
        Value::bulk("s"),
    ]));
    assert_eq!(session.answer(&command).0, Value::Integer(0));
}

#[test]
fn an_id_of_the_clients_own_is_kept() {
    let mut session = Session::new("p");
    let (reply, added) =
        session.answer(&Value::command(&[b"XADD", b"s", b"7-3", b"f", b"v", b"g", b"w"]));
    assert_eq!(reply, Value::bulk("7-3"));
    let added = added.expect("an entry");
    assert_eq!(added.origin_uri, "redis://p/s/7-3");
    assert_eq!(added.bytes, b"v");
    assert_eq!(
        replied(&mut session, &[b"XADD", b"s", b"*", b"f", b"v"]),
        Value::bulk("2-0")
    );
    assert_eq!(replied(&mut session, &[b"XLEN", b"s"]), Value::Integer(2));
    assert_eq!(replied(&mut session, &[b"XLEN", b"t"]), Value::Integer(0));
    assert_eq!(replied(&mut session, &[b"XLEN"]), Value::Integer(0));
}

#[test]
fn ids_are_pairs_of_numbers() {
    assert_eq!(id_of("5-3"), (5, 3));
    assert_eq!(id_of("0-0"), (0, 0));
    assert_eq!(id_of("+5-+3"), (5, 3));
    assert_eq!(id_of("18446744073709551615-0"), (u64::MAX, 0));
}

#[test]
fn what_is_not_an_id_reads_as_the_lowest() {
    for text in [
        "5",
        "-",
        "",
        "x-4",
        "4-x",
        "5-",
        "-5",
        "1-2-3",
        "(2-0",
        "18446744073709551616-1",
        "1-18446744073709551616",
    ] {
        assert_eq!(id_of(text), (0, 0), "{text}");
    }
}

fn ids(reply: &Value) -> Vec<String> {
    let list = entries(reply).expect("entries");
    list.into_iter().map(|entry| entry.id).collect()
}

#[test]
fn a_range_runs_from_its_start_to_its_end() {
    let mut session = Session::new("p");
    for id in ["1-0", "2-5", "10-0"] {
        replied(&mut session, &[b"XADD", b"s", id.as_bytes(), b"f", b"v"]);
    }
    let mut range = |start: &[u8], end: &[u8]| ids(&replied(&mut session, &[b"XRANGE", b"s", start, end]));
    assert_eq!(range(b"-", b"+"), ["1-0", "2-5", "10-0"]);
    assert_eq!(range(b"2-0", b"+"), ["2-5", "10-0"]);
    assert_eq!(range(b"2", b"+").len(), 3);
    assert_eq!(range(b"2-5", b"+"), ["2-5", "10-0"]);
    assert_eq!(range(b"(2-5", b"+"), ["10-0"]);
    assert_eq!(range(b"(-", b"+"), ["1-0", "2-5", "10-0"]);
    assert_eq!(range(b"-", b"2-5"), ["1-0", "2-5"]);
    assert_eq!(range(b"-", b"2-4"), ["1-0"]);
    assert_eq!(range(b"-", b"(2-5"), ["1-0"]);
    assert_eq!(range(b"-", b"(10-0"), ["1-0", "2-5"]);
    assert_eq!(range(b"(1-0", b"(10-0"), ["2-5"]);
    assert!(range(b"-", b"(+").is_empty());
    assert!(range(b"-", b"(1-0").is_empty());
    assert!(range(b"-", b"-").is_empty());
    let mut counted = |count: &[u8]| {
        ids(&replied(
            &mut session,
            &[b"XRANGE", b"s", b"-", b"+", b"COUNT", count],
        ))
    };
    assert_eq!(counted(b"2"), ["1-0", "2-5"]);
    assert!(counted(b"0").is_empty());
    assert_eq!(counted(b"many").len(), 3);
    assert_eq!(counted(b"99999999999999999999999").len(), 3);
}

#[test]
fn an_exclusive_end_leaves_its_id_out() {
    let mut session = Session::new("p");
    replied(&mut session, &[b"XADD", b"s", b"*", b"f", b"a"]);
    replied(&mut session, &[b"XADD", b"s", b"*", b"f", b"b"]);
    assert_eq!(
        replied(
            &mut session,
            &[b"XRANGE", b"s", b"-", b"(2-0", b"COUNT", b"10"]
        ),
        Value::Array(Some(vec![Value::Array(Some(vec![
            Value::bulk("1-0"),
            Value::Array(Some(vec![Value::bulk("f"), Value::bulk("a")])),
        ]))]))
    );
}

#[test]
fn an_end_that_is_no_id_reads_as_the_lowest() {
    let mut session = Session::new("p");
    for id in ["abc", "0-0", "7-0"] {
        replied(&mut session, &[b"XADD", b"s", id.as_bytes(), b"f", b"v"]);
    }
    for end in ["(+", "(", "(x", "x", ""] {
        assert_eq!(
            ids(&replied(
                &mut session,
                &[b"XRANGE", b"s", b"-", end.as_bytes()]
            )),
            ["abc", "0-0"],
            "{end}"
        );
    }
    assert!(ids(&replied(&mut session, &[b"XRANGE", b"s", b"-", b"(0-0"])).is_empty());
}

#[test]
fn ids_that_stand_still_are_read_up_to_and_on_after_once() {
    let mut session = Session::new("p");
    for id in ["0-0", "1-0", "1-0", "2-0", "2-0"] {
        replied(&mut session, &[b"XADD", b"s", id.as_bytes(), b"f", b"v"]);
    }
    let mut joined = ids(&replied(&mut session, &[b"XRANGE", b"s", b"-", b"1-0"]));
    assert_eq!(joined, ["0-0", "1-0", "1-0"]);
    joined.extend(ids(&replied(
        &mut session,
        &[b"XRANGE", b"s", b"(1-0", b"+"],
    )));
    assert_eq!(joined, ["0-0", "1-0", "1-0", "2-0", "2-0"]);
}

#[test]
fn a_stream_in_no_order_is_read_after_an_id() {
    let mut session = Session::new("p");
    for id in ["9-0", "2-0", "5-0"] {
        replied(&mut session, &[b"XADD", b"s", id.as_bytes(), b"f", b"v"]);
    }
    assert_eq!(
        ids(&replied(
            &mut session,
            &[b"XRANGE", b"s", b"(4-0", b"+"]
        )),
        ["9-0", "5-0"]
    );
}

#[test]
fn reading_up_to_an_id_and_on_after_it_gives_everything_once() {
    let mut session = Session::new("p");
    for _ in 0..5 {
        replied(&mut session, &[b"XADD", b"s", b"*", b"f", b"v"]);
    }
    let all = ids(&replied(&mut session, &[b"XRANGE", b"s", b"-", b"+"]));
    for middle in ["0-0", "1-0", "3-0", "3-7", "5-0", "9-9"] {
        let after = format!("({middle}");
        let mut joined = ids(&replied(
            &mut session,
            &[b"XRANGE", b"s", b"-", middle.as_bytes()],
        ));
        joined.extend(ids(&replied(
            &mut session,
            &[b"XRANGE", b"s", after.as_bytes(), b"+"],
        )));
        assert_eq!(joined, all, "{middle}");
    }
}

#[test]
fn replies_arrive_in_the_order_of_their_commands() {
    let (mut client, mut session, mut far) = pair("p");
    client.call(&[b"a\nb"]);
    client.call(&[b"XREAD"]);
    client.call(&[b"XLEN", b"s"]);
    client.add("s", &[("f", b"v")]);
    assert_eq!(carry(&mut client, &mut session, &mut far).len(), 1);
    assert!(matches!(client.reply(), Err(Error::Answered(text)) if text.ends_with("\"A\\nB\"")));
    assert!(matches!(client.reply(), Err(Error::Answered(text)) if text == "ERR syntax error"));
    assert_eq!(done(client.reply()), Value::Integer(0));
    assert_eq!(done(client.added()), "1-0");
    assert!(matches!(client.reply(), Ok(Progress::Waiting(_))));
}

#[test]
fn a_session_with_numbers_left_serves_whatever_arrived() {
    let mut session = Session::new("p");
    let mut far = Connection::new();
    assert!(!session.exhausted());
    assert!(session.can_serve(&far));
    far.arrived(&encode(&Value::command(&[b"XADD", b"s", b"*", b"f", b"v"])));
    assert!(session.can_serve(&far));
    assert!(done(session.next_add(&mut far)).is_some());
    assert!(!session.exhausted());
}

#[test]
fn xread_reads_several_streams_and_leaves_out_those_without_news() {
    let mut session = Session::new("p");
    replied(&mut session, &[b"XADD", b"a", b"*", b"f", b"1"]);
    replied(&mut session, &[b"XADD", b"b", b"*", b"f", b"2"]);
    let both = replied(
        &mut session,
        &[b"XREAD", b"STREAMS", b"a", b"b", b"0", b"1-0"],
    );
    let both = both.as_array().expect("streams");
    assert_eq!(both.len(), 2);
    assert_eq!(ids(&both[1].as_array().expect("pair")[1]), ["2-0"]);
    let one = replied(
        &mut session,
        &[b"XREAD", b"STREAMS", b"a", b"b", b"1-0", b"1-0"],
    );
    let one = one.as_array().expect("streams");
    assert_eq!(one.len(), 1);
    assert_eq!(
        one[0].as_array().expect("pair")[0].as_text().as_deref(),
        Some("b")
    );
    assert_eq!(
        replied(&mut session, &[b"XREAD", b"STREAMS", b"a", b"1-0"]),
        Value::Array(None)
    );
    assert_eq!(
        replied(&mut session, &[b"XREAD", b"STREAMS"]),
        Value::Array(None)
    );
    let odd = replied(&mut session, &[b"XREAD", b"STREAMS", b"a", b"0", b"9"]);
    assert_eq!(odd.as_array().expect("streams").len(), 1);
}

#[test]
fn keys_that_are_not_utf8_are_read_with_replacements() {
    let mut session = Session::new("p");
    let (_, added) = session.answer(&Value::command(&[b"XADD", b"\xff", b"*", b"\xfe", b"\xfd"]));
    let added = added.expect("an entry");
    assert_eq!(added.origin_uri, "redis://p/\u{fffd}/1-0");
    assert_eq!(added.bytes, b"\xfd");
    let list = entries(&replied(
        &mut session,
        &[b"XRANGE", "\u{fffd}".as_bytes(), b"-", b"+"],
    ))
    .expect("entries");
    assert_eq!(
        list,
        [Entry {
            id: "1-0".into(),
            fields: vec![("\u{fffd}".into(), b"\xfd".to_vec())],
        }]
    );
}

#[test]
fn a_reply_that_is_no_list_of_entries_is_refused() {
    let id = || Value::bulk("1-0");
    let fields = |list: Vec<Value>| Value::Array(Some(list));
    let wrong = [
        Value::Integer(1),
        Value::Array(None),
        fields(vec![Value::Integer(1)]),
        fields(vec![fields(vec![])]),
        fields(vec![fields(vec![id()])]),
        fields(vec![fields(vec![Value::Integer(1), fields(vec![])])]),
        fields(vec![fields(vec![id(), Value::Integer(1)])]),
        fields(vec![fields(vec![id(), fields(vec![Value::bulk("f")])])]),
        fields(vec![fields(vec![
            id(),
            fields(vec![Value::Integer(1), Value::bulk("v")]),
        ])]),
        fields(vec![fields(vec![
            id(),
            fields(vec![Value::bulk("f"), Value::Simple("v".into())]),
        ])]),
    ];
    for reply in wrong {
        assert!(
            matches!(entries(&reply), Err(Error::NotEntries)),
            "{reply:?}"
        );
    }
    assert!(entries(&fields(vec![])).expect("entries").is_empty());
    let list = entries(&fields(vec![fields(vec![
        Value::Simple("1-0".into()),
        fields(vec![
            Value::Simple("f".into()),
            Value::bulk("v"),
            Value::bulk("f"),
            Value::bulk("w"),
        ]),
        Value::Integer(9),
    ])]))
    .expect("entries");
    assert_eq!(list[0].id, "1-0");
    assert_eq!(list[0].fields.len(), 2);
    assert_eq!(list[0].field("f"), Some(&b"v"[..]));
}

#[test]
fn each_answer_a_client_refuses() {
    let answered = |bytes: &[u8], closed: bool| {
        let mut client = Client::connect();
        assert_eq!(client.connection.departing(), b"*1\r\n$4\r\nPING\r\n");
        client.connection.arrived(bytes);
        if closed {
            client.connection.close();
        }
        client
    };
    assert!(matches!(
        answered(b"+pong\r\n", false).connected(),
        Ok(Progress::Done(()))
    ));
    assert!(matches!(
        answered(b"+PO", false).connected(),
        Ok(Progress::Waiting(_))
    ));
    assert!(matches!(
        answered(b"+PANG\r\n", false).connected(),
        Err(Error::NotPong(Value::Simple(_)))
    ));
    assert!(matches!(
        answered(b"$4\r\nPONG\r\n", false).connected(),
        Err(Error::NotPong(Value::Bulk(_)))
    ));
    assert!(matches!(
        answered(b"-NOAUTH\r\n", false).connected(),
        Err(Error::Answered(text)) if text == "NOAUTH"
    ));
    assert!(matches!(
        answered(b"", true).connected(),
        Err(Error::ClosedUnanswered)
    ));
    assert!(matches!(
        answered(b"+PO", true).connected(),
        Err(Error::UnendedLine)
    ));
    assert!(matches!(
        answered(b":1\r\n", false).added(),
        Err(Error::NoId)
    ));
    assert_eq!(done(answered(b"+5-0\r\n", false).added()), "5-0");
    assert!(matches!(
        answered(b":1\r\n", false).listed(),
        Err(Error::NotEntries)
    ));
}
