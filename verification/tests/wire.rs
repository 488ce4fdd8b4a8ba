//! RESP on the wire: what is written is read, and what is not RESP is refused.

use redis_streams::{encode, read, Awaited, Connection, Error, Progress, Value};

fn round_trip(value: &Value) {
    let bytes = encode(value);
    let back = read(&mut bytes.as_slice()).expect("read").expect("one");
    assert_eq!(&back, value);
}

#[test]
fn every_type_round_trips() {
    round_trip(&Value::Simple("OK".into()));
    round_trip(&Value::Error("ERR unknown".into()));
    round_trip(&Value::Integer(-42));
    round_trip(&Value::Bulk(None));
    round_trip(&Value::bulk(""));
    round_trip(&Value::Bulk(Some(b"bin\r\nary\0".to_vec())));
    round_trip(&Value::Array(None));
    round_trip(&Value::command(&[b"XADD", b"orders", b"*", b"body", b"x"]));
    round_trip(&Value::Array(Some(vec![
        Value::bulk("1-0"),
        Value::Array(Some(vec![Value::bulk("body"), Value::Integer(1)])),
    ])));
}

#[test]
fn what_is_not_resp_is_refused() {
    assert!(read(&mut &b""[..]).expect("closed").is_none());
    assert!(read(&mut &b"?x\r\n"[..]).is_err(), "type byte");
    assert!(read(&mut &b"$x\r\n"[..]).is_err(), "length");
    assert!(read(&mut &b"$5\r\nab\r\n"[..]).is_err(), "short");
    assert!(read(&mut &b"$-2\r\n"[..]).is_err(), "negative");
    assert!(read(&mut &b"*2\r\n+a\r\n"[..]).is_err(), "closed in array");
    assert!(read(&mut &b"+OK\n"[..]).is_err(), "bare LF");
    let command = Value::command(&[b"PING"]);
    assert_eq!(
        command.as_array().expect("array")[0].as_text().as_deref(),
        Some("PING")
    );
    assert_eq!(
        command.as_array().expect("array")[0].as_bytes(),
        Some(&b"PING"[..])
    );
}

#[test]
fn every_type_is_written_as_resp_has_it() {
    assert_eq!(encode(&Value::Simple("OK".into())), b"+OK\r\n");
    assert_eq!(encode(&Value::Error("ERR no".into())), b"-ERR no\r\n");
    assert_eq!(encode(&Value::Integer(0)), b":0\r\n");
    assert_eq!(encode(&Value::Integer(-42)), b":-42\r\n");
    assert_eq!(
        encode(&Value::Integer(i64::MIN)),
        b":-9223372036854775808\r\n"
    );
    assert_eq!(
        encode(&Value::Integer(i64::MAX)),
        b":9223372036854775807\r\n"
    );
    assert_eq!(encode(&Value::Bulk(None)), b"$-1\r\n");
    assert_eq!(encode(&Value::bulk("")), b"$0\r\n\r\n");
    assert_eq!(
        encode(&Value::Bulk(Some(vec![0x2a; 12]))),
        b"$12\r\n************\r\n"
    );
    assert_eq!(encode(&Value::Array(None)), b"*-1\r\n");
    assert_eq!(encode(&Value::Array(Some(vec![]))), b"*0\r\n");
    assert_eq!(
        encode(&Value::command(&[b"PING", b"x"])),
        b"*2\r\n$4\r\nPING\r\n$1\r\nx\r\n"
    );
}

#[test]
fn each_refusal_is_told_apart() {
    assert!(matches!(read(&mut &b"+OK"[..]), Err(Error::UnendedLine)));
    assert!(matches!(read(&mut &b"+OK\r"[..]), Err(Error::UnendedLine)));
    assert!(matches!(read(&mut &b"+OK\n"[..]), Err(Error::BareLine)));
    assert!(matches!(read(&mut &b"\r\n"[..]), Err(Error::BareLine)));
    assert!(matches!(read(&mut &b"$5\r\nab\r\n"[..]), Err(Error::ShortBulk)));
    assert!(matches!(read(&mut &b"$2\r\nabcd"[..]), Err(Error::UnendedBulk)));
    assert!(matches!(read(&mut &b"$-2\r\n"[..]), Err(Error::NegativeBulk)));
    assert!(matches!(read(&mut &b"*2\r\n+a\r\n"[..]), Err(Error::UnendedArray)));
    assert!(matches!(read(&mut &b"*-2\r\n"[..]), Err(Error::NegativeArray)));
    assert!(matches!(read(&mut &b"?x\r\n"[..]), Err(Error::NotAType(b'?'))));
    assert!(matches!(read(&mut &b":1x\r\n"[..]), Err(Error::NotANumber(text)) if text == "1x"));
    assert!(matches!(read(&mut &b":\r\n"[..]), Err(Error::NotANumber(text)) if text.is_empty()));
    assert!(matches!(
        read(&mut &b":9223372036854775808\r\n"[..]),
        Err(Error::NotANumber(_))
    ));
}

#[test]
fn a_plus_sign_and_leading_zeros_make_a_number() {
    assert_eq!(
        read(&mut &b":+7\r\n"[..]).expect("read"),
        Some(Value::Integer(7))
    );
    assert_eq!(
        read(&mut &b":-0007\r\n"[..]).expect("read"),
        Some(Value::Integer(-7))
    );
    assert_eq!(
        read(&mut &b"$+02\r\nab\r\n"[..]).expect("read"),
        Some(Value::bulk("ab"))
    );
    assert!(read(&mut &b":+\r\n"[..]).is_err());
    assert!(read(&mut &b":+-7\r\n"[..]).is_err());
}

#[test]
fn reading_leaves_what_comes_after() {
    let mut reader = &b"+a\r\n:2\r\nrest"[..];
    assert_eq!(
        read(&mut reader).expect("first"),
        Some(Value::Simple("a".into()))
    );
    assert_eq!(reader, b":2\r\nrest");
    assert_eq!(read(&mut reader).expect("second"), Some(Value::Integer(2)));
    assert_eq!(reader, b"rest");
    assert!(read(&mut reader).is_err());
    assert!(reader.is_empty());
    let mut bad = &b"?x\r\n+b\r\n"[..];
    assert!(read(&mut bad).is_err());
    assert_eq!(bad, b"+b\r\n");
}

#[test]
fn a_line_that_is_not_utf8_is_read_with_replacements() {
    assert_eq!(
        read(&mut &b"+a\xffb\r\n"[..]).expect("read"),
        Some(Value::Simple("a\u{fffd}b".into()))
    );
    assert_eq!(
        Value::Bulk(Some(b"\xf0\x9f".to_vec())).as_text().as_deref(),
        Some("\u{fffd}")
    );
    assert_eq!(
        Value::bulk("\u{e5}\u{2764}").as_text().as_deref(),
        Some("\u{e5}\u{2764}")
    );
}

#[test]
fn what_was_read_is_written_and_read_again_unchanged() {
    for bytes in [
        &b"+a\xffb\r\n"[..],
        &b"-\xf0\x9f\x92\rx\r\n"[..],
        &b":+007\r\n"[..],
        &b"$2\r\n\n\xff\r\n"[..],
        &b"*2\r\n+\xc3\r\n*1\r\n-\r\r\n"[..],
    ] {
        let mut reader = bytes;
        let value = read(&mut reader).expect("read").expect("one");
        round_trip(&value);
    }
}

#[test]
fn only_bulk_strings_hold_bytes_and_only_arrays_elements() {
    assert_eq!(Value::Simple("x".into()).as_bytes(), None);
    assert_eq!(Value::Simple("x".into()).as_text().as_deref(), Some("x"));
    assert_eq!(Value::Error("x".into()).as_text(), None);
    assert_eq!(Value::Integer(1).as_text(), None);
    assert_eq!(Value::Bulk(None).as_bytes(), None);
    assert_eq!(Value::Bulk(None).as_text(), None);
    assert_eq!(Value::Array(None).as_array(), None);
    assert_eq!(Value::bulk("x").as_array(), None);
    let list = Value::Array(Some(vec![Value::Integer(1)]));
    assert_eq!(list.as_array(), Some(&[Value::Integer(1)][..]));
    assert_eq!(list.clone(), list);
}

#[test]
fn a_value_arrives_in_whatever_pieces() {
    let value = Value::Array(Some(vec![
        Value::Simple("OK".into()),
        Value::Bulk(Some(b"a\r\nb".to_vec())),
        Value::Integer(-7),
        Value::Array(Some(vec![Value::Bulk(None)])),
    ]));
    let bytes = encode(&value);
    for cut in 0..bytes.len() {
        let mut connection = Connection::new();
        connection.arrived(&bytes[..cut]);
        assert!(
            matches!(connection.next(), Ok(Progress::Waiting(_))),
            "{cut}"
        );
        match read(&mut &bytes[..cut]) {
            Ok(None) => assert_eq!(cut, 0),
            Ok(Some(early)) => panic!("{cut}: {early:?}"),
            Err(_) => assert!(cut > 0),
        }
        connection.arrived(&bytes[cut..]);
        connection.arrived(b"+next\r\n");
        match connection.next() {
            Ok(Progress::Done(Some(back))) => assert_eq!(back, value),
            other => panic!("{cut}: {other:?}"),
        }
        match connection.next() {
            Ok(Progress::Done(Some(back))) => assert_eq!(back, Value::Simple("next".into())),
            other => panic!("{cut}: {other:?}"),
        }
    }
}

#[test]
fn a_connection_says_what_it_waits_for() {
    let mut connection = Connection::new();
    assert!(matches!(
        connection.next(),
        Ok(Progress::Waiting(Awaited::Line))
    ));
    connection.arrived(b"$4\r\nab");
    assert!(matches!(
        connection.next(),
        Ok(Progress::Waiting(Awaited::Bulk))
    ));
    connection.close();
    assert!(matches!(connection.next(), Err(Error::ShortBulk)));
    assert!(matches!(connection.next(), Ok(Progress::Done(None))));
}

#[test]
fn departing_bytes_depart_once() {
    let mut connection = Connection::new();
    connection.send(&Value::Integer(1));
    connection.send(&Value::Integer(2));
    assert_eq!(connection.departing(), b":1\r\n:2\r\n");
    assert!(connection.departing().is_empty());
}
