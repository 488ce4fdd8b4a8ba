//! What goes wrong, in words.

use redis_streams::{read, Error, Value};

fn refused(bytes: &[u8]) -> String {
    let mut reader = bytes;
    read(&mut reader).expect_err("refused").message()
}

#[test]
fn each_refusal_has_its_words() {
    assert_eq!(refused(b"+OK"), "a RESP line without its CRLF");
    assert_eq!(refused(b"+OK\n"), "a RESP line without its CRLF");
    assert_eq!(refused(b"$5\r\nab\r\n"), "reading a bulk string");
    assert_eq!(refused(b"$2\r\nabcd"), "a bulk string not followed by CRLF");
    assert_eq!(refused(b"$-2\r\n"), "a negative bulk length");
    assert_eq!(refused(b"*2\r\n+a\r\n"), "the peer closed inside an array");
    assert_eq!(refused(b"*-2\r\n"), "a negative array length");
}

#[test]
fn a_type_byte_is_shown_as_a_character() {
    assert_eq!(refused(b"?x\r\n"), "'?' is not a RESP type byte");
    assert_eq!(refused(b"\tx\r\n"), "'\\t' is not a RESP type byte");
    assert_eq!(refused(b"\xe5x\r\n"), "'\u{e5}' is not a RESP type byte");
}

#[test]
fn what_is_not_a_number_is_shown_in_quotes() {
    assert_eq!(refused(b"$x\r\n"), "\"x\" is not a number");
    assert_eq!(refused(b":a\"b\r\n"), "\"a\\\"b\" is not a number");
}

#[test]
fn answers_have_their_words() {
    assert_eq!(
        Error::Answered("ERR no".into()).message(),
        "the server answered ERR no"
    );
    assert_eq!(
        Error::ClosedUnanswered.message(),
        "the server closed before answering"
    );
    assert_eq!(Error::NoId.message(), "XADD did not answer with an id");
    assert_eq!(
        Error::NotEntries.message(),
        "a reply that is not a list of entries"
    );
    assert_eq!(
        Error::NothingAppended.message(),
        "the client closed without appending"
    );
}

#[test]
fn an_unexpected_answer_is_shown_whole() {
    let values = [
        Value::Simple("PA\nNG".into()),
        Value::Error("ERR \"x\"".into()),
        Value::Integer(-42),
        Value::Bulk(None),
        Value::bulk(""),
        Value::Bulk(Some(vec![0, 98, 255])),
        Value::Array(None),
        Value::Array(Some(vec![])),
        Value::Array(Some(vec![
            Value::Integer(1),
            Value::Array(Some(vec![Value::bulk("a"), Value::Simple("b".into())])),
        ])),
    ];
    for value in values {
        let expected = format!("PING answered {value:?}");
        assert_eq!(Error::NotPong(value).message(), expected);
    }
}
