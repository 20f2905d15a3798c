use broker::protocol::{Command, Response};

#[test]
fn ping_parses() {
    assert!(matches!(Command::parse("PING"), Command::Ping));
    assert!(matches!(Command::parse("  PING \r"), Command::Ping));
}

#[test]
fn ping_reply_line() {
    assert_eq!(Response::Okay.as_bytes(), "OK\n");
}

#[test]
fn response_lines_exact() {
    assert_eq!(Response::Ack.as_bytes(), "ACK\n");
    assert_eq!(Response::Nack.as_bytes(), "NACK\n");
    assert_eq!(Response::ErrWal.as_bytes(), "ERR WAL\n");
    assert_eq!(Response::ErrBusy.as_bytes(), "ERR BUSY\n");
    assert_eq!(Response::ErrTimeout.as_bytes(), "ERR TIMEOUT\n");
    assert_eq!(Response::ErrTooLarge.as_bytes(), "ERR TOO_LARGE\n");
}

#[test]
fn pub_parses_topic_and_payload() {
    match Command::parse("PUB t hello") {
        Command::Pub { topic, payload } => {
            assert_eq!(topic, "t");
            assert_eq!(payload, "hello");
        }
        _ => panic!("expected a produce"),
    }
}

#[test]
fn pub_payload_keeps_internal_whitespace() {
    match Command::parse("PUB logs a b\tc") {
        Command::Pub { topic, payload } => {
            assert_eq!(topic, "logs");
            assert_eq!(payload, "a b\tc");
        }
        _ => panic!("expected a produce"),
    }
}

#[test]
fn pub_without_payload_is_empty_payload() {
    match Command::parse("PUB t") {
        Command::Pub { topic, payload } => {
            assert_eq!(topic, "t");
            assert_eq!(payload, "");
        }
        _ => panic!("expected a produce"),
    }
}

#[test]
fn pub_empty_topic_is_unknown() {
    assert!(matches!(Command::parse("PUB  x"), Command::Unknown(_)));
    assert!(matches!(Command::parse("PUB "), Command::Unknown(_)));
    assert!(matches!(Command::parse("PUB"), Command::Unknown(_)));
}

#[test]
fn fetch_parses() {
    match Command::parse("FETCH t 0 10") {
        Command::Fetch { topic, offset, limit } => {
            assert_eq!(topic, "t");
            assert_eq!(offset, 0);
            assert_eq!(limit, 10);
        }
        _ => panic!("expected a fetch"),
    }
}

#[test]
fn fetch_tolerates_extra_whitespace_and_tokens() {
    match Command::parse("FETCH  t   7  2  trailing junk") {
        Command::Fetch { topic, offset, limit } => {
            assert_eq!(topic, "t");
            assert_eq!(offset, 7);
            assert_eq!(limit, 2);
        }
        _ => panic!("expected a fetch"),
    }
}

#[test]
fn fetch_with_missing_or_bad_arguments_is_unknown() {
    assert!(matches!(Command::parse("FETCH t 0"), Command::Unknown(_)));
    assert!(matches!(Command::parse("FETCH t x 10"), Command::Unknown(_)));
    assert!(matches!(Command::parse("FETCH t 0 x"), Command::Unknown(_)));
    assert!(matches!(Command::parse("FETCH"), Command::Unknown(_)));
    assert!(matches!(
        Command::parse("FETCH t 18446744073709551616 1"),
        Command::Unknown(_)
    ));
}

#[test]
fn unknown_lines_are_unknown() {
    assert!(matches!(Command::parse("HELLO"), Command::Unknown(_)));
    assert!(matches!(Command::parse(""), Command::Unknown(_)));
    assert!(matches!(Command::parse("pub t x"), Command::Unknown(_)));
    assert!(matches!(Command::parse("PING extra"), Command::Unknown(_)));
    assert!(matches!(Command::parse("   \t  "), Command::Unknown(_)));
}

#[test]
fn pub_payload_is_verbatim_to_the_end_of_the_line() {
    match Command::parse("PUB t hello  ") {
        Command::Pub { topic, payload } => {
            assert_eq!(topic, "t");
            assert_eq!(payload, "hello  ");
        }
        _ => panic!("expected a produce"),
    }
    match Command::parse("PUB t a\t") {
        Command::Pub { topic, payload } => {
            assert_eq!(topic, "t");
            assert_eq!(payload, "a\t");
        }
        _ => panic!("expected a produce"),
    }
    match Command::parse("  PUB t  x") {
        Command::Pub { topic, payload } => {
            assert_eq!(topic, "t");
            assert_eq!(payload, " x");
        }
        _ => panic!("expected a produce"),
    }
}

#[test]
fn pub_topic_with_non_ascii_payload() {
    match Command::parse("PUB métrics héllo ✓") {
        Command::Pub { topic, payload } => {
            assert_eq!(topic, "métrics");
            assert_eq!(payload, "héllo ✓");
        }
        _ => panic!("expected a produce"),
    }
}
