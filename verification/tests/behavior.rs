use pienirc::Command;
use pienirc::Error;
use pienirc::Framer;
use pienirc::Message;
use pienirc::Prefix;
use pienirc::Termination;
use pienirc::UserMask;

#[test]
fn round_trip_validated_message() {
    let message = Message::new(
        Some(Prefix::User(UserMask {
            nickname: "nick".to_string(),
            user: "user".to_string(),
            server: "irc.example".to_string(),
        })),
        Command::General("PRIVMSG".to_string()),
        Some(vec!["#chan".to_string()]),
        Some("hello there".to_string()),
    )
    .unwrap();

    let bytes = message.to_bytes().unwrap();
    assert_eq!(b":nick!user@irc.example PRIVMSG #chan :hello there\r\n", &bytes[..]);

    let Ok(Some((parsed, consumed))) = Message::parse(&bytes[..]) else {
        panic!("Unable to parse rendered message")
    };
    assert_eq!(message, parsed);
    assert_eq!(bytes.len(), consumed);
}

#[test]
fn round_trip_numeric_message() {
    let message = Message::new(
        Some(Prefix::Server("irc.example".to_string())),
        Command::Numeric(1),
        Some(vec!["nick".to_string()]),
        Some("Welcome".to_string()),
    )
    .unwrap();

    let bytes = message.to_bytes().unwrap();
    assert_eq!(b":irc.example 001 nick :Welcome\r\n", &bytes[..]);

    let Ok(Some((parsed, consumed))) = Message::parse(&bytes[..]) else {
        panic!("Unable to parse rendered message")
    };
    assert_eq!(message, parsed);
    assert_eq!(bytes.len(), consumed);
}

#[test]
fn numeric_detection() {
    let Ok(Some((message, _))) = Message::parse(b"001\r\n") else {
        panic!("Unable to parse message")
    };
    assert_eq!(&Command::Numeric(1), message.command());

    let Ok(Some((message, _))) = Message::parse(b"NOTICE\r\n") else {
        panic!("Unable to parse message")
    };
    assert_eq!(&Command::General("NOTICE".to_string()), message.command());
}

#[test]
fn incomplete_buffer_is_not_an_error() {
    assert!(matches!(Message::parse(b""), Ok(None)));
    assert!(matches!(Message::parse(b"COMMAND without terminator"), Ok(None)));
    assert!(matches!(Message::parse(b"\rsplit\npieces\r"), Ok(None)));
    assert!(matches!(Message::parse(&[0xFF, 0x00, 0x0D, 0x0D, 0x09]), Ok(None)));
}

#[test]
fn parse_too_long_is_reported() {
    let mut raw = vec![b'A'; 511];
    raw.push(b'\r');
    raw.push(b'\n');
    assert!(matches!(Message::parse(&raw[..]), Err(Error::MessageTooLong)));
}

#[test]
fn parse_rejects_malformed_frames() {
    // an empty line has no command token
    assert!(matches!(Message::parse(b"\r\n"), Err(Error::Parsing)));
    // a lone carriage return may not stand in the trailing parameter
    assert!(matches!(Message::parse(b"CMD :a\rb\r\n"), Err(Error::Parsing)));
}

#[test]
fn parse_replaces_invalid_text() {
    let raw = b"CMD :a\xFFb\r\n";
    let Ok(Some((message, _))) = Message::parse(raw) else {
        panic!("Unable to parse message")
    };
    assert_eq!(&Some("a\u{FFFD}b".to_string()), message.last_parameter());
}

#[test]
fn serialize_numeric_is_zero_padded() {
    let message = Message::new(None, Command::Numeric(5), None, None).unwrap();
    assert_eq!(b"005\r\n", &message.to_bytes().unwrap()[..]);

    let message = Message::new(None, Command::Numeric(372), None, None).unwrap();
    assert_eq!(b"372\r\n", &message.to_bytes().unwrap()[..]);
}

#[test]
fn validation_reports_first_violation() {
    assert_eq!(
        Err(Error::PrefixValidation),
        Message::new(
            Some(Prefix::Server("bad server".to_string())),
            Command::General("CMD".to_string()),
            None,
            None,
        )
    );
    assert_eq!(
        Err(Error::PrefixValidation),
        Message::new(None, Command::General("two words".to_string()), None, None)
    );
    assert_eq!(
        Err(Error::CommandValidation),
        Message::new(
            None,
            Command::General("CMD".to_string()),
            Some(vec![":colon".to_string()]),
            None,
        )
    );
    assert_eq!(
        Err(Error::SimpleParameterValidation),
        Message::new(
            None,
            Command::General("CMD".to_string()),
            Some(vec!["p".to_string(); 15]),
            None,
        )
    );
    assert_eq!(
        Err(Error::LastParameterValidation),
        Message::new(
            None,
            Command::General("CMD".to_string()),
            None,
            Some("bad\r\nend".to_string()),
        )
    );
    assert_eq!(
        Err(Error::MessageTooLong),
        Message::new(
            None,
            Command::General("CMD".to_string()),
            None,
            Some("q".repeat(600)),
        )
    );
}

#[test]
fn validation_accepts_budget_boundary() {
    // `CMD`=3, ` :`=2, crlf=2: a 505-byte trailing parameter lands on 512
    let message = Message::new(
        None,
        Command::General("CMD".to_string()),
        None,
        Some("q".repeat(505)),
    )
    .unwrap();
    let bytes = message.to_bytes().unwrap();
    assert_eq!(512, bytes.len());

    assert_eq!(
        Err(Error::MessageTooLong),
        Message::new(
            None,
            Command::General("CMD".to_string()),
            None,
            Some("q".repeat(506)),
        )
    );
}

#[test]
fn user_prefix_serializes_with_separating_space() {
    let message = Message::new(
        Some(Prefix::User(UserMask {
            nickname: "nick".to_string(),
            user: "user".to_string(),
            server: "server".to_string(),
        })),
        Command::General("COMMAND".to_string()),
        None,
        None,
    )
    .unwrap();
    assert_eq!(b":nick!user@server COMMAND\r\n", &message.to_bytes().unwrap()[..]);
}

#[test]
fn numeric_accepts_plus_and_wide_codes() {
    let Ok(Some((message, _))) = Message::parse(b"+001\r\n") else {
        panic!("Unable to parse message")
    };
    assert_eq!(&Command::Numeric(1), message.command());

    let Ok(Some((message, _))) = Message::parse(b"65535\r\n") else {
        panic!("Unable to parse message")
    };
    assert_eq!(&Command::Numeric(65535), message.command());

    // one past the numeric width falls back to a general verb
    let Ok(Some((message, _))) = Message::parse(b"65536\r\n") else {
        panic!("Unable to parse message")
    };
    assert_eq!(&Command::General("65536".to_string()), message.command());
}

#[test]
fn prefix_falls_back_when_user_form_cannot_match() {
    // an empty server part after `@` leaves only the server form
    let Ok(Some((message, _))) = Message::parse(b":a!b@ c\r\n") else {
        panic!("Unable to parse message")
    };
    assert_eq!(&Some(Prefix::Server("a!b@".to_string())), message.prefix());
    assert_eq!(&Command::General("c".to_string()), message.command());

    // with no space after the colon token, the line has no prefix at all
    let Ok(Some((message, _))) = Message::parse(b":a!b@c\r\n") else {
        panic!("Unable to parse message")
    };
    assert_eq!(&None, message.prefix());
    assert_eq!(&Command::General(":a!b@c".to_string()), message.command());
}

#[test]
fn trailing_spaces_read_as_empty_trailing_parameter() {
    let Ok(Some((message, _))) = Message::parse(b"CMD \r\n") else {
        panic!("Unable to parse message")
    };
    assert_eq!(&None, message.parameters());
    assert_eq!(&Some(String::new()), message.last_parameter());
}

#[test]
fn framer_clean_and_unclean_termination() {
    let framer = Framer::new();
    assert_eq!(Termination::CleanEnd, framer.on_close());

    let mut framer = Framer::new();
    framer.feed(b"PING :half a fra");
    assert!(matches!(framer.poll_message(), Ok(None)));
    assert_eq!(Termination::Reset, framer.on_close());
}

#[test]
fn framer_extracts_messages_incrementally() {
    let mut framer = Framer::new();
    framer.feed(b"PING :token\r\nPO");
    let Ok(Some(first)) = framer.poll_message() else {
        panic!("Expected a complete message")
    };
    assert_eq!(
        Message::new_unchecked(
            None,
            Command::General("PING".to_string()),
            None,
            Some("token".to_string()),
        ),
        first
    );
    assert!(matches!(framer.poll_message(), Ok(None)));
    framer.feed(b"NG :token\r\n");
    let Ok(Some(second)) = framer.poll_message() else {
        panic!("Expected a complete message")
    };
    assert_eq!(
        Message::new_unchecked(
            None,
            Command::General("PONG".to_string()),
            None,
            Some("token".to_string()),
        ),
        second
    );
    assert_eq!(Termination::CleanEnd, framer.on_close());
}
