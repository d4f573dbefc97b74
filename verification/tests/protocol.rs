use pienirc::Command;
use pienirc::Message;
use pienirc::Prefix;
use pienirc::UserMask;

#[test]
fn parse_simple_message() {
    let raw = b"COMMAND\r\n";

    let Ok(Some((message, _))) = Message::parse(raw) else {
        panic!("Unable to parse message")
    };

    assert_eq!(
        Message::new_unchecked(None, Command::General("COMMAND".to_string()), None, None),
        message
    );
}

#[test]
fn parse_parameters() {
    let raw = b"COMMAND foo ba:r baz: :yay\r\n";

    let Ok(Some((message, _))) = Message::parse(raw) else {
        panic!("Unable to parse message")
    };

    assert_eq!(
        Message::new_unchecked(
            None,
            Command::General("COMMAND".to_string()),
            Some(vec![
                "foo".to_string(),
                "ba:r".to_string(),
                "baz:".to_string()
            ]),
            Some("yay".to_string())
        ),
        message
    );
}

#[test]
fn parse_over_fourteen_parameters() {
    let expected = Message::new_unchecked(
        None,
        Command::General("COMMAND".to_string()),
        Some(vec![
            "1".to_string(),
            "2".to_string(),
            "3".to_string(),
            "4".to_string(),
            "5".to_string(),
            "6".to_string(),
            "7".to_string(),
            "8".to_string(),
            "9".to_string(),
            "10".to_string(),
            "11".to_string(),
            "12".to_string(),
            "13".to_string(),
            "14".to_string(),
        ]),
        Some("15 16 17".to_string()),
    );

    let raw = b"COMMAND 1 2 3 4 5 6 7 8 9 10 11 12 13 14 15 16 17\r\n";
    let Ok(Some((message, _))) = Message::parse(raw) else {
        panic!("Unable to parse message")
    };
    assert_eq!(expected, message);

    let raw = b"COMMAND 1 2 3 4 5 6 7 8 9 10 11 12 13 14 :15 16 17\r\n";
    let Ok(Some((message, _))) = Message::parse(raw) else {
        panic!("Unable to parse message")
    };
    assert_eq!(expected, message);
}

#[test]
fn parse_server_prefix() {
    let raw = b":server-yay COMMAND\r\n";

    let Ok(Some((message, _))) = Message::parse(raw) else {
        panic!("Unable to parse message")
    };

    assert_eq!(
        Message::new_unchecked(
            Some(Prefix::Server("server-yay".to_string())),
            Command::General("COMMAND".to_string()),
            None,
            None
        ),
        message
    );
}

#[test]
fn parse_user_prefix() {
    let raw = b":nick!user@server COMMAND\r\n";

    let Ok(Some((message, _))) = Message::parse(raw) else {
        panic!("Unable to parse message")
    };

    assert_eq!(
        Message::new_unchecked(
            Some(Prefix::User(UserMask {
                nickname: "nick".to_string(),
                user: "user".to_string(),
                server: "server".to_string()
            })),
            Command::General("COMMAND".to_string()),
            None,
            None
        ),
        message
    );
}

#[test]
fn parse_size_512() {
    let command = vec![b'A'; 510];
    let raw = [&command[..], &b"\r\n"[..]].concat();

    let Ok(Some((message, _))) = Message::parse(&raw[..]) else {
        panic!("Unable to parse 512-byte message")
    };

    assert_eq!(
        Message::new_unchecked(
            None,
            Command::General(String::from_utf8(command).unwrap()),
            None,
            None
        ),
        message
    );
}

#[test]
fn parse_size_over_512() {
    let command = vec![b'A'; 511];
    let raw = [&command[..], &b"\r\n"[..]].concat();

    if let Ok(Some((message, _))) = Message::parse(&raw[..]) {
        panic!("Somehow parsed >512-byte message: {:?}", message)
    }
}

#[test]
fn serialize_message() {
    let message = Message::new_unchecked(
        Some(Prefix::Server("server".to_string())),
        Command::General("Command".to_string()),
        Some(vec!["foo".to_string(), "bar".to_string()]),
        Some("baz".to_string()),
    );

    assert_eq!(
        b":server Command foo bar :baz\r\n",
        &message.to_bytes().unwrap()[..]
    );
}

#[test]
fn serialize_size_512_message() {
    // every field is in play so that each contribution is accounted for:
    // `:server `=8, `Command`=7, ` foo bar`=8, ` :`=2, crlf=2
    let message = Message::new_unchecked(
        Some(Prefix::Server("server".to_string())),
        Command::General("Command".to_string()),
        Some(vec!["foo".to_string(), "bar".to_string()]),
        Some("q".repeat(512 - 8 - 7 - 8 - 2 - 2)),
    );

    let bytes = message.to_bytes().unwrap();

    assert_eq!(512, bytes.len());
    assert_eq!(512, bytes.capacity());
}

#[test]
fn serialize_over_size_512_message() {
    let message = Message::new_unchecked(
        Some(Prefix::Server("server".to_string())),
        Command::General("Command".to_string()),
        Some(vec!["foo".to_string(), "bar".to_string()]),
        Some("q".repeat(512 - 8 - 7 - 8 - 2 - 2 + 1)),
    );

    if let Ok(bytes) = message.to_bytes() {
        panic!(
            "Somehow parsed >512-byte message: {:?}",
            String::from_utf8_lossy(&bytes[..])
        )
    }
}
