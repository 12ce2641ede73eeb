use mini_redis::cmd::{Applied, Expiry, Get, Ping, Publish, SetCommand, Subscribe, Unknown, Unsubscribe};
use mini_redis::connection::{parse_frame, write_frame};
use mini_redis::server::error_reply;
use mini_redis::{Command, Db, Frame, Parse, ParseError};

fn encode(frame: &Frame) -> Vec<u8> {
    let mut out = Vec::new();
    write_frame(&mut out, frame);
    out
}

fn bulk(text: &str) -> Frame {
    Frame::Bulk(text.as_bytes().to_vec())
}

fn request(words: &[&str]) -> Frame {
    Frame::Array(words.iter().map(|w| bulk(w)).collect())
}

#[test]
fn parse_needs_an_array() {
    assert!(matches!(Parse::new(Frame::Null), Err(ParseError::Other(_))));
    assert!(matches!(Parse::new(bulk("get")), Err(ParseError::Other(_))));
    assert!(Parse::new(Frame::Array(Vec::new())).is_ok());
    match Parse::new(Frame::Integer(3)) {
        Err(e) => assert_eq!(e.to_string(), "protocol error; expected array, got Integer(3)"),
        Ok(_) => panic!("accepted"),
    }
}

#[test]
fn parse_reads_in_order() {
    let frame = Frame::Array(vec![
        Frame::Simple("one".to_string()),
        bulk("two"),
        Frame::Integer(3),
        bulk("4"),
        Frame::Simple("5".to_string()),
    ]);
    let mut parse = Parse::new(frame).unwrap();
    assert_eq!(parse.next_string().unwrap(), "one");
    assert_eq!(parse.next_bytes().unwrap(), b"two".to_vec());
    assert!(parse.finish().is_err());
    assert_eq!(parse.next_int().unwrap(), 3);
    assert_eq!(parse.next_int().unwrap(), 4);
    assert_eq!(parse.next_int().unwrap(), 5);
    assert!(parse.finish().is_ok());
    assert!(matches!(parse.next_string(), Err(ParseError::EndOfStream)));
    assert!(matches!(parse.next_bytes(), Err(ParseError::EndOfStream)));
    assert!(matches!(parse.next_int(), Err(ParseError::EndOfStream)));
    assert!(matches!(parse.next(), Err(ParseError::EndOfStream)));
}

#[test]
fn parse_rejects_wrong_kinds() {
    let frame = Frame::Array(vec![
        Frame::Integer(1),
        Frame::Null,
        Frame::Bulk(vec![0xff]),
        bulk("12x"),
        Frame::Simple("".to_string()),
        Frame::Error("e".to_string()),
        Frame::Array(Vec::new()),
        Frame::Simple("s".to_string()),
    ]);
    let mut parse = Parse::new(frame).unwrap();
    assert!(matches!(parse.next_string(), Err(ParseError::Other(_))));
    assert!(matches!(parse.next_bytes(), Err(ParseError::Other(_))));
    assert!(matches!(parse.next_string(), Err(ParseError::Other(_))));
    assert!(matches!(parse.next_int(), Err(ParseError::Other(_))));
    assert!(matches!(parse.next_int(), Err(ParseError::Other(_))));
    assert!(matches!(parse.next_int(), Err(ParseError::Other(_))));
    assert!(matches!(parse.next_bytes(), Err(ParseError::Other(_))));
    assert_eq!(parse.next_bytes().unwrap(), b"s".to_vec());
    assert!(parse.finish().is_ok());
}

#[test]
fn parse_errors_as_text() {
    assert_eq!(ParseError::EndOfStream.to_string(), "protocol error; unexpected end of stream");
    assert_eq!(ParseError::other("x").to_string(), "x");
    let mut parse = Parse::new(Frame::Array(vec![Frame::Null, bulk("x")])).unwrap();
    match parse.next_string() {
        Err(e) => assert_eq!(
            e.to_string(),
            "protocol error; expected simple frame or bulk frame, got Null"
        ),
        Ok(_) => panic!("accepted"),
    }
    match parse.finish() {
        Err(e) => assert_eq!(
            e.to_string(),
            "protocol error; expected end of frame, but there was more"
        ),
        Ok(_) => panic!("accepted"),
    }
}

#[test]
fn command_get() {
    match Command::from_frame(request(&["get", "foo"])).unwrap() {
        Command::Get(cmd) => assert_eq!(cmd.key, "foo"),
        other => panic!("{:?}", other),
    }
    assert!(matches!(Command::from_frame(request(&["get"])), Err(ParseError::EndOfStream)));
    assert!(matches!(
        Command::from_frame(request(&["get", "a", "b"])),
        Err(ParseError::Other(_))
    ));
}

#[test]
fn command_names_count_in_any_case() {
    assert!(matches!(Command::from_frame(request(&["GET", "k"])), Ok(Command::Get(_))));
    assert!(matches!(Command::from_frame(request(&["PiNg"])), Ok(Command::Ping(_))));
    assert!(matches!(
        Command::from_frame(request(&["Set", "k", "v"])),
        Ok(Command::SetCommand(_))
    ));
    assert!(matches!(
        Command::from_frame(request(&["PUBLISH", "c", "m"])),
        Ok(Command::Publish(_))
    ));
    assert!(matches!(
        Command::from_frame(request(&["SUBSCRIBE", "c"])),
        Ok(Command::Subscribe(_))
    ));
    assert!(matches!(
        Command::from_frame(request(&["unSubscribe"])),
        Ok(Command::Unsubscribe(_))
    ));
    assert!(matches!(
        Command::from_frame(Frame::Array(vec![Frame::Simple("get".to_string()), bulk("k")])),
        Ok(Command::Get(_))
    ));
}

#[test]
fn command_from_name_wants_lower_case() {
    let mut parse = Parse::new(request(&["k"])).unwrap();
    assert!(matches!(Command::from_name("get", &mut parse), Ok(Command::Get(_))));
    let mut parse = Parse::new(request(&["k"])).unwrap();
    match Command::from_name("GET", &mut parse) {
        Ok(Command::Unknown(cmd)) => assert_eq!(cmd.get_name(), "GET"),
        other => panic!("{:?}", other),
    }
}

#[test]
fn command_needs_a_name() {
    assert!(matches!(Command::from_frame(Frame::Array(Vec::new())), Err(ParseError::EndOfStream)));
    assert!(matches!(Command::from_frame(Frame::Null), Err(ParseError::Other(_))));
    assert!(matches!(
        Command::from_frame(Frame::Array(vec![Frame::Integer(1)])),
        Err(ParseError::Other(_))
    ));
}

#[test]
fn command_unknown_keeps_its_arguments_unread() {
    match Command::from_frame(request(&["BoGuS", "a", "b"])).unwrap() {
        Command::Unknown(cmd) => {
            assert_eq!(cmd.get_name(), "bogus");
            assert_eq!(cmd.command_name, "bogus");
        }
        other => panic!("{:?}", other),
    }
}

#[test]
fn command_set_plain() {
    match Command::from_frame(request(&["set", "k", "v"])).unwrap() {
        Command::SetCommand(cmd) => {
            assert_eq!(cmd.key, "k");
            assert_eq!(cmd.value, b"v".to_vec());
            assert_eq!(cmd.expire, None);
        }
        other => panic!("{:?}", other),
    }
}

#[test]
fn command_set_with_expiry() {
    match Command::from_frame(request(&["set", "k", "v", "EX", "10"])).unwrap() {
        Command::SetCommand(cmd) => assert_eq!(cmd.expire, Some(Expiry::Seconds(10))),
        other => panic!("{:?}", other),
    }
    match Command::from_frame(request(&["set", "k", "v", "px", "100"])).unwrap() {
        Command::SetCommand(cmd) => assert_eq!(cmd.expire, Some(Expiry::Millis(100))),
        other => panic!("{:?}", other),
    }
    match Command::from_frame(request(&["set", "k", "v", "Px", "0"])).unwrap() {
        Command::SetCommand(cmd) => assert_eq!(cmd.expire, Some(Expiry::Millis(0))),
        other => panic!("{:?}", other),
    }
    let with_integer = Frame::Array(vec![bulk("set"), bulk("k"), bulk("v"), bulk("ex"), Frame::Integer(5)]);
    match Command::from_frame(with_integer).unwrap() {
        Command::SetCommand(cmd) => assert_eq!(cmd.expire, Some(Expiry::Seconds(5))),
        other => panic!("{:?}", other),
    }
}

#[test]
fn command_set_rejects() {
    assert!(matches!(Command::from_frame(request(&["set"])), Err(ParseError::EndOfStream)));
    assert!(matches!(Command::from_frame(request(&["set", "k"])), Err(ParseError::EndOfStream)));
    assert!(matches!(
        Command::from_frame(request(&["set", "k", "v", "ex"])),
        Err(ParseError::EndOfStream)
    ));
    assert!(matches!(
        Command::from_frame(request(&["set", "k", "v", "ex", "soon"])),
        Err(ParseError::Other(_))
    ));
    assert!(matches!(
        Command::from_frame(request(&["set", "k", "v", "ex", "-1"])),
        Err(ParseError::Other(_))
    ));
    assert!(matches!(
        Command::from_frame(request(&["set", "k", "v", "ex", "1", "px", "2"])),
        Err(ParseError::Other(_))
    ));
    match Command::from_frame(request(&["set", "k", "v", "nx"])) {
        Err(e) => assert_eq!(e.to_string(), "currently `SET` only supports the expiration option"),
        Ok(_) => panic!("accepted"),
    }
}

#[test]
fn set_option_takes_upper_case() {
    let mut parse = Parse::new(request(&["7"])).unwrap();
    assert_eq!(SetCommand::parse_expiry("EX", &mut parse).unwrap(), Expiry::Seconds(7));
    let mut parse = Parse::new(request(&["7"])).unwrap();
    assert_eq!(SetCommand::parse_expiry("PX", &mut parse).unwrap(), Expiry::Millis(7));
    let mut parse = Parse::new(request(&["7"])).unwrap();
    assert!(matches!(SetCommand::parse_expiry("ex", &mut parse), Err(ParseError::Other(_))));
    let mut parse = Parse::new(request(&[])).unwrap();
    assert!(matches!(SetCommand::parse_expiry("EX", &mut parse), Err(ParseError::EndOfStream)));
}

#[test]
fn expiry_in_millis() {
    assert_eq!(Expiry::Seconds(2).as_millis(), 2000);
    assert_eq!(Expiry::Millis(2).as_millis(), 2);
    assert_eq!(Expiry::Seconds(u64::MAX).as_millis(), 18446744073709551615000u128);
}

#[test]
fn command_publish() {
    match Command::from_frame(request(&["publish", "ch", "hello"])).unwrap() {
        Command::Publish(cmd) => {
            assert_eq!(cmd.channel, "ch");
            assert_eq!(cmd.message, b"hello".to_vec());
        }
        other => panic!("{:?}", other),
    }
    assert!(matches!(
        Command::from_frame(request(&["publish", "ch"])),
        Err(ParseError::EndOfStream)
    ));
}

#[test]
fn command_ping() {
    match Command::from_frame(request(&["ping"])).unwrap() {
        Command::Ping(cmd) => assert_eq!(cmd.msg, None),
        other => panic!("{:?}", other),
    }
    match Command::from_frame(request(&["ping", "hi"])).unwrap() {
        Command::Ping(cmd) => assert_eq!(cmd.msg, Some("hi".to_string())),
        other => panic!("{:?}", other),
    }
    assert!(matches!(
        Command::from_frame(request(&["ping", "a", "b"])),
        Err(ParseError::Other(_))
    ));
    assert!(matches!(
        Command::from_frame(Frame::Array(vec![bulk("ping"), Frame::Integer(1)])),
        Err(ParseError::Other(_))
    ));
    assert_eq!(Ping::default().msg, None);
}

#[test]
fn command_subscribe_and_unsubscribe() {
    match Command::from_frame(request(&["subscribe", "a", "b", "a"])).unwrap() {
        Command::Subscribe(cmd) => assert_eq!(cmd.channels, vec!["a", "b", "a"]),
        other => panic!("{:?}", other),
    }
    assert!(matches!(
        Command::from_frame(request(&["subscribe"])),
        Err(ParseError::EndOfStream)
    ));
    assert!(matches!(
        Command::from_frame(Frame::Array(vec![bulk("subscribe"), bulk("a"), Frame::Null])),
        Err(ParseError::Other(_))
    ));
    match Command::from_frame(request(&["unsubscribe"])).unwrap() {
        Command::Unsubscribe(cmd) => assert!(cmd.channels.is_empty()),
        other => panic!("{:?}", other),
    }
    match Command::from_frame(request(&["unsubscribe", "x", "y"])).unwrap() {
        Command::Unsubscribe(cmd) => assert_eq!(cmd.channels, vec!["x", "y"]),
        other => panic!("{:?}", other),
    }
    assert!(matches!(
        Command::from_frame(Frame::Array(vec![bulk("unsubscribe"), Frame::Integer(1)])),
        Err(ParseError::Other(_))
    ));
}

#[test]
fn command_names() {
    assert_eq!(Command::Get(Get::new("k")).get_name(), "get");
    assert_eq!(Command::Publish(Publish::new("c", Vec::new())).get_name(), "pub");
    assert_eq!(Command::SetCommand(SetCommand::new("k", Vec::new(), None)).get_name(), "set");
    assert_eq!(Command::Subscribe(Subscribe::new(&[])).get_name(), "subscribe");
    assert_eq!(Command::Unsubscribe(Unsubscribe::new(&[])).get_name(), "unsubscribe");
    assert_eq!(Command::Ping(Ping::new(None)).get_name(), "ping");
    assert_eq!(Command::Unknown(Unknown::new("what")).get_name(), "what");
}

#[test]
fn commands_as_frames() {
    assert_eq!(encode(&Get::new("foo").into_frame()), b"*2\r\n$3\r\nget\r\n$3\r\nfoo\r\n".to_vec());
    assert_eq!(encode(&Ping::new(None).into_frame()), b"*1\r\n$4\r\nping\r\n".to_vec());
    assert_eq!(
        encode(&Ping::new(Some("hi".to_string())).into_frame()),
        b"*2\r\n$4\r\nping\r\n$2\r\nhi\r\n".to_vec()
    );
    assert_eq!(
        encode(&Publish::new("ch", b"m".to_vec()).into_frame()),
        b"*3\r\n$7\r\npublish\r\n$2\r\nch\r\n$1\r\nm\r\n".to_vec()
    );
    assert_eq!(
        encode(&SetCommand::new("k", b"v".to_vec(), None).into_frame()),
        b"*3\r\n$3\r\nset\r\n$1\r\nk\r\n$1\r\nv\r\n".to_vec()
    );
    assert_eq!(
        encode(&SetCommand::new("k", b"v".to_vec(), Some(Expiry::Millis(100))).into_frame()),
        b"*5\r\n$3\r\nset\r\n$1\r\nk\r\n$1\r\nv\r\n$2\r\npx\r\n:100\r\n".to_vec()
    );
    assert_eq!(
        encode(&SetCommand::new("k", b"v".to_vec(), Some(Expiry::Seconds(5))).into_frame()),
        b"*5\r\n$3\r\nset\r\n$1\r\nk\r\n$1\r\nv\r\n$2\r\npx\r\n:5000\r\n".to_vec()
    );
    assert_eq!(
        encode(&SetCommand::new("k", b"v".to_vec(), Some(Expiry::Seconds(u64::MAX))).into_frame()),
        b"*5\r\n$3\r\nset\r\n$1\r\nk\r\n$1\r\nv\r\n$2\r\nex\r\n:18446744073709551615\r\n".to_vec()
    );
    let channels = vec!["a".to_string(), "bc".to_string()];
    assert_eq!(
        encode(&Subscribe::new(&channels).into_frame()),
        b"*3\r\n$9\r\nsubscribe\r\n$1\r\na\r\n$2\r\nbc\r\n".to_vec()
    );
    assert_eq!(
        encode(&Unsubscribe::new(&channels).into_frame()),
        b"*3\r\n$11\r\nunsubscribe\r\n$1\r\na\r\n$2\r\nbc\r\n".to_vec()
    );
    assert_eq!(
        encode(&Unsubscribe::new(&[]).into_frame()),
        b"*1\r\n$11\r\nunsubscribe\r\n".to_vec()
    );
}

#[test]
fn commands_come_back_from_their_frames() {
    let frame = SetCommand::new("k", b"v".to_vec(), Some(Expiry::Millis(7))).into_frame();
    match Command::from_frame(frame).unwrap() {
        Command::SetCommand(cmd) => {
            assert_eq!(cmd.key, "k");
            assert_eq!(cmd.value, b"v".to_vec());
            assert_eq!(cmd.expire, Some(Expiry::Millis(7)));
        }
        other => panic!("{:?}", other),
    }
    let frame = Subscribe::new(&["x".to_string()]).into_frame();
    assert!(matches!(Command::from_frame(frame), Ok(Command::Subscribe(_))));
}

fn reply_of(db: &mut Db, request_bytes: &[u8], now: u64) -> Vec<u8> {
    let (frame, used) = parse_frame(request_bytes).unwrap().unwrap();
    assert_eq!(used, request_bytes.len());
    let command = Command::from_frame(frame).unwrap();
    match command.apply(db, now) {
        Applied::Reply { frame, .. } => encode(&frame),
        Applied::Subscribe(_) => panic!("subscribe"),
    }
}

#[test]
fn set_then_get() {
    let mut db = Db::new();
    assert_eq!(
        reply_of(&mut db, b"*3\r\n$3\r\nset\r\n$3\r\nfoo\r\n$3\r\nbar\r\n", 0),
        b"+OK\r\n".to_vec()
    );
    assert_eq!(reply_of(&mut db, b"*2\r\n$3\r\nget\r\n$3\r\nfoo\r\n", 0), b"$3\r\nbar\r\n".to_vec());
}

#[test]
fn get_missing() {
    let mut db = Db::new();
    assert_eq!(reply_of(&mut db, b"*2\r\n$3\r\nget\r\n$3\r\nnop\r\n", 0), b"$-1\r\n".to_vec());
}

#[test]
fn set_px_then_expire() {
    let mut db = Db::new();
    let start = 1_000;
    assert_eq!(
        reply_of(&mut db, b"*5\r\n$3\r\nset\r\n$1\r\nk\r\n$1\r\nv\r\n$2\r\nPX\r\n$3\r\n100\r\n", start),
        b"+OK\r\n".to_vec()
    );
    assert_eq!(reply_of(&mut db, b"*2\r\n$3\r\nget\r\n$1\r\nk\r\n", start), b"$1\r\nv\r\n".to_vec());
    assert_eq!(db.purge_expired_keys(start), Some(1_100));
    assert_eq!(reply_of(&mut db, b"*2\r\n$3\r\nget\r\n$1\r\nk\r\n", start), b"$1\r\nv\r\n".to_vec());
    assert_eq!(db.purge_expired_keys(start + 200), None);
    assert_eq!(
        reply_of(&mut db, b"*2\r\n$3\r\nget\r\n$1\r\nk\r\n", start + 200),
        b"$-1\r\n".to_vec()
    );
}

#[test]
fn publish_without_subscribers() {
    let mut db = Db::new();
    assert_eq!(
        reply_of(&mut db, b"*3\r\n$7\r\npublish\r\n$3\r\nch1\r\n$2\r\nhi\r\n", 0),
        b":0\r\n".to_vec()
    );
}

#[test]
fn ping_answers() {
    let mut db = Db::new();
    assert_eq!(reply_of(&mut db, b"*1\r\n$4\r\nping\r\n", 0), b"+PONG\r\n".to_vec());
    assert_eq!(reply_of(&mut db, b"*2\r\n$4\r\nping\r\n$2\r\nhi\r\n", 0), b"$2\r\nhi\r\n".to_vec());
}

#[test]
fn unknown_command_answers_with_error() {
    let mut db = Db::new();
    assert_eq!(
        reply_of(&mut db, b"*1\r\n$5\r\nbogus\r\n", 0),
        b"-ERR unknown command 'bogus'\r\n".to_vec()
    );
    assert_eq!(
        reply_of(&mut db, b"*2\r\n$5\r\nBOGUS\r\n$1\r\nx\r\n", 0),
        b"-ERR unknown command 'bogus'\r\n".to_vec()
    );
}

#[test]
fn unsubscribe_outside_of_listening_is_an_error() {
    let mut db = Db::new();
    assert_eq!(
        reply_of(&mut db, b"*1\r\n$11\r\nunsubscribe\r\n", 0),
        b"-ERR `Unsubscribe` is unsupported in this context\r\n".to_vec()
    );
}

#[test]
fn subscribe_hands_over() {
    let mut db = Db::new();
    let command = Command::from_frame(request(&["subscribe", "a", "b"])).unwrap();
    match command.apply(&mut db, 0) {
        Applied::Subscribe(cmd) => assert_eq!(cmd.channels, vec!["a", "b"]),
        Applied::Reply { .. } => panic!("reply"),
    }
}

#[test]
fn apply_reports_the_wake() {
    let mut db = Db::new();
    let set = |key: &str, expire| Command::SetCommand(SetCommand::new(key, b"v".to_vec(), expire));
    assert!(matches!(set("a", None).apply(&mut db, 0), Applied::Reply { wake: false, .. }));
    assert!(matches!(
        set("b", Some(Expiry::Seconds(10))).apply(&mut db, 0),
        Applied::Reply { wake: true, .. }
    ));
    assert!(matches!(
        set("c", Some(Expiry::Seconds(20))).apply(&mut db, 0),
        Applied::Reply { wake: false, .. }
    ));
    assert!(matches!(
        set("d", Some(Expiry::Millis(10))).apply(&mut db, 0),
        Applied::Reply { wake: true, .. }
    ));
    assert!(matches!(
        Command::Get(Get::new("a")).apply(&mut db, 0),
        Applied::Reply { wake: false, .. }
    ));
}

#[test]
fn command_that_cannot_be_read_is_told() {
    let error = Command::from_frame(request(&["get"])).unwrap_err();
    assert_eq!(
        encode(&error_reply(&error)),
        b"-protocol error; unexpected end of stream\r\n".to_vec()
    );
}

#[test]
fn errors_from_text() {
    let e: ParseError = "why".to_string().into();
    assert!(matches!(e, ParseError::Other(ref t) if t == "why"));
    let e = mini_redis::FrameError::from("because".to_string());
    assert_eq!(e.to_string(), "because");
}

#[test]
fn error_for_a_frame_of_the_wrong_kind() {
    assert_eq!(
        ParseError::expected("array", "Null").to_string(),
        "protocol error; expected array, got Null"
    );
    match Parse::new(Frame::Bulk(vec![1, 2])) {
        Err(e) => assert_eq!(e.to_string(), "protocol error; expected array, got Bulk([1, 2])"),
        Ok(_) => panic!("accepted"),
    }
    match Parse::new(Frame::Simple("a\"b".to_string())) {
        Err(e) => assert_eq!(e.to_string(), "protocol error; expected array, got Simple(\"a\\\"b\")"),
        Ok(_) => panic!("accepted"),
    }
}
