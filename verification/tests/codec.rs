use mini_redis::connection::{closed_with, parse_frame, write_frame, Closed};
use mini_redis::decimal::{to_u64, write_decimal};
use mini_redis::frame::{get_decimal, get_line, get_u8, peek_u8, skip};
use mini_redis::{Cursor, Frame, FrameError};

fn encode(frame: &Frame) -> Vec<u8> {
    let mut out = Vec::new();
    write_frame(&mut out, frame);
    out
}

fn parse_all(bytes: &[u8]) -> Result<(Frame, usize), FrameError> {
    let mut cursor = Cursor::new(bytes);
    let frame = Frame::parse(&mut cursor)?;
    Ok((frame, cursor.position()))
}

fn check_all(bytes: &[u8]) -> Result<usize, FrameError> {
    let mut cursor = Cursor::new(bytes);
    Frame::check(&mut cursor)?;
    Ok(cursor.position())
}

#[test]
fn decimal_reads_digits() {
    assert_eq!(to_u64(b"0"), Some(0));
    assert_eq!(to_u64(b"42"), Some(42));
    assert_eq!(to_u64(b"0042"), Some(42));
    assert_eq!(to_u64(b"18446744073709551615"), Some(u64::MAX));
}

#[test]
fn decimal_rejects_what_is_no_number() {
    assert_eq!(to_u64(b""), None);
    assert_eq!(to_u64(b"-1"), None);
    assert_eq!(to_u64(b"+5"), None);
    assert_eq!(to_u64(b"12a"), None);
    assert_eq!(to_u64(b" 12"), None);
    assert_eq!(to_u64(b"18446744073709551616"), None);
    assert_eq!(to_u64(b"99999999999999999999999"), None);
}

#[test]
fn decimal_writes_digits() {
    let mut out = vec![b'x'];
    write_decimal(&mut out, 0);
    write_decimal(&mut out, 7);
    write_decimal(&mut out, 1024);
    write_decimal(&mut out, u64::MAX);
    assert_eq!(out, b"x07102418446744073709551615".to_vec());
}

#[test]
fn cursor_reads_bytes() {
    let mut cursor = Cursor::new(b"ab");
    assert!(matches!(peek_u8(&mut cursor), Ok(b'a')));
    assert_eq!(cursor.position(), 0);
    assert!(matches!(get_u8(&mut cursor), Ok(b'a')));
    assert!(matches!(get_u8(&mut cursor), Ok(b'b')));
    assert_eq!(cursor.position(), 2);
    assert!(matches!(peek_u8(&mut cursor), Err(FrameError::Incomplete)));
    assert!(matches!(get_u8(&mut cursor), Err(FrameError::Incomplete)));
    assert_eq!(cursor.remaining(), 0);
}

#[test]
fn cursor_skips_bytes() {
    let mut cursor = Cursor::new(b"abcd");
    assert!(skip(&mut cursor, 3).is_ok());
    assert_eq!(cursor.position(), 3);
    assert!(matches!(skip(&mut cursor, 2), Err(FrameError::Incomplete)));
    assert_eq!(cursor.position(), 3);
    assert!(skip(&mut cursor, 1).is_ok());
    assert_eq!(cursor.remaining(), 0);
    cursor.set_position(9);
    assert_eq!(cursor.remaining(), 0);
    assert!(matches!(get_u8(&mut cursor), Err(FrameError::Incomplete)));
}

#[test]
fn cursor_reads_lines() {
    let mut cursor = Cursor::new(b"one\r\ntw\ro\r\n\r\nrest");
    assert_eq!(get_line(&mut cursor).unwrap(), b"one");
    assert_eq!(cursor.position(), 5);
    assert_eq!(get_line(&mut cursor).unwrap(), b"tw\ro");
    assert_eq!(get_line(&mut cursor).unwrap(), b"");
    assert!(matches!(get_line(&mut cursor), Err(FrameError::Incomplete)));
    assert_eq!(cursor.position(), 13);
    let mut empty = Cursor::new(b"");
    assert!(matches!(get_line(&mut empty), Err(FrameError::Incomplete)));
    let mut lone = Cursor::new(b"\r");
    assert!(matches!(get_line(&mut lone), Err(FrameError::Incomplete)));
}

#[test]
fn cursor_reads_decimal_lines() {
    let mut cursor = Cursor::new(b"123\r\nx1\r\n\r\n9");
    assert!(matches!(get_decimal(&mut cursor), Ok(123)));
    assert!(matches!(get_decimal(&mut cursor), Err(FrameError::Other(_))));
    assert!(matches!(get_decimal(&mut cursor), Err(FrameError::Other(_))));
    assert!(matches!(get_decimal(&mut cursor), Err(FrameError::Incomplete)));
}

#[test]
fn parse_simple() {
    let (frame, used) = parse_all(b"+OK\r\n").unwrap();
    assert!(matches!(frame, Frame::Simple(ref s) if s == "OK"));
    assert_eq!(used, 5);
}

#[test]
fn parse_error_frame() {
    let (frame, used) = parse_all(b"-ERR nope\r\nmore").unwrap();
    assert!(matches!(frame, Frame::Error(ref s) if s == "ERR nope"));
    assert_eq!(used, 11);
}

#[test]
fn parse_integer() {
    let (frame, used) = parse_all(b":1000\r\n").unwrap();
    assert!(matches!(frame, Frame::Integer(1000)));
    assert_eq!(used, 7);
    assert!(matches!(parse_all(b":-1\r\n"), Err(FrameError::Other(_))));
    assert!(matches!(parse_all(b":\r\n"), Err(FrameError::Other(_))));
    assert!(matches!(parse_all(b":12"), Err(FrameError::Incomplete)));
}

#[test]
fn parse_bulk() {
    let (frame, used) = parse_all(b"$5\r\nhe\r\no\r\n").unwrap();
    assert!(matches!(frame, Frame::Bulk(ref b) if b == b"he\r\no"));
    assert_eq!(used, 11);
    let (frame, used) = parse_all(b"$0\r\n\r\n").unwrap();
    assert!(matches!(frame, Frame::Bulk(ref b) if b.is_empty()));
    assert_eq!(used, 6);
}

#[test]
fn parse_bulk_incomplete() {
    assert!(matches!(parse_all(b"$"), Err(FrameError::Incomplete)));
    assert!(matches!(parse_all(b"$5"), Err(FrameError::Incomplete)));
    assert!(matches!(parse_all(b"$5\r\nhel"), Err(FrameError::Incomplete)));
    assert!(matches!(parse_all(b"$5\r\nhello"), Err(FrameError::Incomplete)));
    assert!(matches!(parse_all(b"$5\r\nhello\r"), Err(FrameError::Incomplete)));
    assert!(matches!(parse_all(b"$18446744073709551615\r\nab"), Err(FrameError::Incomplete)));
}

#[test]
fn parse_null() {
    let (frame, used) = parse_all(b"$-1\r\n").unwrap();
    assert!(matches!(frame, Frame::Null));
    assert_eq!(used, 5);
    assert!(matches!(parse_all(b"$-2\r\n"), Err(FrameError::Other(_))));
    assert!(matches!(parse_all(b"$-12\r\n"), Err(FrameError::Other(_))));
    assert!(matches!(parse_all(b"$-1"), Err(FrameError::Incomplete)));
}

#[test]
fn parse_array() {
    let (frame, used) = parse_all(b"*3\r\n$3\r\nset\r\n:7\r\n+x\r\n").unwrap();
    assert_eq!(used, 21);
    match frame {
        Frame::Array(items) => {
            assert_eq!(items.len(), 3);
            assert!(matches!(items[0], Frame::Bulk(ref b) if b == b"set"));
            assert!(matches!(items[1], Frame::Integer(7)));
            assert!(matches!(items[2], Frame::Simple(ref s) if s == "x"));
        }
        other => panic!("not an array: {:?}", other),
    }
    let (frame, used) = parse_all(b"*0\r\n").unwrap();
    assert!(matches!(frame, Frame::Array(ref items) if items.is_empty()));
    assert_eq!(used, 4);
}

#[test]
fn parse_nested_array() {
    let bytes = b"*2\r\n*2\r\n:1\r\n$-1\r\n*0\r\n";
    let (frame, used) = parse_all(bytes).unwrap();
    assert_eq!(used, bytes.len());
    assert_eq!(encode(&frame), bytes.to_vec());
}

#[test]
fn parse_array_incomplete_or_malformed() {
    assert!(matches!(parse_all(b"*2\r\n:1\r\n"), Err(FrameError::Incomplete)));
    assert!(matches!(parse_all(b"*2\r\n:1\r\n?"), Err(FrameError::Other(_))));
    assert!(matches!(parse_all(b"*x\r\n"), Err(FrameError::Other(_))));
    assert!(matches!(parse_all(b"*18446744073709551615\r\n"), Err(FrameError::Incomplete)));
}

#[test]
fn parse_rejects_unknown_type_byte() {
    assert!(matches!(parse_all(b"?what\r\n"), Err(FrameError::Other(_))));
    match check_all(b"!\r\n") {
        Err(e) => assert_eq!(e.to_string(), "protocol error; invalid frame type byte `33`"),
        Ok(_) => panic!("accepted"),
    }
}

#[test]
fn parse_rejects_text_that_is_not_utf8() {
    assert!(matches!(parse_all(b"+\xff\r\n"), Err(FrameError::Other(_))));
    assert!(matches!(parse_all(b"-\xc3\r\n"), Err(FrameError::Other(_))));
    let (frame, _) = parse_all("+gr\u{fc}n\r\n".as_bytes()).unwrap();
    assert!(matches!(frame, Frame::Simple(ref s) if s == "gr\u{fc}n"));
}

#[test]
fn parse_empty_is_incomplete() {
    assert!(matches!(parse_all(b""), Err(FrameError::Incomplete)));
    assert!(matches!(check_all(b""), Err(FrameError::Incomplete)));
    assert!(matches!(parse_all(b"+OK"), Err(FrameError::Incomplete)));
    assert!(matches!(parse_all(b"+OK\r"), Err(FrameError::Incomplete)));
}

#[test]
fn check_ends_where_parse_ends() {
    let inputs: Vec<&[u8]> = vec![
        b"+OK\r\n",
        b"-ERR\r\nxx",
        b":12\r\n",
        b"$3\r\nabc\r\n",
        b"$-1\r\n",
        b"*2\r\n$1\r\na\r\n*1\r\n:5\r\n+tail\r\n",
        b"*0\r\n",
    ];
    for bytes in inputs {
        let checked = check_all(bytes).unwrap();
        let (_, parsed) = parse_all(bytes).unwrap();
        assert_eq!(checked, parsed);
        assert!(checked > 0 && checked <= bytes.len());
    }
}

#[test]
fn check_and_parse_fail_alike() {
    let incomplete: Vec<&[u8]> = vec![b"", b"+a", b":1", b"$3\r\nab", b"$-1", b"$-", b"*1\r\n", b"*2\r\n+a\r\n"];
    for bytes in incomplete {
        assert!(matches!(check_all(bytes), Err(FrameError::Incomplete)));
        assert!(matches!(parse_all(bytes), Err(FrameError::Incomplete)));
    }
    let malformed: Vec<&[u8]> = vec![b"x", b":a\r\n", b"$a\r\n", b"*-1\r\n", b"*1\r\n~"];
    for bytes in malformed {
        assert!(matches!(check_all(bytes), Err(FrameError::Other(_))));
        assert!(matches!(parse_all(bytes), Err(FrameError::Other(_))));
    }
}

#[test]
fn check_does_not_look_into_texts() {
    assert_eq!(check_all(b"+\xff\r\n").unwrap(), 4);
    assert!(matches!(parse_all(b"+\xff\r\n"), Err(FrameError::Other(_))));
    assert_eq!(check_all(b"$-12\r\n").unwrap(), 6);
    assert!(matches!(parse_all(b"$-12\r\n"), Err(FrameError::Other(_))));
    assert!(matches!(check_all(b"$-abc"), Err(FrameError::Incomplete)));
    assert!(matches!(parse_all(b"$-abc"), Err(FrameError::Incomplete)));
}

#[test]
fn write_each_kind() {
    assert_eq!(encode(&Frame::Simple("OK".to_string())), b"+OK\r\n".to_vec());
    assert_eq!(encode(&Frame::Error("ERR x".to_string())), b"-ERR x\r\n".to_vec());
    assert_eq!(encode(&Frame::Integer(0)), b":0\r\n".to_vec());
    assert_eq!(encode(&Frame::Integer(u64::MAX)), b":18446744073709551615\r\n".to_vec());
    assert_eq!(encode(&Frame::Bulk(b"bar".to_vec())), b"$3\r\nbar\r\n".to_vec());
    assert_eq!(encode(&Frame::Bulk(Vec::new())), b"$0\r\n\r\n".to_vec());
    assert_eq!(encode(&Frame::Null), b"$-1\r\n".to_vec());
    assert_eq!(encode(&Frame::Array(Vec::new())), b"*0\r\n".to_vec());
    let array = Frame::Array(vec![Frame::Bulk(b"get".to_vec()), Frame::Bulk(b"foo".to_vec())]);
    assert_eq!(encode(&array), b"*2\r\n$3\r\nget\r\n$3\r\nfoo\r\n".to_vec());
}

#[test]
fn write_appends() {
    let mut out = b"+a\r\n".to_vec();
    write_frame(&mut out, &Frame::Integer(5));
    assert_eq!(out, b"+a\r\n:5\r\n".to_vec());
}

#[test]
fn written_frames_are_read_back() {
    let frames = vec![
        Frame::Simple("hello world".to_string()),
        Frame::Simple(String::new()),
        Frame::Simple("a\rb\nc".to_string()),
        Frame::Error("ERR \u{1f980}".to_string()),
        Frame::Integer(0),
        Frame::Integer(18446744073709551615),
        Frame::Bulk(vec![0, 13, 10, 255, 36, 42]),
        Frame::Bulk(Vec::new()),
        Frame::Null,
        Frame::Array(Vec::new()),
        Frame::Array(vec![
            Frame::Bulk(b"set".to_vec()),
            Frame::Array(vec![Frame::Null, Frame::Integer(3), Frame::Array(Vec::new())]),
            Frame::Simple("x".to_string()),
        ]),
    ];
    for frame in frames {
        let bytes = encode(&frame);
        let (back, used) = parse_all(&bytes).unwrap();
        assert_eq!(used, bytes.len());
        assert_eq!(encode(&back), bytes);
        assert_eq!(format!("{:?}", back), format!("{:?}", frame));
        let mut longer = bytes.clone();
        longer.extend_from_slice(b"+tail\r\n");
        let (again, used) = parse_all(&longer).unwrap();
        assert_eq!(used, bytes.len());
        assert_eq!(format!("{:?}", again), format!("{:?}", frame));
    }
}

#[test]
fn text_with_line_break_is_cut_short() {
    let bytes = encode(&Frame::Simple("a\r\nb".to_string()));
    let (back, used) = parse_all(&bytes).unwrap();
    assert!(matches!(back, Frame::Simple(ref s) if s == "a"));
    assert_eq!(used, 4);
}

#[test]
fn parse_frame_takes_one_frame() {
    let buffer = b"*1\r\n$4\r\nping\r\n+next\r\n";
    match parse_frame(buffer) {
        Ok(Some((frame, used))) => {
            assert_eq!(used, 14);
            assert_eq!(encode(&frame), buffer[..14].to_vec());
        }
        other => panic!("no frame: {:?}", other.map(|o| o.map(|p| p.1))),
    }
}

#[test]
fn parse_frame_waits_for_more() {
    assert!(matches!(parse_frame(b""), Ok(None)));
    assert!(matches!(parse_frame(b"*1\r\n$4\r\npi"), Ok(None)));
    assert!(matches!(parse_frame(b"*2\r\n+\xff\r\n"), Ok(None)));
}

#[test]
fn parse_frame_rejects() {
    assert!(matches!(parse_frame(b"hello\r\n"), Err(FrameError::Other(_))));
    assert!(matches!(parse_frame(b"+\xff\r\n"), Err(FrameError::Other(_))));
    assert!(matches!(parse_frame(b"$-7\r\n"), Err(FrameError::Other(_))));
}

#[test]
fn reading_frame_after_frame_comes_to_an_end() {
    let mut buffer = b"+a\r\n:1\r\n$-1\r\n*1\r\n+b\r\n$2\r\nhi".to_vec();
    let mut frames = 0;
    loop {
        match parse_frame(&buffer) {
            Ok(Some((_, used))) => {
                assert!(used > 0);
                buffer.drain(..used);
                frames += 1;
            }
            Ok(None) => break,
            Err(e) => panic!("{}", e.to_string()),
        }
    }
    assert_eq!(frames, 4);
    assert_eq!(buffer, b"$2\r\nhi".to_vec());
}

#[test]
fn close_is_clean_between_frames_only() {
    assert!(matches!(closed_with(0), Closed::Clean));
    assert!(matches!(closed_with(1), Closed::Reset));
    assert!(matches!(closed_with(4096), Closed::Reset));
}

#[test]
fn frame_array_helpers() {
    let mut frame = Frame::array();
    frame.push_bulk(b"a".to_vec());
    frame.push_int(9);
    assert_eq!(encode(&frame), b"*2\r\n$1\r\na\r\n:9\r\n".to_vec());
    let copy = frame.clone();
    assert_eq!(encode(&copy), encode(&frame));
}

#[test]
fn frame_equals_text() {
    assert!(Frame::Simple("OK".to_string()) == "OK");
    assert!(Frame::Bulk(b"OK".to_vec()) == "OK");
    assert!(!(Frame::Simple("OK".to_string()) == "ok"));
    assert!(!(Frame::Bulk(b"OK!".to_vec()) == "OK"));
    assert!(!(Frame::Error("OK".to_string()) == "OK"));
    assert!(!(Frame::Null == ""));
    assert!(!(Frame::Integer(1) == "1"));
}

#[test]
fn frame_as_text() {
    assert_eq!(Frame::Simple("hi".to_string()).to_string(), "hi");
    assert_eq!(Frame::Error("bad".to_string()).to_string(), "error: bad");
    assert_eq!(Frame::Integer(0).to_string(), "0");
    assert_eq!(Frame::Integer(1234567890).to_string(), "1234567890");
    assert_eq!(Frame::Bulk(b"text".to_vec()).to_string(), "text");
    assert_eq!(Frame::Bulk(vec![0xff, b'a', b'\n']).to_string(), "b\"\\xffa\\n\"");
    assert_eq!(Frame::Null.to_string(), "(nil)");
    assert_eq!(Frame::Array(Vec::new()).to_string(), "");
    let array = Frame::Array(vec![
        Frame::Simple("first".to_string()),
        Frame::Integer(2),
        Frame::Bulk(b"three".to_vec()),
    ]);
    assert_eq!(array.to_string(), " 2 three");
    assert_eq!(Frame::Null.to_error(), "unexpected frame: (nil)");
}

#[test]
fn frame_errors_as_text() {
    assert_eq!(FrameError::Incomplete.to_string(), "stream ended early");
    assert_eq!(FrameError::Other("why".to_string()).to_string(), "why");
    match parse_all(b":x\r\n") {
        Err(e) => assert_eq!(e.to_string(), "protocol error; invalid frame format"),
        Ok(_) => panic!("accepted"),
    }
}

#[test]
fn decimal_as_text() {
    assert_eq!(mini_redis::decimal::decimal_string(0), "0");
    assert_eq!(mini_redis::decimal::decimal_string(255), "255");
    assert_eq!(mini_redis::decimal::decimal_string(u64::MAX), "18446744073709551615");
    match check_all(b"\xff") {
        Err(e) => assert_eq!(e.to_string(), "protocol error; invalid frame type byte `255`"),
        Ok(_) => panic!("accepted"),
    }
    match parse_all(b"\x00") {
        Err(e) => assert_eq!(e.to_string(), "protocol error; invalid frame type byte `0`"),
        Ok(_) => panic!("accepted"),
    }
}
