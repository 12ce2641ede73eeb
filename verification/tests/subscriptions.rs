use mini_redis::cmd::subscribe::{
    handle_command, make_message_frame, make_subscribe_frame, make_unsubscribe_frame, on_event,
    subscribe_pending, subscribe_to_channel, Event, Step,
};
use mini_redis::connection::write_frame;
use mini_redis::pubsub::Subscriptions;
use mini_redis::{Db, Frame, ParseError};
use tokio_stream::StreamMap;

fn new_subscriptions() -> Subscriptions {
    StreamMap::new()
}

fn encode(frame: &Frame) -> Vec<u8> {
    let mut out = Vec::new();
    write_frame(&mut out, frame);
    out
}

fn request(words: &[&str]) -> Frame {
    Frame::Array(words.iter().map(|w| Frame::Bulk(w.as_bytes().to_vec())).collect())
}

#[test]
fn frames_for_a_subscriber() {
    assert_eq!(
        encode(&make_subscribe_frame("ch1".to_string(), 1)),
        b"*3\r\n$9\r\nsubscribe\r\n$3\r\nch1\r\n:1\r\n".to_vec()
    );
    assert_eq!(
        encode(&make_unsubscribe_frame("ch1".to_string(), 0)),
        b"*3\r\n$11\r\nunsubscribe\r\n$3\r\nch1\r\n:0\r\n".to_vec()
    );
    assert_eq!(
        encode(&make_message_frame("ch1".to_string(), b"hello".to_vec())),
        b"*3\r\n$7\r\nmessage\r\n$3\r\nch1\r\n$5\r\nhello\r\n".to_vec()
    );
}

#[test]
fn subscribe_then_publish_delivers() {
    let mut db = Db::new();
    let mut subscriptions = new_subscriptions();
    let ack = subscribe_to_channel("ch1".to_string(), &mut subscriptions, &mut db);
    assert_eq!(encode(&ack), b"*3\r\n$9\r\nsubscribe\r\n$3\r\nch1\r\n:1\r\n".to_vec());
    assert_eq!(subscriptions.len(), 1);
    assert_eq!(db.publish("ch1", b"hello".to_vec()), 1);
    assert_eq!(db.publish("ch2", b"hello".to_vec()), 0);
}

#[test]
fn subscribing_counts_channels() {
    let mut db = Db::new();
    let mut subscriptions = new_subscriptions();
    let ack = subscribe_to_channel("a".to_string(), &mut subscriptions, &mut db);
    assert_eq!(encode(&ack), b"*3\r\n$9\r\nsubscribe\r\n$1\r\na\r\n:1\r\n".to_vec());
    let ack = subscribe_to_channel("b".to_string(), &mut subscriptions, &mut db);
    assert_eq!(encode(&ack), b"*3\r\n$9\r\nsubscribe\r\n$1\r\nb\r\n:2\r\n".to_vec());
    let ack = subscribe_to_channel("a".to_string(), &mut subscriptions, &mut db);
    assert_eq!(encode(&ack), b"*3\r\n$9\r\nsubscribe\r\n$1\r\na\r\n:2\r\n".to_vec());
    let keys: Vec<&String> = subscriptions.keys().collect();
    assert_eq!(keys, vec!["b", "a"]);
    assert_eq!(db.publish("a", b"m".to_vec()), 1);
    assert_eq!(db.publish("b", b"m".to_vec()), 1);
}

#[test]
fn unsubscribe_all() {
    let mut db = Db::new();
    let mut subscriptions = new_subscriptions();
    let mut pending: Vec<String> = Vec::new();
    subscribe_to_channel("ch1".to_string(), &mut subscriptions, &mut db);
    subscribe_to_channel("ch2".to_string(), &mut subscriptions, &mut db);
    let frames = handle_command(request(&["unsubscribe"]), &mut pending, &mut subscriptions).unwrap();
    assert_eq!(frames.len(), 2);
    assert_eq!(encode(&frames[0]), b"*3\r\n$11\r\nunsubscribe\r\n$3\r\nch1\r\n:1\r\n".to_vec());
    assert_eq!(encode(&frames[1]), b"*3\r\n$11\r\nunsubscribe\r\n$3\r\nch2\r\n:0\r\n".to_vec());
    assert!(subscriptions.is_empty());
    assert!(pending.is_empty());
    assert_eq!(db.publish("ch1", b"m".to_vec()), 0);
}

#[test]
fn unsubscribe_named() {
    let mut db = Db::new();
    let mut subscriptions = new_subscriptions();
    let mut pending: Vec<String> = Vec::new();
    for name in ["a", "b", "c"] {
        subscribe_to_channel(name.to_string(), &mut subscriptions, &mut db);
    }
    let frames =
        handle_command(request(&["unsubscribe", "a", "nope", "c"]), &mut pending, &mut subscriptions)
            .unwrap();
    assert_eq!(frames.len(), 3);
    assert_eq!(encode(&frames[0]), b"*3\r\n$11\r\nunsubscribe\r\n$1\r\na\r\n:2\r\n".to_vec());
    assert_eq!(encode(&frames[1]), b"*3\r\n$11\r\nunsubscribe\r\n$4\r\nnope\r\n:2\r\n".to_vec());
    assert_eq!(encode(&frames[2]), b"*3\r\n$11\r\nunsubscribe\r\n$1\r\nc\r\n:1\r\n".to_vec());
    let keys: Vec<&String> = subscriptions.keys().collect();
    assert_eq!(keys, vec!["b"]);
}

#[test]
fn unsubscribe_all_follows_the_order_of_the_map() {
    let mut db = Db::new();
    let mut subscriptions = new_subscriptions();
    let mut pending: Vec<String> = Vec::new();
    for name in ["a", "b", "c"] {
        subscribe_to_channel(name.to_string(), &mut subscriptions, &mut db);
    }
    handle_command(request(&["unsubscribe", "a"]), &mut pending, &mut subscriptions).unwrap();
    let frames = handle_command(request(&["unsubscribe"]), &mut pending, &mut subscriptions).unwrap();
    assert_eq!(frames.len(), 2);
    assert_eq!(encode(&frames[0]), b"*3\r\n$11\r\nunsubscribe\r\n$1\r\nc\r\n:1\r\n".to_vec());
    assert_eq!(encode(&frames[1]), b"*3\r\n$11\r\nunsubscribe\r\n$1\r\nb\r\n:0\r\n".to_vec());
}

#[test]
fn subscribe_while_listening_is_kept_for_the_loop() {
    let mut subscriptions = new_subscriptions();
    let mut pending = vec!["old".to_string()];
    let frames =
        handle_command(request(&["subscribe", "x", "y"]), &mut pending, &mut subscriptions).unwrap();
    assert!(frames.is_empty());
    assert_eq!(pending, vec!["old", "x", "y"]);
    assert!(subscriptions.is_empty());
}

#[test]
fn other_commands_are_unknown_while_listening() {
    let mut subscriptions = new_subscriptions();
    let mut pending: Vec<String> = Vec::new();
    let frames = handle_command(request(&["get", "k"]), &mut pending, &mut subscriptions).unwrap();
    assert_eq!(frames.len(), 1);
    assert_eq!(encode(&frames[0]), b"-ERR unknown command 'get'\r\n".to_vec());
    let frames =
        handle_command(request(&["publish", "c", "m"]), &mut pending, &mut subscriptions).unwrap();
    assert_eq!(encode(&frames[0]), b"-ERR unknown command 'pub'\r\n".to_vec());
    let frames = handle_command(request(&["ping"]), &mut pending, &mut subscriptions).unwrap();
    assert_eq!(encode(&frames[0]), b"-ERR unknown command 'ping'\r\n".to_vec());
    let frames = handle_command(request(&["Hello"]), &mut pending, &mut subscriptions).unwrap();
    assert_eq!(encode(&frames[0]), b"-ERR unknown command 'hello'\r\n".to_vec());
    assert!(pending.is_empty());
}

#[test]
fn what_cannot_be_read_fails_while_listening() {
    let mut subscriptions = new_subscriptions();
    let mut pending: Vec<String> = Vec::new();
    assert!(matches!(
        handle_command(Frame::Null, &mut pending, &mut subscriptions),
        Err(ParseError::Other(_))
    ));
    assert!(matches!(
        handle_command(request(&["get"]), &mut pending, &mut subscriptions),
        Err(ParseError::EndOfStream)
    ));
    assert!(matches!(
        handle_command(request(&["subscribe"]), &mut pending, &mut subscriptions),
        Err(ParseError::EndOfStream)
    ));
}

#[test]
fn pending_channels_are_subscribed_in_order() {
    let mut db = Db::new();
    let mut subscriptions = new_subscriptions();
    let mut pending = vec!["a".to_string(), "b".to_string(), "a".to_string()];
    let frames = subscribe_pending(&mut pending, &mut subscriptions, &mut db);
    assert!(pending.is_empty());
    assert_eq!(frames.len(), 3);
    assert_eq!(encode(&frames[0]), b"*3\r\n$9\r\nsubscribe\r\n$1\r\na\r\n:1\r\n".to_vec());
    assert_eq!(encode(&frames[1]), b"*3\r\n$9\r\nsubscribe\r\n$1\r\nb\r\n:2\r\n".to_vec());
    assert_eq!(encode(&frames[2]), b"*3\r\n$9\r\nsubscribe\r\n$1\r\na\r\n:2\r\n".to_vec());
    assert_eq!(db.publish("a", b"m".to_vec()), 1);
    assert_eq!(db.publish("b", b"m".to_vec()), 1);
    assert!(subscribe_pending(&mut pending, &mut subscriptions, &mut db).is_empty());
}

#[test]
fn events_of_a_listening_connection() {
    let mut subscriptions = new_subscriptions();
    let mut pending: Vec<String> = Vec::new();
    let message = Event::Message { channel: "ch1".to_string(), payload: Some(b"hello".to_vec()) };
    match on_event(message, &mut pending, &mut subscriptions).unwrap() {
        Step::Write(frames) => {
            assert_eq!(frames.len(), 1);
            assert_eq!(
                encode(&frames[0]),
                b"*3\r\n$7\r\nmessage\r\n$3\r\nch1\r\n$5\r\nhello\r\n".to_vec()
            );
        }
        Step::Stop => panic!("stopped"),
    }
    let lagged = Event::Message { channel: "ch1".to_string(), payload: None };
    assert!(matches!(
        on_event(lagged, &mut pending, &mut subscriptions),
        Ok(Step::Write(ref frames)) if frames.is_empty()
    ));
    let inbound = Event::Inbound(Some(request(&["subscribe", "x"])));
    assert!(matches!(
        on_event(inbound, &mut pending, &mut subscriptions),
        Ok(Step::Write(ref frames)) if frames.is_empty()
    ));
    assert_eq!(pending, vec!["x"]);
    let inbound = Event::Inbound(Some(request(&["set", "k", "v"])));
    match on_event(inbound, &mut pending, &mut subscriptions).unwrap() {
        Step::Write(frames) => {
            assert_eq!(encode(&frames[0]), b"-ERR unknown command 'set'\r\n".to_vec())
        }
        Step::Stop => panic!("stopped"),
    }
    assert!(matches!(
        on_event(Event::Inbound(Some(Frame::Null)), &mut pending, &mut subscriptions),
        Err(ParseError::Other(_))
    ));
    assert!(matches!(
        on_event(Event::Inbound(None), &mut pending, &mut subscriptions),
        Ok(Step::Stop)
    ));
    assert!(matches!(on_event(Event::Shutdown, &mut pending, &mut subscriptions), Ok(Step::Stop)));
}

#[test]
fn subscribe_publish_deliver() {
    let mut db = Db::new();
    let mut receiver = db.subscribe("ch1".to_string());
    assert_eq!(db.publish("ch1", b"hello".to_vec()), 1);
    let payload = receiver.try_recv().unwrap();
    let frame = make_message_frame("ch1".to_string(), payload);
    assert_eq!(encode(&frame), b"*3\r\n$7\r\nmessage\r\n$3\r\nch1\r\n$5\r\nhello\r\n".to_vec());
}
