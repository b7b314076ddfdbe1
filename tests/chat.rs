use chat::chat_log::ChatLog;
use chat::frame::{encode_frame, split_first_frame, CodecError, FrameBuffer, MAX_PAYLOAD_LEN};
use chat::hub::Hub;
use chat::message::{message_from_payload, EncodeError, Message};
use chat::reader::ConnectionReader;

fn msg(author: Option<&str>, content: &str) -> Message {
    Message {
        author: author.map(|a| a.to_string()),
        content: content.to_string(),
    }
}

#[test]
fn frame_header_is_big_endian_length() {
    let f = encode_frame(&[7u8, 8, 9]).unwrap();
    assert_eq!(f, vec![0, 0, 0, 3, 7, 8, 9]);
    let big = vec![1u8; 0x0102];
    let f = encode_frame(&big).unwrap();
    assert_eq!(&f[..4], &[0, 0, 1, 2]);
    assert_eq!(f.len(), 4 + 0x0102);
}

#[test]
fn empty_payload_frame() {
    let f = encode_frame(&[]).unwrap();
    assert_eq!(f, vec![0, 0, 0, 0]);
    assert_eq!(split_first_frame(&f), Ok((vec![], 4)));
}

#[test]
fn oversized_payload_is_refused() {
    let big = vec![0u8; MAX_PAYLOAD_LEN as usize + 1];
    assert!(encode_frame(&big).is_none());
    let max = vec![0u8; MAX_PAYLOAD_LEN as usize];
    assert_eq!(encode_frame(&max).unwrap().len(), MAX_PAYLOAD_LEN as usize + 4);
}

#[test]
fn split_truncated_and_malformed() {
    assert_eq!(split_first_frame(&[0, 0]), Err(CodecError::Truncated));
    assert_eq!(split_first_frame(&[0, 0, 0, 5, 1, 2]), Err(CodecError::Truncated));
    assert_eq!(split_first_frame(&[0xff, 0xff, 0xff, 0xff, 1]), Err(CodecError::Malformed));
    assert_eq!(split_first_frame(&[0, 0, 0, 2, 1, 2, 3]), Ok((vec![1, 2], 6)));
}

#[test]
fn message_round_trip() {
    for m in [msg(Some("A"), "hi"), msg(None, "server note"), msg(Some(""), ""), msg(Some("ünï"), "çødé ✓")] {
        let f = m.write_out().unwrap();
        let (back, used) = Message::read_in(&f).unwrap();
        assert_eq!(back, m);
        assert_eq!(used, f.len());
    }
}

#[test]
fn write_out_frames_a_payload() {
    let f = msg(Some("A"), "hi").write_out().unwrap();
    let len = u32::from_be_bytes([f[0], f[1], f[2], f[3]]) as usize;
    assert_eq!(len + 4, f.len());
    assert!(len > 0);
    assert_eq!(message_from_payload(&f[4..]), Ok(msg(Some("A"), "hi")));
}

#[test]
fn read_in_truncated_and_malformed() {
    let f = msg(Some("A"), "hi").write_out().unwrap();
    assert_eq!(Message::read_in(&f[..f.len() - 1]), Err(CodecError::Truncated));
    assert_eq!(Message::read_in(&f[..3]), Err(CodecError::Truncated));
    let garbage = encode_frame(&[0xc1, 0xc1]).unwrap();
    assert_eq!(Message::read_in(&garbage), Err(CodecError::Malformed));
    assert_eq!(message_from_payload(&[0x93, 1, 2, 3]), Err(CodecError::Malformed));
}

#[test]
fn oversized_message_is_refused() {
    let m = msg(Some("A"), &"x".repeat(MAX_PAYLOAD_LEN as usize));
    assert_eq!(m.write_out(), Err(EncodeError::TooLarge));
}

#[test]
fn oversized_message_is_not_broadcast() {
    let mut hub = Hub::new(true, true);
    hub.register(1);
    hub.register(2);
    let m = msg(Some("A"), &"x".repeat(MAX_PAYLOAD_LEN as usize));
    assert!(hub.on_message(1, &m).is_none());
    assert!(hub.register(3).is_empty());
    assert!(hub.on_message(1, &msg(Some("A"), "ok")).is_some());
}

#[test]
fn equal_messages_encode_equally() {
    let a = msg(Some("A"), "hi").write_out().unwrap();
    let b = msg(Some("A"), "hi").write_out().unwrap();
    assert_eq!(a, b);
    let (m, used) = Message::read_in(&a).unwrap();
    assert_eq!(m, msg(Some("A"), "hi"));
    assert_eq!(used, a.len());
    let e = msg(None, "").write_out().unwrap();
    assert_eq!(Message::read_in(&e).unwrap().0, msg(None, ""));
}

#[test]
fn duplicate_and_from_author() {
    let m = Message::from_author("bob", "yo".to_string());
    assert_eq!(m, msg(Some("bob"), "yo"));
    assert_eq!(m.duplicate(), m);
}

#[test]
fn two_frames_any_chunking() {
    let m1 = msg(Some("A"), "first");
    let m2 = msg(Some("B"), "second message");
    let mut stream = m1.write_out().unwrap();
    stream.extend(m2.write_out().unwrap());
    for cut in 1..stream.len() {
        let mut r = ConnectionReader::new();
        let s1 = r.on_read(&stream[..cut]);
        let s2 = r.on_read(&stream[cut..]);
        assert!(!s1.close && !s2.close);
        let mut got = s1.messages;
        got.extend(s2.messages);
        assert_eq!(got, vec![m1.duplicate(), m2.duplicate()]);
    }
}

#[test]
fn byte_at_a_time() {
    let m1 = msg(Some("A"), "one");
    let m2 = msg(None, "two");
    let mut stream = m1.write_out().unwrap();
    stream.extend(m2.write_out().unwrap());
    let mut r = ConnectionReader::new();
    let mut got = Vec::new();
    for b in &stream {
        let step = r.on_read(std::slice::from_ref(b));
        assert!(!step.close);
        got.extend(step.messages);
    }
    assert_eq!(got, vec![m1, m2]);
}

#[test]
fn frame_buffer_keeps_partial_frame() {
    let mut b = FrameBuffer::new();
    b.feed(&[0, 0, 0, 2, 9, 9, 0, 0]);
    assert_eq!(b.take_frames(), vec![vec![9u8, 9]]);
    assert_eq!(b.front_error(), Some(CodecError::Truncated));
    b.feed(&[0, 1, 5]);
    assert_eq!(b.take_frames(), vec![vec![5u8]]);
    assert!(b.take_frames().is_empty());
}

#[test]
fn end_of_stream_closes() {
    let mut r = ConnectionReader::new();
    let step = r.on_read(&[]);
    assert!(step.close);
    assert!(step.messages.is_empty());
}

#[test]
fn malformed_frame_closes_only_that_connection() {
    let mut hub = Hub::new(true, false);
    hub.register(1);
    hub.register(2);
    hub.register(3);
    let mut bad = ConnectionReader::new();
    let good_msg = msg(Some("A"), "before");
    let mut bytes = good_msg.write_out().unwrap();
    bytes.extend([0x7f, 0xff, 0xff, 0xff, 0]);
    let step = bad.on_read(&bytes);
    assert!(step.close);
    assert_eq!(step.messages, vec![good_msg]);
    hub.deregister(2);
    let mut ok = ConnectionReader::new();
    let step = ok.on_read(&msg(Some("C"), "after").write_out().unwrap());
    assert!(!step.close);
    let b = hub.on_message(3, &step.messages[0]).unwrap();
    assert_eq!(b.targets, vec![1, 3]);
}

#[test]
fn unparsable_payload_closes() {
    let mut r = ConnectionReader::new();
    let step = r.on_read(&encode_frame(&[0xc1]).unwrap());
    assert!(step.close);
    assert!(step.messages.is_empty());
}

#[test]
fn scenario_a_sends_hi_b_receives() {
    let mut hub = Hub::new(true, false);
    assert!(hub.register(10).is_empty()); // B
    assert!(hub.register(20).is_empty()); // A
    let mut a_reader = ConnectionReader::new();
    let sent = Message::from_author("A", "hi".to_string());
    let step = a_reader.on_read(&sent.write_out().unwrap());
    assert_eq!(step.messages.len(), 1);
    let b = hub.on_message(20, &step.messages[0]).unwrap();
    assert!(b.targets.contains(&10));
    let (got, _) = Message::read_in(&b.frame).unwrap();
    assert_eq!(got, msg(Some("A"), "hi"));
}

#[test]
fn fan_out_policy() {
    let mut hub = Hub::new(false, false);
    for id in [5u64, 6, 7, 8] {
        hub.register(id);
    }
    let b = hub.on_message(6, &msg(Some("x"), "y")).unwrap();
    assert_eq!(b.targets, vec![5, 7, 8]);
    let mut hub = Hub::new(true, false);
    for id in [5u64, 6, 7, 8] {
        hub.register(id);
    }
    let b = hub.on_message(6, &msg(Some("x"), "y")).unwrap();
    assert_eq!(b.targets, vec![5, 6, 7, 8]);
}

#[test]
fn register_twice_is_ignored() {
    let mut hub = Hub::new(true, false);
    hub.register(1);
    hub.register(1);
    assert_eq!(hub.clients(), &vec![1u64]);
    assert!(hub.is_registered(1));
    assert!(!hub.is_registered(2));
}

#[test]
fn failed_writes_are_deregistered_after_pass() {
    let mut hub = Hub::new(true, false);
    for id in [1u64, 2, 3, 4] {
        hub.register(id);
    }
    let b = hub.on_message(1, &msg(Some("a"), "m")).unwrap();
    assert_eq!(b.targets, vec![1, 2, 3, 4]);
    hub.finish_pass(&vec![2, 4]);
    assert_eq!(hub.clients(), &vec![1u64, 3]);
    let b = hub.on_message(1, &msg(Some("a"), "n")).unwrap();
    assert_eq!(b.targets, vec![1, 3]);
}

#[test]
fn same_sender_order_kept() {
    let mut hub = Hub::new(false, false);
    for id in [1u64, 2, 3] {
        hub.register(id);
    }
    let m1 = msg(Some("a"), "first");
    let m2 = msg(Some("a"), "second");
    let b1 = hub.on_message(1, &m1).unwrap();
    let b2 = hub.on_message(1, &m2).unwrap();
    assert_eq!(b1.targets, b2.targets);
    assert_eq!(Message::read_in(&b1.frame).unwrap().0, m1);
    assert_eq!(Message::read_in(&b2.frame).unwrap().0, m2);
}

#[test]
fn history_is_replayed_to_newcomer() {
    let mut hub = Hub::new(true, true);
    hub.register(1);
    let b1 = hub.on_message(1, &msg(Some("a"), "one")).unwrap();
    let b2 = hub.on_message(1, &msg(Some("a"), "two")).unwrap();
    let replay = hub.register(2);
    assert_eq!(replay, vec![b1.frame, b2.frame]);
    let mut no_history = Hub::new(true, false);
    no_history.register(1);
    no_history.on_message(1, &msg(Some("a"), "one")).unwrap();
    assert!(no_history.register(2).is_empty());
}

#[test]
fn chat_log_newest_first_and_bounded() {
    let mut log = ChatLog::new(2);
    log.receive(msg(Some("a"), "1"));
    log.receive(msg(Some("a"), "2"));
    log.receive(msg(Some("a"), "3"));
    assert_eq!(log.messages(), &vec![msg(Some("a"), "3"), msg(Some("a"), "2")]);
    log.set_capacity(1);
    assert_eq!(log.messages(), &vec![msg(Some("a"), "3")]);
    assert_eq!(log.capacity(), 1);
    let mut empty = ChatLog::new(0);
    empty.receive(msg(None, "x"));
    assert!(empty.messages().is_empty());
}
