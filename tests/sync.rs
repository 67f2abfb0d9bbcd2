use jwst::codec::{decode_messages, decode_stream, encode_message, Message, SyncMessage};
use jwst::sync::{sync_init_message, Effect, SessionState, SyncSession};

#[test]
fn frame_bytes_are_exact() {
    let m = Message::Sync(SyncMessage::Step1(vec![7, 8]));
    assert_eq!(encode_message(&m), vec![0, 0, 2, 7, 8]);
    assert_eq!(encode_message(&Message::AwarenessQuery), vec![2]);
    assert_eq!(encode_message(&Message::Auth(None)), vec![3, 1]);
    assert_eq!(encode_message(&Message::Auth(Some(vec![9]))), vec![3, 0, 1, 9]);
    assert_eq!(encode_message(&Message::Custom(5, vec![])), vec![255, 5, 0]);
    let long = vec![1u8; 300];
    let bytes = encode_message(&Message::Awareness(long.clone()));
    assert_eq!(&bytes[..3], &[1, 0xAC, 0x02]);
    assert_eq!(bytes.len(), 303);
}

#[test]
fn frames_round_trip() {
    let mut bytes = encode_message(&Message::Sync(SyncMessage::Update(vec![1, 2, 3])));
    bytes.extend(encode_message(&Message::Awareness(vec![1u8; 200])));
    bytes.extend(encode_message(&Message::Custom(9, vec![4])));
    let ms = decode_messages(&bytes);
    assert_eq!(ms.len(), 3);
    assert!(matches!(&ms[0], Message::Sync(SyncMessage::Update(u)) if u == &vec![1, 2, 3]));
    assert!(matches!(&ms[1], Message::Awareness(u) if u.len() == 200));
    assert!(matches!(&ms[2], Message::Custom(9, d) if d == &vec![4]));
}

#[test]
fn malformed_tail_is_reported() {
    let mut bytes = encode_message(&Message::AwarenessQuery);
    bytes.push(0);
    bytes.push(7);
    let (ms, complete) = decode_stream(&bytes);
    assert_eq!(ms.len(), 1);
    assert!(!complete);
    let (_, complete) = decode_stream(&[0, 1, 5, 1]);
    assert!(!complete);
}

#[test]
fn init_message_is_step1_then_query() {
    assert_eq!(sync_init_message(&vec![4, 5]), vec![0, 0, 2, 4, 5, 2]);
    let mut s = SyncSession::new(3);
    assert_eq!(s.state(), SessionState::Initial);
    let bytes = s.open(&vec![]);
    assert_eq!(bytes, vec![0, 0, 0, 2]);
    assert_eq!(s.state(), SessionState::AwaitingStep2);
}

#[test]
fn handshake_reaches_synced() {
    let mut responder = SyncSession::new(3);
    let mut initiator = SyncSession::new(3);
    let hello = initiator.open(&vec![]);
    let effects = responder.receive(&hello);
    assert_eq!(effects.len(), 2);
    assert!(matches!(&effects[0], Effect::SendStep2(sv) if sv.is_empty()));
    assert!(matches!(&effects[1], Effect::SendAwareness));
    let reply = encode_message(&Message::Sync(SyncMessage::Step2(vec![1, 2])));
    let effects = initiator.receive(&reply);
    assert!(matches!(&effects[0], Effect::Apply(u) if u == &vec![1, 2]));
    assert_eq!(initiator.state(), SessionState::Synced);
}

#[test]
fn updates_are_applied_and_broadcast() {
    let mut s = SyncSession::new(3);
    let effects = s.receive(&encode_message(&Message::Sync(SyncMessage::Update(vec![6]))));
    assert!(matches!(&effects[0], Effect::ApplyAndBroadcast(u) if u == &vec![6]));
    let effects = s.receive(&encode_message(&Message::Awareness(vec![1])));
    assert!(matches!(&effects[0], Effect::ApplyAwareness(u) if u == &vec![1]));
    let effects = s.receive(&encode_message(&Message::Custom(4, vec![2])));
    assert!(matches!(&effects[0], Effect::Custom(4, d) if d == &vec![2]));
    assert_eq!(s.state(), SessionState::Initial);
}

#[test]
fn denial_closes_the_session() {
    let mut s = SyncSession::new(3);
    assert!(s.receive(&encode_message(&Message::Auth(None))).is_empty());
    let effects = s.receive(&encode_message(&Message::Auth(Some(vec![b'n', b'o']))));
    assert!(matches!(&effects[0], Effect::Close(r) if r == &vec![b'n', b'o']));
    assert_eq!(s.state(), SessionState::Denied);
    assert!(s.receive(&encode_message(&Message::AwarenessQuery)).is_empty());
}

#[test]
fn repeated_garbage_is_a_violation() {
    let mut s = SyncSession::new(2);
    let effects = s.receive(&[2, 9]);
    assert_eq!(effects.len(), 1);
    assert_eq!(s.failures(), 1);
    assert_eq!(s.state(), SessionState::Initial);
    s.receive(&[9]);
    assert_eq!(s.failures(), 2);
    assert_eq!(s.state(), SessionState::Violated);
    assert!(s.receive(&[2]).is_empty());
}

#[test]
fn malformed_frame_is_dropped_and_reading_resumes() {
    let mut bytes = vec![0u8, 3, 0];
    bytes.extend(encode_message(&Message::Sync(SyncMessage::Step1(vec![1]))));
    let (ms, complete) = decode_stream(&bytes);
    assert!(!complete);
    assert_eq!(ms.len(), 1);
    assert!(matches!(&ms[0], Message::Sync(SyncMessage::Step1(v)) if v == &vec![1]));
    let mut s = SyncSession::new(5);
    let effects = s.receive(&bytes);
    assert_eq!(effects.len(), 1);
    assert!(matches!(&effects[0], Effect::SendStep2(v) if v == &vec![1]));
    assert_eq!(s.failures(), 1);
    let mut auth = vec![3u8, 7];
    auth.extend(encode_message(&Message::AwarenessQuery));
    assert_eq!(decode_messages(&auth).len(), 1);
}
