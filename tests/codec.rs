use two_phase_commit::{MessageType, ProtocolMessage};

fn text(m: &ProtocolMessage) -> String {
    String::from_utf8(m.to_bytes()).unwrap()
}

#[test]
fn encodes_a_request_as_one_json_object() {
    let m = ProtocolMessage::generate(MessageType::ClientRequest, 7, "client_0".to_string(), 3);
    assert_eq!(
        text(&m),
        "{\"type\":\"ClientRequest\",\"txid\":7,\"senderid\":\"client_0\",\"opid\":3,\"uid\":0}"
    );
}

#[test]
fn encodes_negative_ids_of_the_exit_message() {
    let m = ProtocolMessage::generate(MessageType::CoordinatorExit, -1, "coordinator".to_string(), -1);
    assert_eq!(
        text(&m),
        "{\"type\":\"CoordinatorExit\",\"txid\":-1,\"senderid\":\"coordinator\",\"opid\":-1,\"uid\":0}"
    );
}

#[test]
fn escapes_quotes_backslashes_and_control_bytes() {
    let m = ProtocolMessage::generate(MessageType::ParticipantVoteCommit, 1, "a\"b\\c\nd".to_string(), 0);
    assert_eq!(
        text(&m),
        "{\"type\":\"ParticipantVoteCommit\",\"txid\":1,\"senderid\":\"a\\\"b\\\\c\\u000ad\",\"opid\":0,\"uid\":0}"
    );
}

#[test]
fn round_trips_every_kind_and_extreme_values() {
    let kinds = [
        MessageType::ClientRequest,
        MessageType::CoordinatorPropose,
        MessageType::ParticipantVoteCommit,
        MessageType::ParticipantVoteAbort,
        MessageType::CoordinatorCommit,
        MessageType::CoordinatorAbort,
        MessageType::ClientResultCommit,
        MessageType::ClientResultAbort,
        MessageType::CoordinatorExit,
    ];
    for (i, k) in kinds.iter().enumerate() {
        let m = ProtocolMessage::generate(*k, i32::MIN + i as i32, "p\u{e9}r\u{1F600}\t\"x\"".to_string(), i32::MAX - i as i32)
            .with_uid(u64::MAX - i as u64);
        let back = ProtocolMessage::from_bytes(&m.to_bytes()).unwrap();
        assert_eq!(back, m);
    }
}

#[test]
fn rejects_text_that_is_not_an_encoding() {
    let bad: [&str; 7] = [
        "",
        "{}",
        "{\"type\":\"Nothing\",\"txid\":1,\"senderid\":\"a\",\"opid\":0,\"uid\":0}",
        "{\"type\":\"ClientRequest\",\"txid\":-0,\"senderid\":\"a\",\"opid\":0,\"uid\":0}",
        "{\"type\":\"ClientRequest\",\"txid\":01,\"senderid\":\"a\",\"opid\":0,\"uid\":0}",
        "{\"type\":\"ClientRequest\",\"txid\":2147483648,\"senderid\":\"a\",\"opid\":0,\"uid\":0}",
        "{\"type\":\"ClientRequest\",\"txid\":1,\"senderid\":\"a\",\"opid\":0,\"uid\":0} ",
    ];
    for b in bad.iter() {
        assert!(ProtocolMessage::from_bytes(b.as_bytes()).is_none(), "accepted {:?}", b);
    }
}

#[test]
fn reads_back_text_written_by_hand() {
    let b = "{\"type\":\"CoordinatorAbort\",\"txid\":42,\"senderid\":\"coordinator\",\"opid\":5,\"uid\":9}";
    let m = ProtocolMessage::from_bytes(b.as_bytes()).unwrap();
    assert_eq!(m.mtype, MessageType::CoordinatorAbort);
    assert_eq!(m.txid, 42);
    assert_eq!(m.senderid, "coordinator");
    assert_eq!(m.opid, 5);
    assert_eq!(m.uid, 9);
}
