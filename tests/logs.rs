use two_phase_commit::{
    InMemory, LineSink, LogError, LogRecords, MessageLog, MessageType, OpLog, ProtocolMessage,
};

struct Lines {
    stored: Vec<Vec<u8>>,
    accept: bool,
}

impl LineSink for Lines {
    fn write_line(&mut self, line: &[u8]) -> bool {
        if self.accept {
            self.stored.push(line.to_vec());
        }
        self.accept
    }
}

fn msg(kind: MessageType, txid: i32) -> ProtocolMessage {
    ProtocolMessage::generate(kind, txid, "coordinator".to_string(), 0)
}

#[test]
fn record_assigns_increasing_uids_and_returns_the_line() {
    let mut log = OpLog::new("coordinator.log".to_string(), InMemory);
    let a = msg(MessageType::CoordinatorCommit, 1);
    let line = log.record(&a).unwrap();
    let mut expected = a.with_uid(1).to_bytes();
    expected.push(b'\n');
    assert_eq!(line, expected);
    log.record(&msg(MessageType::CoordinatorAbort, 2)).unwrap();
    assert_eq!(log.read(1).unwrap(), a.with_uid(1));
    assert_eq!(log.read(2).unwrap().mtype, MessageType::CoordinatorAbort);
    assert!(log.read(3).is_none());
    assert_eq!(log.entries().len(), 2);
}

#[test]
fn append_through_the_log_capability() {
    let mut log = OpLog::new("p.log".to_string(), InMemory);
    log.append(&msg(MessageType::ParticipantVoteCommit, 4)).unwrap();
    assert_eq!(log.entries().len(), 1);
    assert_eq!(log.entries().key(0), 1);
    assert_eq!(log.entries().message(0).txid, 4);
}

#[test]
fn replay_rebuilds_what_was_recorded() {
    let mut log = OpLog::new("c.log".to_string(), InMemory);
    let mut lines = Vec::new();
    for t in 1..=3 {
        let mut line = log.record(&msg(MessageType::CoordinatorCommit, t)).unwrap();
        line.pop();
        lines.push(line);
    }
    let back = OpLog::from_lines("c.log".to_string(), &lines, InMemory).unwrap();
    for uid in 1..=3u64 {
        assert_eq!(back.read(uid), log.read(uid));
    }
}

#[test]
fn replaying_twice_gives_identical_mappings() {
    let mut log = OpLog::new("c.log".to_string(), InMemory);
    let mut lines = Vec::new();
    for t in 1..=4 {
        let mut line = log.record(&msg(MessageType::CoordinatorAbort, t)).unwrap();
        line.pop();
        lines.push(line);
    }
    let a = OpLog::from_lines("c.log".to_string(), &lines, InMemory).unwrap();
    let b = OpLog::from_lines("c.log".to_string(), &lines, InMemory).unwrap();
    assert_eq!(a.entries().len(), b.entries().len());
    for i in 0..a.entries().len() {
        assert_eq!(a.entries().key(i), b.entries().key(i));
        assert_eq!(a.entries().message(i), b.entries().message(i));
    }
}

#[test]
fn replay_reports_the_first_undecodable_line() {
    let good = msg(MessageType::CoordinatorCommit, 1).with_uid(1).to_bytes();
    let lines = vec![good.clone(), b"not a message".to_vec(), good];
    match OpLog::from_lines("x".to_string(), &lines, InMemory) {
        Err(e) => assert_eq!(e, LogError::Undecodable(1)),
        Ok(_) => panic!("accepted a bad line"),
    }
}

#[test]
fn replay_keeps_the_last_message_for_a_repeated_uid() {
    let first = msg(MessageType::CoordinatorCommit, 1).with_uid(5).to_bytes();
    let second = msg(MessageType::CoordinatorAbort, 2).with_uid(5).to_bytes();
    let log = OpLog::from_lines("x".to_string(), &vec![first, second], InMemory).unwrap();
    assert_eq!(log.entries().len(), 1);
    assert_eq!(log.read(5).unwrap().txid, 2);
}

#[test]
fn records_insert_replaces_a_known_key_in_place() {
    let mut r = LogRecords::new();
    r.insert(3, msg(MessageType::CoordinatorCommit, 1));
    r.insert(1, msg(MessageType::CoordinatorCommit, 2));
    r.insert(3, msg(MessageType::CoordinatorAbort, 3));
    assert_eq!(r.len(), 2);
    assert_eq!(r.key(0), 3);
    assert_eq!(r.message(0).txid, 3);
    assert_eq!(r.get(1).unwrap().txid, 2);
    assert!(r.get(2).is_none());
    let aborts = r.of_kind(MessageType::CoordinatorAbort);
    assert_eq!(aborts.len(), 1);
    assert_eq!(aborts.key(0), 3);
}

#[test]
fn append_writes_the_recorded_line_to_the_sink() {
    let mut log = OpLog::new("c.log".to_string(), Lines { stored: vec![], accept: true });
    let m = msg(MessageType::CoordinatorCommit, 7);
    log.append(&m).unwrap();
    let mut expected = m.with_uid(1).to_bytes();
    expected.push(b'\n');
    assert_eq!(log.sink().stored, vec![expected]);
}

#[test]
fn append_fails_when_the_sink_refuses_the_line() {
    let mut log = OpLog::new("c.log".to_string(), Lines { stored: vec![], accept: false });
    assert_eq!(log.append(&msg(MessageType::CoordinatorAbort, 1)), Err(LogError::Append));
}
