use commitlog::{CommitLog, LogOptions};
use two_phase_commit::{CommitOpLog, MessageLog, MessageType, ProtocolMessage};

fn open(path: &str) -> CommitOpLog {
    CommitOpLog::from_file(path.to_string(), CommitLog::new(LogOptions::new(path)).unwrap())
}

#[test]
fn commit_log_reads_back_what_was_appended_under_consecutive_offsets() {
    let path = "/tmp/two_phase_commit_commit_log_test".to_string();
    let mut log = open(&path);
    let before = log.to_hash().unwrap().len();
    let sent: Vec<ProtocolMessage> = (0..3)
        .map(|t| ProtocolMessage::generate(MessageType::CoordinatorCommit, 100 + t, "coordinator".to_string(), t))
        .collect();
    for m in sent.iter() {
        log.append(m).unwrap();
    }
    let first = log.to_hash().unwrap();
    assert_eq!(first.len(), before + 3);
    for (i, m) in sent.iter().enumerate() {
        assert_eq!(first.key(before + i), (before + i) as u64);
        assert_eq!(first.message(before + i), m);
    }
    let reopened = open(&path);
    let second = reopened.to_hash().unwrap();
    let third = reopened.to_hash().unwrap();
    assert_eq!(second.len(), first.len());
    for i in 0..second.len() {
        assert_eq!(second.key(i), first.key(i));
        assert_eq!(second.message(i), first.message(i));
        assert_eq!(third.message(i), second.message(i));
    }
}

#[test]
fn commit_log_append_returns_the_next_offset() {
    let path = "/tmp/two_phase_commit_commit_log_offsets";
    let mut log = open(path);
    let before = log.to_hash().unwrap().len() as u64;
    let m = ProtocolMessage::generate(MessageType::CoordinatorAbort, 9, "coordinator".to_string(), 1);
    assert_eq!(log.append_message(&m), Ok(before));
    assert_eq!(log.append_message(&m), Ok(before + 1));
}
