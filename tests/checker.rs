use two_phase_commit::{
    check_last_run, check_participant, CheckFailure, LogRecords, MessageType, ParticipantLog, ProtocolMessage,
};
use MessageType::{
    CoordinatorAbort as CA, CoordinatorCommit as CC, ParticipantVoteAbort as VA,
    ParticipantVoteCommit as VC,
};

fn records(entries: &[(MessageType, i32)]) -> LogRecords {
    let mut r = LogRecords::new();
    for (i, (k, t)) in entries.iter().enumerate() {
        r.insert(i as u64, ProtocolMessage::generate(*k, *t, "x".to_string(), 0));
    }
    r
}

#[test]
fn a_consistent_participant_passes() {
    let coord = records(&[(CC, 1), (CA, 2), (CC, 3)]);
    let plog = records(&[(VC, 1), (CC, 1), (VA, 2), (CA, 2), (VC, 3), (CC, 3)]);
    let reports = check_last_run(&coord, &vec![ParticipantLog { name: "participant_0".to_string(), records: plog }]).unwrap();
    assert_eq!(reports.len(), 1);
    let r = &reports[0];
    assert_eq!(r.name, "participant_0");
    assert_eq!((r.commit_echoes, r.abort_echoes, r.commit_votes), (2, 1, 2));
    assert_eq!((r.global_commits, r.global_aborts), (2, 1));
}

#[test]
fn a_missing_commit_vote_breaks_agreement() {
    let committed = records(&[(CC, 1), (CC, 3)]);
    let plog = records(&[(VC, 1), (VC, 4)]);
    let v = check_participant(&"p".to_string(), 2, 0, &committed, &plog).unwrap_err();
    assert_eq!(v.participant, "p");
    assert_eq!(v.failure, CheckFailure::NoSingleCommitVote(3));
}

#[test]
fn a_duplicated_commit_vote_breaks_agreement() {
    let committed = records(&[(CC, 1)]);
    let plog = records(&[(VC, 1), (VC, 1)]);
    let v = check_participant(&"p".to_string(), 1, 0, &committed, &plog).unwrap_err();
    assert_eq!(v.failure, CheckFailure::NoSingleCommitVote(1));
}

#[test]
fn more_commit_echoes_than_global_commits_fail() {
    let committed = records(&[(CC, 1)]);
    let plog = records(&[(VC, 1), (CC, 1), (CC, 2)]);
    let v = check_participant(&"p".to_string(), 1, 0, &committed, &plog).unwrap_err();
    assert_eq!(v.failure, CheckFailure::TooManyCommitEchoes);
}

#[test]
fn fewer_commit_votes_than_global_commits_fail() {
    let committed = records(&[]);
    let plog = records(&[(VC, 1)]);
    let v = check_participant(&"p".to_string(), 2, 0, &committed, &plog).unwrap_err();
    assert_eq!(v.failure, CheckFailure::TooFewCommitVotes);
}

#[test]
fn more_abort_echoes_than_global_aborts_fail() {
    let committed = records(&[]);
    let plog = records(&[(CA, 1)]);
    let v = check_participant(&"p".to_string(), 0, 0, &committed, &plog).unwrap_err();
    assert_eq!(v.failure, CheckFailure::TooManyAbortEchoes);
}

#[test]
fn the_whole_run_check_names_the_first_failing_participant() {
    let coord = records(&[(CC, 1)]);
    let good = records(&[(VC, 1), (CC, 1)]);
    let bad = records(&[(VC, 2)]);
    let logs = vec![
        ParticipantLog { name: "participant_0".to_string(), records: good },
        ParticipantLog { name: "participant_1".to_string(), records: bad },
    ];
    let v = check_last_run(&coord, &logs).unwrap_err();
    assert_eq!(v.participant, "participant_1");
    assert_eq!(v.failure, CheckFailure::NoSingleCommitVote(1));
}

#[test]
fn empty_logs_pass() {
    let reports = check_last_run(&records(&[]), &vec![]).unwrap();
    assert!(reports.is_empty());
    assert!(check_participant(&"p".to_string(), 0, 0, &records(&[]), &records(&[])).is_ok());
}
