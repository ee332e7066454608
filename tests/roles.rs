use std::sync::atomic::{AtomicBool, AtomicI32};
use std::sync::mpsc::channel;
use std::sync::Arc;
use two_phase_commit::{
    tally_votes, Chance, Client, ClientError, Coordinator, CoordinatorError, Flow, MessageType,
    InMemory, OpLog, Participant, ParticipantError, ProtocolMessage, Reply, RequestStatus,
};

fn vote(kind: MessageType, txid: i32) -> Option<ProtocolMessage> {
    Some(ProtocolMessage::generate(kind, txid, "p".to_string(), 0))
}

#[test]
fn tally_commits_only_when_every_vote_commits() {
    let all = vec![vote(MessageType::ParticipantVoteCommit, 3), vote(MessageType::ParticipantVoteCommit, 3)];
    assert_eq!(tally_votes(&all, 3), Ok(RequestStatus::Committed));
    let none: Vec<Option<ProtocolMessage>> = vec![];
    assert_eq!(tally_votes(&none, 3), Ok(RequestStatus::Committed));
    let one_abort = vec![vote(MessageType::ParticipantVoteAbort, 3), vote(MessageType::ParticipantVoteCommit, 3)];
    assert_eq!(tally_votes(&one_abort, 3), Ok(RequestStatus::Aborted));
    let lost = vec![vote(MessageType::ParticipantVoteCommit, 3), None];
    assert_eq!(tally_votes(&lost, 3), Ok(RequestStatus::Unknown));
    let lost_then_abort = vec![None, vote(MessageType::ParticipantVoteAbort, 3)];
    assert_eq!(tally_votes(&lost_then_abort, 3), Ok(RequestStatus::Aborted));
}

#[test]
fn tally_rejects_foreign_and_unexpected_replies() {
    let foreign = vec![vote(MessageType::ParticipantVoteCommit, 4)];
    assert_eq!(tally_votes(&foreign, 3), Err(CoordinatorError::TxidMismatch(4)));
    let odd = vec![vote(MessageType::ClientRequest, 3)];
    assert_eq!(tally_votes(&odd, 3), Err(CoordinatorError::Unexpected(MessageType::ClientRequest)));
}

#[test]
fn chance_bounds_and_draws() {
    assert!(Chance::always().hits(u32::MAX));
    assert!(!Chance::never().hits(0));
    let half = Chance::from_units(1 << 31);
    assert!(half.hits((1 << 31) - 1));
    assert!(!half.hits(1 << 31));
    assert_eq!(Chance::from_units(u64::MAX), Chance::always());
}

fn client_with_channels() -> (Client, std::sync::mpsc::Receiver<ProtocolMessage>, std::sync::mpsc::Sender<ProtocolMessage>) {
    let (to_coord, from_client) = channel();
    let (to_client, from_coord) = channel();
    let running = Arc::new(AtomicBool::new(true));
    let txids = Arc::new(AtomicI32::new(1));
    (Client::new(0, "client_0".to_string(), to_coord, from_coord, running, txids), from_client, to_client)
}

#[test]
fn client_records_and_resolves_a_request() {
    let (mut c, from_client, _to_client) = client_with_channels();
    c.send_request(10).unwrap();
    let req = from_client.recv().unwrap();
    assert_eq!(req, ProtocolMessage::generate(MessageType::ClientRequest, 10, "client_0".to_string(), 0));
    assert_eq!(c.pending_count(), 1);
    let reply = ProtocolMessage::generate(MessageType::ClientResultCommit, 10, "coordinator".to_string(), 0);
    assert_eq!(c.handle_result(&reply), Ok(Reply::Committed));
    assert_eq!((c.successful_ops(), c.failed_ops(), c.pending_count()), (1, 0, 0));
}

#[test]
fn client_reports_each_protocol_violation() {
    let (mut c, _from_client, _to_client) = client_with_channels();
    c.send_request(10).unwrap();
    assert_eq!(c.send_request(10), Err(ClientError::DuplicateTxid(10)));
    let unknown = ProtocolMessage::generate(MessageType::ClientResultAbort, 11, "coordinator".to_string(), 0);
    assert_eq!(c.handle_result(&unknown), Err(ClientError::UnknownTransaction(11)));
    let wrong_op = ProtocolMessage::generate(MessageType::ClientResultAbort, 10, "coordinator".to_string(), 7);
    assert_eq!(c.handle_result(&wrong_op), Err(ClientError::OpidMismatch(10)));
    let odd = ProtocolMessage::generate(MessageType::CoordinatorPropose, 10, "coordinator".to_string(), 0);
    assert_eq!(c.handle_result(&odd), Err(ClientError::Unexpected(MessageType::CoordinatorPropose)));
    let exit = ProtocolMessage::generate(MessageType::CoordinatorExit, -1, "coordinator".to_string(), -1);
    assert_eq!(c.handle_result(&exit), Ok(Reply::Exit));
    assert_eq!(c.pending_count(), 1);
    let abort = ProtocolMessage::generate(MessageType::ClientResultAbort, 10, "coordinator".to_string(), 0);
    assert_eq!(c.handle_result(&abort), Ok(Reply::Aborted));
    assert_eq!((c.successful_ops(), c.failed_ops(), c.pending_count()), (0, 1, 0));
}

#[test]
fn client_reports_a_closed_channel() {
    let (mut c, from_client, to_client) = client_with_channels();
    drop(from_client);
    assert_eq!(c.send_request(1), Err(ClientError::Disconnected));
    assert_eq!(c.pending_count(), 1);
    drop(to_client);
    assert_eq!(c.recv_result(), Err(ClientError::Disconnected));
}

#[test]
fn successive_requests_get_increasing_txids_across_clients() {
    let txids = Arc::new(AtomicI32::new(1));
    let running = Arc::new(AtomicBool::new(true));
    let (ta, ra) = channel();
    let (_sa, fa) = channel();
    let (tb, rb) = channel();
    let (_sb, fb) = channel();
    let mut a = Client::new(0, "client_0".to_string(), ta, fa, running.clone(), txids.clone());
    let mut b = Client::new(1, "client_1".to_string(), tb, fb, running, txids);
    let mut seen = Vec::new();
    for _ in 0..3 {
        a.send_next_operation().unwrap();
        seen.push(ra.recv().unwrap().txid);
        b.send_next_operation().unwrap();
        seen.push(rb.recv().unwrap().txid);
    }
    assert_eq!(seen, vec![1, 2, 3, 4, 5, 6]);
}

fn participant(op: Chance, msg: Chance) -> (Participant<OpLog<InMemory>>, std::sync::mpsc::Receiver<ProtocolMessage>, std::sync::mpsc::Sender<ProtocolMessage>) {
    let (to_coord, from_part) = channel();
    let (to_part, from_coord) = channel();
    let running = Arc::new(AtomicBool::new(true));
    let log = OpLog::new("participant_0.log".to_string(), InMemory);
    (Participant::new(0, "participant_0".to_string(), running, to_coord, from_coord, log, op, msg), from_part, to_part)
}

#[test]
fn participant_logs_its_vote_before_sending_it() {
    let (mut p, from_part, _to_part) = participant(Chance::always(), Chance::always());
    let propose = ProtocolMessage::generate(MessageType::CoordinatorPropose, 5, "coordinator".to_string(), 2);
    assert_eq!(p.handle_message_with(&propose, 0, 0), Ok(Flow::Continue));
    let expected = ProtocolMessage::generate(MessageType::ParticipantVoteCommit, 5, "participant_0".to_string(), 2);
    assert_eq!(from_part.recv().unwrap(), expected);
    assert_eq!(p.log().read(1).unwrap(), expected.with_uid(1));
    assert_eq!(p.unknown_ops(), 1);
}

#[test]
fn participant_votes_abort_when_the_operation_fails_and_may_lose_the_vote() {
    let (mut p, from_part, _to_part) = participant(Chance::from_units(10), Chance::from_units(10));
    let propose = ProtocolMessage::generate(MessageType::CoordinatorPropose, 5, "coordinator".to_string(), 2);
    assert_eq!(p.handle_message_with(&propose, 10, 10), Ok(Flow::Continue));
    assert!(from_part.try_recv().is_err());
    assert_eq!(p.log().read(1).unwrap().mtype, MessageType::ParticipantVoteAbort);
    assert_eq!(p.handle_message_with(&propose, 9, 9), Ok(Flow::Continue));
    assert_eq!(from_part.recv().unwrap().mtype, MessageType::ParticipantVoteCommit);
}

#[test]
fn participant_applies_decisions_and_rejects_strays() {
    let (mut p, _from_part, _to_part) = participant(Chance::always(), Chance::always());
    let commit = ProtocolMessage::generate(MessageType::CoordinatorCommit, 5, "coordinator".to_string(), 2);
    assert_eq!(p.handle_message_with(&commit, 0, 0), Err(ParticipantError::NoOpenTransaction(5)));
    let propose = ProtocolMessage::generate(MessageType::CoordinatorPropose, 5, "coordinator".to_string(), 2);
    p.handle_message_with(&propose, 0, 0).unwrap();
    assert_eq!(p.handle_message_with(&commit, 0, 0), Ok(Flow::Continue));
    assert_eq!((p.successful_ops(), p.failed_ops(), p.unknown_ops()), (1, 0, 0));
    assert_eq!(p.log().read(2).unwrap(), commit.with_uid(2));
    let request = ProtocolMessage::generate(MessageType::ClientRequest, 5, "c".to_string(), 2);
    assert_eq!(p.handle_message_with(&request, 0, 0), Err(ParticipantError::Unexpected(MessageType::ClientRequest)));
    let exit = ProtocolMessage::generate(MessageType::CoordinatorExit, -1, "coordinator".to_string(), -1);
    assert_eq!(p.handle_message_with(&exit, 0, 0), Ok(Flow::Stop));
}

#[test]
fn coordinator_registry_joins_and_leaves() {
    let running = Arc::new(AtomicBool::new(true));
    let mut c = Coordinator::new(OpLog::new("coordinator.log".to_string(), InMemory), running);
    let _a = c.client_join("client_0".to_string());
    let _b = c.client_join("client_1".to_string());
    let _a2 = c.client_join("client_0".to_string());
    assert_eq!(c.client_count(), 2);
    c.client_leave(&"client_0".to_string());
    c.client_leave(&"nobody".to_string());
    assert_eq!(c.client_count(), 1);
    let _p = c.participant_join("participant_0".to_string());
    assert_eq!(c.participant_count(), 1);
    c.participant_leave(&"participant_0".to_string());
    assert_eq!(c.participant_count(), 0);
}

#[test]
fn coordinator_logs_the_decision_and_builds_the_result() {
    let running = Arc::new(AtomicBool::new(true));
    let mut c = Coordinator::new(OpLog::new("coordinator.log".to_string(), InMemory), running);
    let req = ProtocolMessage::generate(MessageType::ClientRequest, 8, "client_0".to_string(), 4);
    let (resp, dec) = c.commit_vote_outcome_to_log(&req, RequestStatus::Unknown).unwrap();
    assert_eq!(dec, ProtocolMessage::generate(MessageType::CoordinatorAbort, 8, "coordinator".to_string(), 4));
    assert_eq!(resp, ProtocolMessage::generate(MessageType::ClientResultAbort, 8, "coordinator".to_string(), 4));
    assert_eq!(c.log().read(1).unwrap(), dec.with_uid(1));
    let (resp, dec) = c.commit_vote_outcome_to_log(&req, RequestStatus::Committed).unwrap();
    assert_eq!(dec.mtype, MessageType::CoordinatorCommit);
    assert_eq!(resp.mtype, MessageType::ClientResultCommit);
    assert_eq!((c.successful_ops(), c.failed_ops()), (1, 1));
}

#[test]
fn participant_reports_a_closed_channel() {
    let (mut p, _from_part, to_part) = participant(Chance::always(), Chance::always());
    drop(to_part);
    assert_eq!(p.step(), Err(ParticipantError::Disconnected));
}
