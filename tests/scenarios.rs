use std::sync::atomic::{AtomicBool, AtomicI32, Ordering};
use std::sync::Arc;
use two_phase_commit::{
    check_last_run, Chance, Client, Coordinator, Ending, Flow, MessageType, InMemory, OpLog, Participant,
    ParticipantLog, RequestStatus,
};

struct Run {
    coordinator: Coordinator<OpLog<InMemory>>,
    participants: Vec<Participant<OpLog<InMemory>>>,
    client: Client,
    running: Arc<AtomicBool>,
}

fn setup(n_participants: i32, op: Chance, msg: Chance) -> Run {
    let running = Arc::new(AtomicBool::new(true));
    let mut coordinator = Coordinator::new(OpLog::new("coordinator.log".to_string(), InMemory), running.clone());
    let (tx, rx) = coordinator.client_join("client_0".to_string());
    let client = Client::new(0, "client_0".to_string(), tx, rx, running.clone(), Arc::new(AtomicI32::new(1)));
    let mut participants = Vec::new();
    for i in 0..n_participants {
        let name = format!("participant_{}", i);
        let (tx, rx) = coordinator.participant_join(name.clone());
        let log = OpLog::new(format!("{}.log", name), InMemory);
        participants.push(Participant::new(i, name, running.clone(), tx, rx, log, op, msg));
    }
    Run { coordinator, participants, client, running }
}

/// One transaction, with the roles taking turns on one thread.
fn transact(run: &mut Run) -> RequestStatus {
    run.client.send_next_operation().unwrap();
    let requests = run.coordinator.recv_client_request();
    assert_eq!(requests.len(), 1);
    let request = &requests[0];
    run.coordinator.send_coordinator_proposal(request);
    for p in run.participants.iter_mut() {
        assert_eq!(p.step(), Ok(Flow::Continue));
    }
    let status = run.coordinator.recv_participant_vote(request).unwrap();
    let (response, decision) = run.coordinator.commit_vote_outcome_to_log(request, status).unwrap();
    run.coordinator.send_vote_outcome_to_participants(decision);
    assert!(run.coordinator.send_client_response(&request.senderid, response));
    for p in run.participants.iter_mut() {
        assert_eq!(p.step(), Ok(Flow::Continue));
    }
    run.client.recv_result().unwrap();
    status
}

fn count(p: &Participant<OpLog<InMemory>>, kind: MessageType) -> usize {
    let r = p.log().entries();
    (0..r.len()).filter(|&i| r.message(i).mtype == kind).count()
}

#[test]
fn happy_path_commits_every_request() {
    let mut run = setup(2, Chance::always(), Chance::always());
    for _ in 0..5 {
        assert_eq!(transact(&mut run), RequestStatus::Committed);
    }
    assert_eq!((run.client.successful_ops(), run.client.failed_ops(), run.client.pending_count()), (5, 0, 0));
    assert_eq!((run.coordinator.successful_ops(), run.coordinator.failed_ops()), (5, 0));
    for p in run.participants.iter() {
        assert_eq!(count(p, MessageType::ParticipantVoteCommit), 5);
        assert_eq!(count(p, MessageType::CoordinatorCommit), 5);
    }
    let logs: Vec<ParticipantLog> = run
        .participants
        .iter()
        .map(|p| {
            let mut records = two_phase_commit::LogRecords::new();
            let e = p.log().entries();
            for i in 0..e.len() {
                records.insert(e.key(i), e.message(i).clone());
            }
            ParticipantLog { name: p.name.clone(), records }
        })
        .collect();
    let reports = check_last_run(run.coordinator.log().entries(), &logs).unwrap();
    assert_eq!(reports.len(), 2);
    for r in reports.iter() {
        assert_eq!((r.commit_echoes, r.commit_votes, r.global_commits), (5, 5, 5));
    }
}

#[test]
fn failed_operations_abort_every_request() {
    let mut run = setup(2, Chance::never(), Chance::always());
    for _ in 0..5 {
        assert_eq!(transact(&mut run), RequestStatus::Aborted);
    }
    assert_eq!((run.client.successful_ops(), run.client.failed_ops()), (0, 5));
    let e = run.coordinator.log().entries();
    assert_eq!(e.len(), 5);
    for i in 0..e.len() {
        assert_eq!(e.message(i).mtype, MessageType::CoordinatorAbort);
    }
    for p in run.participants.iter() {
        assert_eq!(count(p, MessageType::ParticipantVoteAbort), 5);
    }
}

#[test]
fn lost_votes_resolve_to_abort() {
    let mut run = setup(2, Chance::always(), Chance::never());
    run.client.send_next_operation().unwrap();
    let requests = run.coordinator.recv_client_request();
    let request = &requests[0];
    run.coordinator.send_coordinator_proposal(request);
    for p in run.participants.iter_mut() {
        assert_eq!(p.step(), Ok(Flow::Continue));
        assert_eq!(p.unknown_ops(), 1);
    }
    // The votes were dropped; the participants go away, closing their channels.
    run.participants.clear();
    let status = run.coordinator.recv_participant_vote(request).unwrap();
    assert_eq!(status, RequestStatus::Unknown);
    let (response, decision) = run.coordinator.commit_vote_outcome_to_log(request, status).unwrap();
    assert_eq!(decision.mtype, MessageType::CoordinatorAbort);
    run.coordinator.send_vote_outcome_to_participants(decision);
    assert_eq!(run.coordinator.participant_count(), 0);
    run.coordinator.send_client_response(&request.senderid, response);
    run.client.recv_result().unwrap();
    assert_eq!((run.client.successful_ops(), run.client.failed_ops()), (0, 1));
}

#[test]
fn early_shutdown_leaves_requests_pending() {
    let mut run = setup(1, Chance::always(), Chance::always());
    assert_eq!(transact(&mut run), RequestStatus::Committed);
    // The run ends while the client still has requests to make.
    run.coordinator.send_exit_messages();
    assert_eq!(run.client.protocol(5), Ok(Ending::Exited));
    assert_eq!(run.client.pending_count(), 1);
    run.running.store(false, Ordering::SeqCst);
    assert_eq!(run.client.protocol(5), Ok(Ending::Stopped));
    assert_eq!(run.participants[0].step(), Ok(Flow::Stop));
    assert_eq!((run.client.successful_ops(), run.client.failed_ops(), run.client.pending_count()), (1, 0, 1));
}

#[test]
fn process_request_runs_both_phases_when_votes_are_waiting() {
    let mut run = setup(0, Chance::always(), Chance::always());
    run.client.send_next_operation().unwrap();
    assert_eq!(run.coordinator.run_round(), Ok(1));
    run.client.recv_result().unwrap();
    assert_eq!(run.client.successful_ops(), 1);
    assert_eq!(run.coordinator.run_round(), Ok(0));
}

#[test]
fn client_completes_every_round_when_answered() {
    let mut run = setup(0, Chance::always(), Chance::always());
    assert_eq!(run.client.protocol(0), Ok(Ending::Completed));
    assert_eq!(run.client.pending_count(), 0);
}
