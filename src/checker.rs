//! The offline checker: given the mappings read back from the coordinator's
//! and each participant's log after a run, it checks that they agree.
use crate::log::{entries_of_kind, messages_of, LogRecords};
use crate::message::{MessageType, MessageView};
use vstd::prelude::*;

verus! {

/// How many messages of kind `t` the sequence holds.
pub open spec fn count_kind(s: Seq<MessageView>, t: MessageType) -> nat
    decreases s.len(),
{
    if s.len() == 0 {
        0
    } else {
        count_kind(s.drop_last(), t) + if s.last().mtype == t {
            1nat
        } else {
            0nat
        }
    }
}

/// How many messages of kind `t` for transaction `txid` the sequence holds.
pub open spec fn count_kind_txid(s: Seq<MessageView>, t: MessageType, txid: i32) -> nat
    decreases s.len(),
{
    if s.len() == 0 {
        0
    } else {
        count_kind_txid(s.drop_last(), t, txid) + if s.last().mtype == t && s.last().txid
            == txid {
            1nat
        } else {
            0nat
        }
    }
}

/// Every transaction in `committed` has exactly one commit vote in the
/// participant's log.
pub open spec fn agreement(committed: Seq<MessageView>, plog: Seq<MessageView>) -> bool {
    forall|i: int|
        0 <= i < committed.len() ==> count_kind_txid(
            plog,
            MessageType::ParticipantVoteCommit,
            #[trigger] committed[i].txid,
        ) == 1
}

/// What the checker counted in a participant's log that passed.
#[derive(Debug)]
pub struct ParticipantReport {
    pub name: String,
    /// Coordinator commit decisions the participant logged.
    pub commit_echoes: usize,
    /// Coordinator abort decisions the participant logged.
    pub abort_echoes: usize,
    /// Commit votes the participant logged.
    pub commit_votes: usize,
    /// Commit decisions in the coordinator's log.
    pub global_commits: usize,
    /// Abort decisions in the coordinator's log.
    pub global_aborts: usize,
}

/// The check that a participant's log failed.
#[derive(Clone, Copy, Debug, PartialEq, Eq, Structural)]
pub enum CheckFailure {
    /// Fewer commit votes than the coordinator's commits.
    TooFewCommitVotes,
    /// More commit decisions logged than the coordinator made.
    TooManyCommitEchoes,
    /// More abort decisions logged than the coordinator made.
    TooManyAbortEchoes,
    /// A transaction the coordinator committed without exactly one commit
    /// vote in the participant's log.
    NoSingleCommitVote(i32),
}

/// A participant whose log failed a check, and the check.
#[derive(Debug)]
pub struct CheckViolation {
    pub participant: String,
    pub failure: CheckFailure,
}

/// The first committed transaction without exactly one commit vote.
pub open spec fn first_unagreed(committed: Seq<MessageView>, plog: Seq<MessageView>) -> Option<i32>
    decreases committed.len(),
{
    if committed.len() == 0 {
        None
    } else if count_kind_txid(plog, MessageType::ParticipantVoteCommit, committed[0].txid) != 1 {
        Some(committed[0].txid)
    } else {
        first_unagreed(committed.drop_first(), plog)
    }
}

/// The first check, in the order they are made, that the participant's log
/// fails, if any.
pub open spec fn first_failure(
    ncommit: nat,
    nabort: nat,
    committed: Seq<MessageView>,
    plog: Seq<MessageView>,
) -> Option<CheckFailure> {
    if count_kind(plog, MessageType::ParticipantVoteCommit) < ncommit {
        Some(CheckFailure::TooFewCommitVotes)
    } else if count_kind(plog, MessageType::CoordinatorCommit) > ncommit {
        Some(CheckFailure::TooManyCommitEchoes)
    } else if count_kind(plog, MessageType::CoordinatorAbort) > nabort {
        Some(CheckFailure::TooManyAbortEchoes)
    } else {
        match first_unagreed(committed, plog) {
            Some(t) => Some(CheckFailure::NoSingleCommitVote(t)),
            None => None,
        }
    }
}

proof fn lemma_first_unagreed(committed: Seq<MessageView>, plog: Seq<MessageView>)
    ensures
        first_unagreed(committed, plog) is None <==> agreement(committed, plog),
    decreases committed.len(),
{
    if committed.len() > 0 {
        lemma_first_unagreed(committed.drop_first(), plog);
        if agreement(committed, plog) {
            assert forall|i: int| 0 <= i < committed.drop_first().len() implies count_kind_txid(
                plog,
                MessageType::ParticipantVoteCommit,
                #[trigger] committed.drop_first()[i].txid,
            ) == 1 by {
                assert(committed.drop_first()[i] == committed[i + 1]);
            }
        }
        if first_unagreed(committed, plog) is None {
            assert forall|i: int| 0 <= i < committed.len() implies count_kind_txid(
                plog,
                MessageType::ParticipantVoteCommit,
                #[trigger] committed[i].txid,
            ) == 1 by {
                if i > 0 {
                    assert(committed[i] == committed.drop_first()[i - 1]);
                }
            }
        }
    }
}

/// The report on a participant's log that passed.
pub open spec fn report_holds(
    r: ParticipantReport,
    name: Seq<char>,
    ncommit: nat,
    nabort: nat,
    plog: Seq<MessageView>,
) -> bool {
    &&& r.name@ == name
    &&& r.commit_echoes == count_kind(plog, MessageType::CoordinatorCommit)
    &&& r.abort_echoes == count_kind(plog, MessageType::CoordinatorAbort)
    &&& r.commit_votes == count_kind(plog, MessageType::ParticipantVoteCommit)
    &&& r.global_commits == ncommit
    &&& r.global_aborts == nabort
}

/// What checking one participant gives: its report when every check passes,
/// else the first check it fails.
pub open spec fn checked(
    r: Result<ParticipantReport, CheckViolation>,
    name: Seq<char>,
    ncommit: nat,
    nabort: nat,
    committed: Seq<MessageView>,
    plog: Seq<MessageView>,
) -> bool {
    match r {
        Ok(rep) => first_failure(ncommit, nabort, committed, plog) is None && report_holds(
            rep,
            name,
            ncommit,
            nabort,
            plog,
        ),
        Err(v) => v.participant@ == name && first_failure(ncommit, nabort, committed, plog)
            == Some(v.failure),
    }
}

fn count_votes_for(plog: &LogRecords, txid: i32) -> (r: usize)
    ensures
        r == count_kind_txid(messages_of(plog@), MessageType::ParticipantVoteCommit, txid),
{
    let ghost ms = messages_of(plog@);
    let mut n: usize = 0;
    let mut i: usize = 0;
    while i < plog.len()
        invariant
            i <= plog@.len(),
            ms == messages_of(plog@),
            n == count_kind_txid(ms.subrange(0, i as int), MessageType::ParticipantVoteCommit, txid),
            n <= i,
        decreases plog@.len() - i,
    {
        let m = plog.message(i);
        assert(ms.subrange(0, i + 1).drop_last() =~= ms.subrange(0, i as int));
        if m.mtype == MessageType::ParticipantVoteCommit && m.txid == txid {
            n = n + 1;
        }
        i = i + 1;
    }
    assert(ms.subrange(0, i as int) =~= ms);
    n
}

/// Checks one participant's log against the coordinator's decisions:
/// `ncommit` and `nabort` are the coordinator's commit and abort counts, and
/// `ccommitted` its commit decisions. A log that fails a check gives the
/// first check it fails; the checks pass exactly when every committed
/// transaction has exactly one commit vote and the counts are within bounds.
pub fn check_participant(
    participant: &String,
    ncommit: usize,
    nabort: usize,
    ccommitted: &LogRecords,
    plog: &LogRecords,
) -> (r: Result<ParticipantReport, CheckViolation>)
    ensures
        checked(
            r,
            participant@,
            ncommit as nat,
            nabort as nat,
            messages_of(ccommitted@),
            messages_of(plog@),
        ),
        r is Ok <==> ({
            let plv = messages_of(plog@);
            &&& count_kind(plv, MessageType::CoordinatorCommit) <= ncommit
            &&& count_kind(plv, MessageType::ParticipantVoteCommit) >= ncommit
            &&& count_kind(plv, MessageType::CoordinatorAbort) <= nabort
            &&& agreement(messages_of(ccommitted@), plv)
        }),
{
    let ghost ms = messages_of(plog@);
    let mut npcommit: usize = 0;
    let mut npabort: usize = 0;
    let mut nlcommit: usize = 0;
    let mut i: usize = 0;
    while i < plog.len()
        invariant
            i <= plog@.len(),
            ms == messages_of(plog@),
            npcommit == count_kind(ms.subrange(0, i as int), MessageType::CoordinatorCommit),
            npabort == count_kind(ms.subrange(0, i as int), MessageType::CoordinatorAbort),
            nlcommit == count_kind(ms.subrange(0, i as int), MessageType::ParticipantVoteCommit),
            npcommit <= i && npabort <= i && nlcommit <= i,
        decreases plog@.len() - i,
    {
        let m = plog.message(i);
        assert(ms.subrange(0, i + 1).drop_last() =~= ms.subrange(0, i as int));
        match m.mtype {
            MessageType::CoordinatorCommit => npcommit = npcommit + 1,
            MessageType::CoordinatorAbort => npabort = npabort + 1,
            MessageType::ParticipantVoteCommit => nlcommit = nlcommit + 1,
            _ => {},
        }
        i = i + 1;
    }
    assert(ms.subrange(0, i as int) =~= ms);
    let ghost cs = messages_of(ccommitted@);
    proof {
        lemma_first_unagreed(cs, ms);
    }
    if nlcommit < ncommit {
        return Err(CheckViolation { participant: participant.clone(), failure: CheckFailure::TooFewCommitVotes });
    }
    if npcommit > ncommit {
        return Err(CheckViolation { participant: participant.clone(), failure: CheckFailure::TooManyCommitEchoes });
    }
    if npabort > nabort {
        return Err(CheckViolation { participant: participant.clone(), failure: CheckFailure::TooManyAbortEchoes });
    }
    let mut k: usize = 0;
    assert(cs.subrange(0, cs.len() as int) =~= cs);
    while k < ccommitted.len()
        invariant
            k <= ccommitted@.len(),
            cs == messages_of(ccommitted@),
            ms == messages_of(plog@),
            first_unagreed(cs, ms) == first_unagreed(cs.subrange(k as int, cs.len() as int), ms),
            npcommit == count_kind(ms, MessageType::CoordinatorCommit),
            npabort == count_kind(ms, MessageType::CoordinatorAbort),
            nlcommit == count_kind(ms, MessageType::ParticipantVoteCommit),
            nlcommit >= ncommit && npcommit <= ncommit && npabort <= nabort,
        decreases ccommitted@.len() - k,
    {
        let txid = ccommitted.message(k).txid;
        let found = count_votes_for(plog, txid);
        let ghost rest = cs.subrange(k as int, cs.len() as int);
        assert(cs[k as int] == ccommitted@[k as int].1);
        assert(rest[0] == cs[k as int]);
        assert(rest.drop_first() =~= cs.subrange(k + 1, cs.len() as int));
        if found != 1 {
            assert(rest.len() > 0);
            assert(first_unagreed(rest, ms) == Some(txid));
            assert(first_unagreed(cs, ms) == Some(txid));
            return Err(CheckViolation { participant: participant.clone(), failure: CheckFailure::NoSingleCommitVote(txid) });
        }
        k = k + 1;
    }
    assert(cs.subrange(k as int, cs.len() as int) =~= Seq::<MessageView>::empty());
    Ok(ParticipantReport {
        name: participant.clone(),
        commit_echoes: npcommit,
        abort_echoes: npabort,
        commit_votes: nlcommit,
        global_commits: ncommit,
        global_aborts: nabort,
    })
}

/// A participant's name and the mapping read back from its log.
pub struct ParticipantLog {
    pub name: String,
    pub records: LogRecords,
}

/// Checks every participant's log against the coordinator's log. It fails
/// exactly when some participant's log fails a check, naming the first such
/// participant and the first check it fails.
pub fn check_last_run(coordinator_log: &LogRecords, participant_logs: &Vec<ParticipantLog>) -> (r: Result<
    Vec<ParticipantReport>,
    CheckViolation,
>)
    ensures
        ({
            let committed = entries_of_kind(coordinator_log@, MessageType::CoordinatorCommit);
            let nc = committed.len();
            let na = entries_of_kind(coordinator_log@, MessageType::CoordinatorAbort).len();
            let ps = participant_logs@;
            match r {
                Ok(reports) => reports@.len() == ps.len() && forall|i: int|
                    0 <= i < ps.len() ==> checked(
                        Ok::<ParticipantReport, CheckViolation>(#[trigger] reports@[i]),
                        ps[i].name@,
                        nc,
                        na,
                        messages_of(committed),
                        messages_of(ps[i].records@),
                    ),
                Err(v) => exists|i: int|
                    0 <= i < ps.len() && (forall|j: int|
                        0 <= j < i ==> first_failure(
                            nc,
                            na,
                            messages_of(committed),
                            messages_of(#[trigger] ps[j].records@),
                        ) is None) && checked(
                        Err::<ParticipantReport, CheckViolation>(v),
                        ps[i].name@,
                        nc,
                        na,
                        messages_of(committed),
                        messages_of(ps[i].records@),
                    ),
            }
        }),
{
    let committed = coordinator_log.of_kind(MessageType::CoordinatorCommit);
    let aborted = coordinator_log.of_kind(MessageType::CoordinatorAbort);
    let ncommit = committed.len();
    let nabort = aborted.len();
    let mut reports: Vec<ParticipantReport> = Vec::new();
    let mut i: usize = 0;
    while i < participant_logs.len()
        invariant
            i <= participant_logs@.len(),
            reports@.len() == i,
            committed@ == entries_of_kind(coordinator_log@, MessageType::CoordinatorCommit),
            ncommit == committed@.len(),
            nabort == entries_of_kind(coordinator_log@, MessageType::CoordinatorAbort).len(),
            forall|j: int|
                0 <= j < i ==> checked(
                    Ok::<ParticipantReport, CheckViolation>(#[trigger] reports@[j]),
                    participant_logs@[j].name@,
                    ncommit as nat,
                    nabort as nat,
                    messages_of(committed@),
                    messages_of(participant_logs@[j].records@),
                ),
        decreases participant_logs@.len() - i,
    {
        let p = &participant_logs[i];
        match check_participant(&p.name, ncommit, nabort, &committed, &p.records) {
            Ok(report) => reports.push(report),
            Err(v) => {
                proof {
                    assert forall|j: int| 0 <= j < i implies first_failure(
                        ncommit as nat,
                        nabort as nat,
                        messages_of(committed@),
                        messages_of(#[trigger] participant_logs@[j].records@),
                    ) is None by {
                        assert(checked(
                            Ok::<ParticipantReport, CheckViolation>(reports@[j]),
                            participant_logs@[j].name@,
                            ncommit as nat,
                            nabort as nat,
                            messages_of(committed@),
                            messages_of(participant_logs@[j].records@),
                        ));
                    }
                }
                return Err(v);
            },
        }
        i = i + 1;
    }
    Ok(reports)
}

} // verus!
