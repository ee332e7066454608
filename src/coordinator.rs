//! The coordinator: collects client requests, runs the two phases of the
//! protocol for each, logs every decision before announcing it, and keeps the
//! registries of clients and participants.
use crate::checker::{count_kind, count_kind_txid};
use crate::log::{LogError, MessageLog};
use crate::message::{fresh_message, is_decision, MessageType, MessageView, ProtocolMessage, RequestStatus};
use crate::participant::coordinator_name;
use crate::transport::{
    channel_pair, logged, received, recv_message, refused, send_message, sent, try_recv_message, Effect,
};
use std::sync::atomic::{AtomicBool, Ordering};
use std::sync::mpsc::{Receiver, Sender};
use std::sync::Arc;
use vstd::prelude::*;

verus! {

/// States of the coordinator's state machine.
#[derive(Clone, Copy, Debug, PartialEq, Eq, Structural)]
pub enum CoordinatorState {
    Quiescent,
}

/// Why the coordinator stopped.
#[derive(Clone, Copy, Debug, PartialEq, Eq, Structural)]
pub enum CoordinatorError {
    /// A vote names another transaction than the one being decided.
    TxidMismatch(i32),
    /// A message that is no vote arrived during vote collection.
    Unexpected(MessageType),
    /// The log refused a decision.
    Log(LogError),
    /// The decision counters are full.
    CounterOverflow,
}

/// A registered peer: its name and the coordinator's ends of the channels.
pub struct Peer {
    pub name: String,
    tx: Sender<ProtocolMessage>,
    rx: Receiver<ProtocolMessage>,
}

pub closed spec fn names_of(peers: Seq<Peer>) -> Seq<Seq<char>> {
    peers.map_values(|p: Peer| p.name@)
}

pub open spec fn names_distinct(ns: Seq<Seq<char>>) -> bool {
    forall|i: int, j: int| 0 <= i < j < ns.len() ==> ns[i] != ns[j]
}

/// The views of the messages, in order.
pub open spec fn views_of(s: Seq<ProtocolMessage>) -> Seq<MessageView> {
    s.map_values(|m: ProtocolMessage| m@)
}

/// The messages among the replies, in order.
pub open spec fn somes(s: Seq<Option<MessageView>>) -> Seq<MessageView>
    decreases s.len(),
{
    if s.len() == 0 {
        Seq::empty()
    } else {
        match s.last() {
            Some(m) => somes(s.drop_last()).push(m),
            None => somes(s.drop_last()),
        }
    }
}

proof fn lemma_somes_len(s: Seq<Option<MessageView>>)
    ensures
        somes(s).len() <= s.len(),
    decreases s.len(),
{
    if s.len() > 0 {
        lemma_somes_len(s.drop_last());
    }
}

/// Every failure of a tally is a reply that is not a vote for the
/// transaction.
proof fn lemma_tally_errors(replies: Seq<Option<MessageView>>, txid: i32)
    ensures
        tally(replies, txid) matches Err(e) ==> (e is TxidMismatch || e is Unexpected),
    decreases replies.len(),
{
    if replies.len() > 0 {
        lemma_tally_errors(replies.drop_last(), txid);
    }
}

/// The error kinds that deciding requests can end in, given how many
/// requests there were.
pub open spec fn decide_error(e: CoordinatorError, decided_before: int, n: int) -> bool {
    e is Log || e is TxidMismatch || e is Unexpected || (e == CoordinatorError::CounterOverflow
        && decided_before + n > usize::MAX)
}

/// The peers whose channel took the message: those with `ok` set.
pub open spec fn kept(ns: Seq<Seq<char>>, ok: Seq<bool>) -> Seq<Seq<char>>
    decreases ns.len(),
{
    if ns.len() == 0 {
        Seq::empty()
    } else if ok[ns.len() - 1] {
        kept(ns.drop_last(), ok.drop_last()).push(ns.last())
    } else {
        kept(ns.drop_last(), ok.drop_last())
    }
}

/// The registry after `name` joins: a new name goes last, a known one keeps
/// its place.
pub open spec fn joined(ns: Seq<Seq<char>>, name: Seq<char>) -> Seq<Seq<char>> {
    if ns.contains(name) {
        ns
    } else {
        ns.push(name)
    }
}

/// The registry after `name` leaves.
pub open spec fn left(ns: Seq<Seq<char>>, name: Seq<char>) -> Seq<Seq<char>> {
    ns.filter(|n: Seq<char>| n != name)
}

/// One send of `m` to each of the peers, in order, with whether each
/// channel took it.
pub open spec fn sends_to(ns: Seq<Seq<char>>, m: MessageView, ok: Seq<bool>) -> Seq<Effect> {
    Seq::new(ns.len(), |i: int| sent(ns[i], m, ok[i]))
}

/// One reply taken from each of the peers, in order.
pub open spec fn receives_from(ns: Seq<Seq<char>>, replies: Seq<Option<MessageView>>) -> Seq<
    Effect,
> {
    Seq::new(ns.len(), |i: int| received(ns[i], replies[i]))
}

pub open spec fn proposal_for(request: MessageView) -> MessageView {
    fresh_message(MessageType::CoordinatorPropose, request.txid, coordinator_name(), request.opid)
}

pub open spec fn decision_kind(s: RequestStatus) -> MessageType {
    if s == RequestStatus::Committed {
        MessageType::CoordinatorCommit
    } else {
        MessageType::CoordinatorAbort
    }
}

pub open spec fn result_kind(s: RequestStatus) -> MessageType {
    if s == RequestStatus::Committed {
        MessageType::ClientResultCommit
    } else {
        MessageType::ClientResultAbort
    }
}

pub open spec fn decision_for(request: MessageView, s: RequestStatus) -> MessageView {
    fresh_message(decision_kind(s), request.txid, coordinator_name(), request.opid)
}

pub open spec fn result_for(request: MessageView, s: RequestStatus) -> MessageView {
    fresh_message(result_kind(s), request.txid, coordinator_name(), request.opid)
}

pub open spec fn exit_message() -> MessageView {
    fresh_message(MessageType::CoordinatorExit, -1i32, coordinator_name(), -1i32)
}

/// The view of the replies gathered during vote collection; `None` where a
/// participant's channel was found closed.
pub open spec fn replies_view(v: Seq<Option<ProtocolMessage>>) -> Seq<Option<MessageView>> {
    v.map_values(|o: Option<ProtocolMessage>| reply_view(o))
}

pub open spec fn reply_view(o: Option<ProtocolMessage>) -> Option<MessageView> {
    match o {
        Some(m) => Some(m@),
        None => None,
    }
}

/// The tally after one more reply: an abort vote aborts, a closed channel
/// makes the outcome unknown, a commit vote leaves the tally as it was.
pub open spec fn tally_step(s: RequestStatus, reply: Option<MessageView>, txid: i32) -> Result<
    RequestStatus,
    CoordinatorError,
> {
    match reply {
        None => Ok(RequestStatus::Unknown),
        Some(m) => if m.txid != txid {
            Err(CoordinatorError::TxidMismatch(m.txid))
        } else if m.mtype == MessageType::ParticipantVoteCommit {
            Ok(s)
        } else if m.mtype == MessageType::ParticipantVoteAbort {
            Ok(RequestStatus::Aborted)
        } else {
            Err(CoordinatorError::Unexpected(m.mtype))
        },
    }
}

/// The outcome of a vote collection, from `Committed` over the replies in
/// registration order.
pub open spec fn tally(replies: Seq<Option<MessageView>>, txid: i32) -> Result<
    RequestStatus,
    CoordinatorError,
>
    decreases replies.len(),
{
    if replies.len() == 0 {
        Ok(RequestStatus::Committed)
    } else {
        match tally(replies.drop_last(), txid) {
            Ok(s) => tally_step(s, replies.last(), txid),
            Err(e) => Err(e),
        }
    }
}

/// A reply that is a commit vote for `txid`.
pub open spec fn is_commit_vote(reply: Option<MessageView>, txid: i32) -> bool {
    reply matches Some(m) && m.mtype == MessageType::ParticipantVoteCommit && m.txid == txid
}

/// The coordinator commits exactly when every participant it asked replied
/// with a commit vote for the transaction.
pub proof fn lemma_commit_needs_every_vote(replies: Seq<Option<MessageView>>, txid: i32)
    ensures
        tally(replies, txid) == Ok::<RequestStatus, CoordinatorError>(RequestStatus::Committed)
            <==> forall|i: int| 0 <= i < replies.len() ==> is_commit_vote(#[trigger] replies[i], txid),
    decreases replies.len(),
{
    if replies.len() > 0 {
        lemma_commit_needs_every_vote(replies.drop_last(), txid);
        lemma_tally_never_recommits(replies.drop_last(), txid);
        if forall|i: int| 0 <= i < replies.len() ==> is_commit_vote(#[trigger] replies[i], txid) {
            assert forall|i: int| 0 <= i < replies.drop_last().len() implies is_commit_vote(
                #[trigger] replies.drop_last()[i],
                txid,
            ) by {
                assert(replies.drop_last()[i] == replies[i]);
            }
            assert(is_commit_vote(replies[replies.len() - 1], txid));
        } else {
            let i = choose|i: int| 0 <= i < replies.len() && !is_commit_vote(#[trigger] replies[i], txid);
            if i < replies.len() - 1 {
                assert(replies.drop_last()[i] == replies[i]);
            }
        }
    }
}

/// Once the tally has left `Committed`, no later reply brings it back.
proof fn lemma_tally_never_recommits(replies: Seq<Option<MessageView>>, txid: i32)
    ensures
        tally(replies, txid) matches Ok(s) ==> (s == RequestStatus::Committed || forall|r: Option<MessageView>| tally_step(s, r, txid) != Ok::<RequestStatus, CoordinatorError>(RequestStatus::Committed)),
{
}

/// `d` is the coordinator's terminal decision on request `h`.
pub open spec fn answers(d: MessageView, h: MessageView) -> bool {
    is_decision(d.mtype) && d == fresh_message(d.mtype, h.txid, coordinator_name(), h.opid)
}

/// Every decision answers the request handled at the same position.
pub open spec fn decisions_answer(decisions: Seq<MessageView>, handled: Seq<MessageView>) -> bool {
    &&& decisions.len() == handled.len()
    &&& forall|i: int| 0 <= i < decisions.len() ==> answers(#[trigger] decisions[i], handled[i])
}

/// Everything but the trace is the same: the log, registries, decisions and
/// counters.
pub open spec fn same_state_but_trace<L: MessageLog>(a: Coordinator<L>, b: Coordinator<L>) -> bool {
    &&& b.log_appended() == a.log_appended()
    &&& b.clients() == a.clients()
    &&& b.participants() == a.participants()
    &&& b.decisions() == a.decisions()
    &&& b.handled() == a.handled()
    &&& b.committed() == a.committed()
    &&& b.aborted() == a.aborted()
}

/// `m` was sent to every participant, in order, and exactly those whose
/// channel refused it left the registry.
pub open spec fn broadcast<L: MessageLog>(a: Coordinator<L>, b: Coordinator<L>, m: MessageView) -> bool {
    &&& b.log_appended() == a.log_appended()
    &&& b.clients() == a.clients()
    &&& b.decisions() == a.decisions()
    &&& b.handled() == a.handled()
    &&& b.committed() == a.committed()
    &&& b.aborted() == a.aborted()
    &&& exists|ok: Seq<bool>|
        #![trigger kept(a.participants(), ok)]
        ok.len() == a.participants().len() && b.participants() == kept(a.participants(), ok)
            && b.trace() == a.trace() + sends_to(a.participants(), m, ok)
}

/// One transaction, as the coordinator runs it: with the participants `p0`
/// and clients `c0` registered, it proposes to each participant (`ok1`: which
/// channels took the proposal), takes one reply from each that stayed
/// (`replies`), decides by the tally of those replies, logs the decision,
/// announces it to the participants that stayed (`ok2`), and sends the result
/// to the requesting client if it is registered (`d`: whether its channel took
/// it). Participants and the client whose channel refused a message leave.
pub open spec fn ran_transaction(
    p0: Seq<Seq<char>>,
    c0: Seq<Seq<char>>,
    request: MessageView,
    s: RequestStatus,
    ok1: Seq<bool>,
    replies: Seq<Option<MessageView>>,
    ok2: Seq<bool>,
    d: bool,
    before: Seq<Effect>,
    after: Seq<Effect>,
    p_after: Seq<Seq<char>>,
    c_after: Seq<Seq<char>>,
) -> bool {
    let p1 = kept(p0, ok1);
    let decision = decision_for(request, s);
    let to_client = if c0.contains(request.senderid) {
        seq![sent(request.senderid, result_for(request, s), d)]
    } else {
        Seq::<Effect>::empty()
    };
    &&& ok1.len() == p0.len()
    &&& replies.len() == p1.len()
    &&& ok2.len() == p1.len()
    &&& tally(replies, request.txid) == Ok::<RequestStatus, CoordinatorError>(s)
    &&& p_after == kept(p1, ok2)
    &&& c_after == if d {
        c0
    } else {
        left(c0, request.senderid)
    }
    &&& after == before + sends_to(p0, proposal_for(request), ok1) + receives_from(p1, replies)
        + seq![logged(decision)] + sends_to(p1, decision, ok2) + to_client
}

/// The coordinator, with the registries of clients and participants, the log
/// its decisions go to, and its counts of commits and aborts.
pub struct Coordinator<L: MessageLog> {
    state: CoordinatorState,
    log: L,
    client_channels: Vec<Peer>,
    participant_channels: Vec<Peer>,
    running: Arc<AtomicBool>,
    successful_ops: usize,
    failed_ops: usize,
    decided: Ghost<Seq<MessageView>>,
    handled: Ghost<Seq<MessageView>>,
    effects: Ghost<Seq<Effect>>,
}

/// Adds `name` to a registry, or gives a known name fresh channels.
fn join_peer(peers: &mut Vec<Peer>, name: String) -> (r: (Sender<ProtocolMessage>, Receiver<
    ProtocolMessage,
>))
    requires
        names_distinct(names_of(old(peers)@)),
    ensures
        names_distinct(names_of(final(peers)@)),
        names_of(final(peers)@) == joined(names_of(old(peers)@), name@),
{
    let (local_tx, remote_rx) = channel_pair();
    let (remote_tx, local_rx) = channel_pair();
    let ghost before = names_of(peers@);
    let ghost n = name@;
    let mut i: usize = 0;
    while i < peers.len()
        invariant
            i <= peers@.len(),
            before == names_of(peers@),
            before == names_of(old(peers)@),
            n == name@,
            names_distinct(before),
            forall|j: int| 0 <= j < i ==> before[j] != n,
        decreases peers@.len() - i,
    {
        assert(before[i as int] == peers@[i as int].name@);
        if peers[i].name.eq(&name) {
            let ghost old_peers = peers@;
            peers.set(i, Peer { name, tx: local_tx, rx: local_rx });
            assert forall|j: int| 0 <= j < before.len() implies names_of(peers@)[j] == before[j] by {
                if j != i {
                    assert(peers@[j] == old_peers[j]);
                }
            }
            assert(names_of(peers@) =~= before);
            assert(before[i as int] == n);
            assert(before.contains(n));
            assert(joined(before, n) == before);
            return (remote_tx, remote_rx);
        }
        i = i + 1;
    }
    let ghost old_peers = peers@;
    peers.push(Peer { name, tx: local_tx, rx: local_rx });
    assert forall|j: int| 0 <= j < before.len() implies names_of(peers@)[j] == before[j] by {
        assert(peers@[j] == old_peers[j]);
    }
    assert(names_of(peers@) =~= before.push(n));
    assert(!before.contains(n));
    assert(joined(before, n) == before.push(n));
    assert(names_distinct(before.push(n))) by {
        assert forall|a: int, b: int| 0 <= a < b < before.len() + 1 implies before.push(n)[a]
            != before.push(n)[b] by {
            if b == before.len() {
                assert(before[a] != n);
            }
        }
    }
    (remote_tx, remote_rx)
}

/// Removes `name` from a registry.
fn leave_peer(peers: &mut Vec<Peer>, name: &String)
    requires
        names_distinct(names_of(old(peers)@)),
    ensures
        names_distinct(names_of(final(peers)@)),
        names_of(final(peers)@) == left(names_of(old(peers)@), name@),
{
    let ghost before = names_of(peers@);
    let mut i: usize = 0;
    while i < peers.len()
        invariant
            i <= peers@.len(),
            before == names_of(peers@),
            before == names_of(old(peers)@),
            names_distinct(before),
            forall|j: int| 0 <= j < i ==> before[j] != name@,
        decreases peers@.len() - i,
    {
        assert(before[i as int] == peers@[i as int].name@);
        if peers[i].name.eq(name) {
            let ghost old_peers = peers@;
            peers.remove(i);
            proof {
                assert forall|j: int| 0 <= j < before.len() - 1 implies names_of(peers@)[j]
                    == before.remove(i as int)[j] by {
                    if j < i {
                        assert(peers@[j] == old_peers[j]);
                    } else {
                        assert(peers@[j] == old_peers[j + 1]);
                    }
                }
                assert(names_of(peers@) =~= before.remove(i as int));
                lemma_left_remove(before, i as int, name@);
            }
            return;
        }
        i = i + 1;
    }
    proof {
        lemma_left_absent(before, name@);
    }
}

proof fn lemma_left_remove(ns: Seq<Seq<char>>, i: int, name: Seq<char>)
    requires
        0 <= i < ns.len(),
        ns[i] == name,
        names_distinct(ns),
    ensures
        left(ns, name) == ns.remove(i),
        names_distinct(ns.remove(i)),
    decreases ns.len(),
{
    reveal(Seq::filter);
    if i == ns.len() - 1 {
        assert(ns.drop_last() =~= ns.remove(i));
        assert forall|j: int| 0 <= j < ns.drop_last().len() implies #[trigger] ns.drop_last()[j]
            != name by {
            assert(ns[j] != ns[i]);
        }
        lemma_left_absent(ns.drop_last(), name);
    } else {
        lemma_left_remove(ns.drop_last(), i, name);
        assert(ns.remove(i) =~= ns.drop_last().remove(i).push(ns.last()));
    }
}

proof fn lemma_left_absent(ns: Seq<Seq<char>>, name: Seq<char>)
    requires
        forall|j: int| 0 <= j < ns.len() ==> #[trigger] ns[j] != name,
    ensures
        left(ns, name) == ns,
    decreases ns.len(),
{
    reveal(Seq::filter);
    if ns.len() > 0 {
        lemma_left_absent(ns.drop_last(), name);
        assert(ns.drop_last().push(ns.last()) =~= ns);
    } else {
        assert(left(ns, name) =~= ns);
    }
}

/// Hands `m` to each peer's channel, in order; says which channels took it.
fn send_each(peers: &Vec<Peer>, m: &ProtocolMessage) -> (ok: Vec<bool>)
    ensures
        ok@.len() == peers@.len(),
{
    let mut ok: Vec<bool> = Vec::new();
    let mut i: usize = 0;
    while i < peers.len()
        invariant
            i <= peers@.len(),
            ok@.len() == i,
        decreases peers@.len() - i,
    {
        ok.push(send_message(&peers[i].tx, m.duplicate()));
        i = i + 1;
    }
    ok
}

proof fn lemma_kept_distinct(ns: Seq<Seq<char>>, ok: Seq<bool>)
    requires
        names_distinct(ns),
        ok.len() == ns.len(),
    ensures
        names_distinct(kept(ns, ok)),
        forall|x: Seq<char>| kept(ns, ok).contains(x) ==> ns.contains(x),
    decreases ns.len(),
{
    if ns.len() > 0 {
        let prev = ns.drop_last();
        assert(names_distinct(prev)) by {
            assert forall|i: int, j: int| 0 <= i < j < prev.len() implies prev[i] != prev[j] by {
                assert(prev[i] == ns[i] && prev[j] == ns[j]);
            }
        }
        lemma_kept_distinct(prev, ok.drop_last());
        let k = kept(prev, ok.drop_last());
        assert forall|x: Seq<char>| prev.contains(x) implies ns.contains(x) by {
            let i = choose|i: int| 0 <= i < prev.len() && prev[i] == x;
            assert(ns[i] == x);
        }
        if ok[ns.len() - 1] {
            assert(!k.contains(ns.last())) by {
                if k.contains(ns.last()) {
                    assert(prev.contains(ns.last()));
                    let i = choose|i: int| 0 <= i < prev.len() && prev[i] == ns.last();
                    assert(prev[i] == ns[i]);
                }
            }
            assert forall|i: int, j: int|
                0 <= i < j < k.push(ns.last()).len() implies k.push(ns.last())[i] != k.push(
                ns.last(),
            )[j] by {
                if j == k.len() {
                    assert(k.contains(k[i]));
                }
            }
            assert forall|x: Seq<char>| k.push(ns.last()).contains(x) implies ns.contains(x) by {
                let i = choose|i: int| 0 <= i < k.push(ns.last()).len() && k.push(ns.last())[i] == x;
                if i < k.len() {
                    assert(k.contains(x));
                } else {
                    assert(ns[ns.len() - 1] == x);
                }
            }
        }
    }
}

/// Keeps exactly the peers whose channel took the message, in order.
fn retain_delivered(peers: Vec<Peer>, ok: &Vec<bool>) -> (r: Vec<Peer>)
    requires
        ok@.len() == peers@.len(),
        names_distinct(names_of(peers@)),
    ensures
        names_of(r@) == kept(names_of(peers@), ok@),
        names_distinct(names_of(r@)),
{
    let ghost orig = names_of(peers@);
    let n = peers.len();
    let mut rest = peers;
    let mut out: Vec<Peer> = Vec::new();
    let mut i: usize = 0;
    while rest.len() > 0
        invariant
            i + rest@.len() == n,
            orig.len() == n,
            ok@.len() == n,
            names_of(rest@) == orig.subrange(i as int, n as int),
            names_of(out@) == kept(orig.subrange(0, i as int), ok@.subrange(0, i as int)),
        decreases rest@.len(),
    {
        let ghost old_rest = rest@;
        assert(names_of(old_rest)[0] == orig[i as int]);
        let p = rest.remove(0);
        assert forall|j: int| 0 <= j < rest@.len() implies names_of(rest@)[j] == orig[i + 1 + j] by {
            assert(rest@[j] == old_rest[j + 1]);
            assert(names_of(old_rest)[j + 1] == orig[i + 1 + j]);
        }
        assert(names_of(rest@) =~= orig.subrange(i + 1, n as int));
        let ghost before = names_of(out@);
        proof {
            assert(orig.subrange(0, i + 1).drop_last() =~= orig.subrange(0, i as int));
            assert(ok@.subrange(0, i + 1).drop_last() =~= ok@.subrange(0, i as int));
        }
        if ok[i] {
            out.push(p);
            assert(names_of(out@) =~= before.push(orig[i as int]));
        }
        i = i + 1;
    }
    assert(orig.subrange(0, n as int) =~= orig);
    assert(ok@.subrange(0, n as int) =~= ok@);
    proof {
        lemma_kept_distinct(orig, ok@);
    }
    out
}

impl<L: MessageLog> Coordinator<L> {
    pub closed spec fn clients(&self) -> Seq<Seq<char>> {
        names_of(self.client_channels@)
    }

    pub closed spec fn participants(&self) -> Seq<Seq<char>> {
        names_of(self.participant_channels@)
    }

    /// What the coordinator's log holds by its own account: the messages
    /// appended through it.
    pub closed spec fn log_appended(&self) -> Seq<MessageView> {
        self.log.appended()
    }

    /// The decisions handed to the log, in order.
    pub closed spec fn decisions(&self) -> Seq<MessageView> {
        self.decided@
    }

    /// The requests decided, in order.
    pub closed spec fn handled(&self) -> Seq<MessageView> {
        self.handled@
    }

    /// What the coordinator has logged and sent, in order.
    pub closed spec fn trace(&self) -> Seq<Effect> {
        self.effects@
    }

    pub closed spec fn committed(&self) -> nat {
        self.successful_ops as nat
    }

    pub closed spec fn aborted(&self) -> nat {
        self.failed_ops as nat
    }

    pub open spec fn wf(&self) -> bool {
        &&& names_distinct(self.clients())
        &&& names_distinct(self.participants())
        &&& decisions_answer(self.decisions(), self.handled())
        &&& self.committed() == count_kind(self.decisions(), MessageType::CoordinatorCommit)
        &&& self.aborted() == count_kind(self.decisions(), MessageType::CoordinatorAbort)
    }

    pub fn new(log: L, running: Arc<AtomicBool>) -> (r: Coordinator<L>)
        ensures
            r.wf(),
            r.log_appended() == log.appended(),
            r.clients() == Seq::<Seq<char>>::empty(),
            r.participants() == Seq::<Seq<char>>::empty(),
            r.decisions() == Seq::<MessageView>::empty(),
            r.handled() == Seq::<MessageView>::empty(),
            r.trace() == Seq::<Effect>::empty(),
    {
        let r = Coordinator {
            state: CoordinatorState::Quiescent,
            log,
            client_channels: Vec::new(),
            participant_channels: Vec::new(),
            running,
            successful_ops: 0,
            failed_ops: 0,
            decided: Ghost(Seq::empty()),
            handled: Ghost(Seq::empty()),
            effects: Ghost(Seq::empty()),
        };
        assert(r.clients() =~= Seq::<Seq<char>>::empty());
        assert(r.participants() =~= Seq::<Seq<char>>::empty());
        r
    }

    /// Registers a client; returns the client's ends of the channels.
    pub fn client_join(&mut self, name: String) -> (r: (Sender<ProtocolMessage>, Receiver<
        ProtocolMessage,
    >))
        requires
            old(self).wf(),
        ensures
            final(self).wf(),
            final(self).clients() == joined(old(self).clients(), name@),
            final(self).participants() == old(self).participants(),
            final(self).trace() == old(self).trace(),
            final(self).decisions() == old(self).decisions(),
            final(self).handled() == old(self).handled(),
            final(self).committed() == old(self).committed(),
            final(self).aborted() == old(self).aborted(),
            final(self).log_appended() == old(self).log_appended(),
    {
        join_peer(&mut self.client_channels, name)
    }

    pub fn client_leave(&mut self, name: &String)
        requires
            old(self).wf(),
        ensures
            final(self).wf(),
            final(self).clients() == left(old(self).clients(), name@),
            final(self).participants() == old(self).participants(),
            final(self).trace() == old(self).trace(),
            final(self).decisions() == old(self).decisions(),
            final(self).handled() == old(self).handled(),
            final(self).committed() == old(self).committed(),
            final(self).aborted() == old(self).aborted(),
            final(self).log_appended() == old(self).log_appended(),
    {
        leave_peer(&mut self.client_channels, name)
    }

    /// Registers a participant; returns the participant's ends of the
    /// channels.
    pub fn participant_join(&mut self, name: String) -> (r: (Sender<ProtocolMessage>, Receiver<
        ProtocolMessage,
    >))
        requires
            old(self).wf(),
        ensures
            final(self).wf(),
            final(self).participants() == joined(old(self).participants(), name@),
            final(self).clients() == old(self).clients(),
            final(self).trace() == old(self).trace(),
            final(self).decisions() == old(self).decisions(),
            final(self).handled() == old(self).handled(),
            final(self).committed() == old(self).committed(),
            final(self).aborted() == old(self).aborted(),
            final(self).log_appended() == old(self).log_appended(),
    {
        join_peer(&mut self.participant_channels, name)
    }

    pub fn participant_leave(&mut self, name: &String)
        requires
            old(self).wf(),
        ensures
            final(self).wf(),
            final(self).participants() == left(old(self).participants(), name@),
            final(self).clients() == old(self).clients(),
            final(self).trace() == old(self).trace(),
            final(self).decisions() == old(self).decisions(),
            final(self).handled() == old(self).handled(),
            final(self).committed() == old(self).committed(),
            final(self).aborted() == old(self).aborted(),
            final(self).log_appended() == old(self).log_appended(),
    {
        leave_peer(&mut self.participant_channels, name)
    }

    /// Whether the run is still going on.
    pub fn is_running(&self) -> bool {
        self.running.load(Ordering::SeqCst)
    }

    /// Takes what is waiting on each client's channel, at most one message
    /// per client, in registration order, and records each take.
    pub fn recv_client_request(&mut self) -> (r: Vec<ProtocolMessage>)
        requires
            old(self).wf(),
        ensures
            final(self).wf(),
            same_state_but_trace(*old(self), *final(self)),
            r@.len() <= old(self).clients().len(),
            exists|got: Seq<Option<MessageView>>|
                #![trigger somes(got)]
                got.len() == old(self).clients().len() && final(self).trace() == old(self).trace()
                    + receives_from(old(self).clients(), got) && r@.map_values(
                    |m: ProtocolMessage| m@,
                ) == somes(got),
    {
        let ghost t0 = self.effects@;
        let ghost names = self.clients();
        let ghost mut got: Seq<Option<MessageView>> = Seq::empty();
        let mut requests: Vec<ProtocolMessage> = Vec::new();
        let mut i: usize = 0;
        assert(receives_from(names.subrange(0, 0), got) =~= Seq::<Effect>::empty());
        assert(t0 + Seq::<Effect>::empty() =~= t0);
        assert(requests@.map_values(|m: ProtocolMessage| m@) =~= somes(got));
        while i < self.client_channels.len()
            invariant
                self.wf(),
                same_state_but_trace(*old(self), *self),
                names == self.clients(),
                i <= self.client_channels@.len(),
                got.len() == i,
                self.effects@ == t0 + receives_from(names.subrange(0, i as int), got),
                requests@.map_values(|m: ProtocolMessage| m@) == somes(got),
            decreases self.client_channels@.len() - i,
        {
            let reply = try_recv_message(&self.client_channels[i].rx);
            let ghost rv = reply_view(reply);
            let ghost before = requests@.map_values(|m: ProtocolMessage| m@);
            assert(names[i as int] == self.client_channels@[i as int].name@);
            proof {
                assert(got.push(rv).drop_last() =~= got);
                assert(receives_from(names.subrange(0, i + 1), got.push(rv)) =~= receives_from(
                    names.subrange(0, i as int),
                    got,
                ).push(received(names[i as int], rv)));
            }
            match reply {
                Some(pm) => {
                    requests.push(pm);
                    assert(requests@.map_values(|m: ProtocolMessage| m@) =~= before.push(rv->0));
                },
                None => {},
            }
            proof {
                got = got.push(rv);
            }
            self.effects = Ghost(self.effects@.push(received(names[i as int], rv)));
            i = i + 1;
        }
        assert(names.subrange(0, i as int) =~= names);
        proof {
            lemma_somes_len(got);
            assert(requests@.len() == somes(got).len());
        }
        requests
    }

    /// Sends `m` to every participant, in order; those whose channel refused
    /// it leave the registry.
    fn broadcast_to_participants(&mut self, m: &ProtocolMessage)
        requires
            old(self).wf(),
        ensures
            final(self).wf(),
            broadcast(*old(self), *final(self), m@),
    {
        let ghost names = self.participants();
        let ok = send_each(&self.participant_channels, m);
        let mut peers: Vec<Peer> = Vec::new();
        std::mem::swap(&mut peers, &mut self.participant_channels);
        self.participant_channels = retain_delivered(peers, &ok);
        self.effects = Ghost(self.effects@ + sends_to(names, m@, ok@));
        assert(kept(names, ok@) == self.participants());
    }

    /// Phase one: proposes the request's transaction to every participant;
    /// those whose channel is closed leave the registry.
    pub fn send_coordinator_proposal(&mut self, request: &ProtocolMessage)
        requires
            old(self).wf(),
        ensures
            final(self).wf(),
            broadcast(*old(self), *final(self), proposal_for(request@)),
    {
        let proposal = ProtocolMessage::generate(
            MessageType::CoordinatorPropose,
            request.txid,
            "coordinator".to_owned(),
            request.opid,
        );
        self.broadcast_to_participants(&proposal);
    }

    /// Takes one reply from every participant, in registration order. Each
    /// take blocks until the participant replies or its channel closes; a
    /// participant that stays connected and silent holds the transaction up.
    /// Whether vote collection should give up after a deadline is left open.
    fn collect_votes(&mut self) -> (r: Vec<Option<ProtocolMessage>>)
        requires
            old(self).wf(),
        ensures
            final(self).wf(),
            same_state_but_trace(*old(self), *final(self)),
            r@.len() == old(self).participants().len(),
            final(self).trace() == old(self).trace() + receives_from(
                old(self).participants(),
                replies_view(r@),
            ),
    {
        let ghost t0 = self.effects@;
        let ghost names = self.participants();
        let mut replies: Vec<Option<ProtocolMessage>> = Vec::new();
        let mut i: usize = 0;
        assert(receives_from(names.subrange(0, 0), replies_view(replies@)) =~= Seq::<Effect>::empty());
        assert(t0 + Seq::<Effect>::empty() =~= t0);
        while i < self.participant_channels.len()
            invariant
                self.wf(),
                same_state_but_trace(*old(self), *self),
                names == self.participants(),
                i <= self.participant_channels@.len(),
                replies@.len() == i,
                self.effects@ == t0 + receives_from(names.subrange(0, i as int), replies_view(replies@)),
            decreases self.participant_channels@.len() - i,
        {
            let reply = recv_message(&self.participant_channels[i].rx);
            let ghost rv = reply_view(reply);
            let ghost before = replies_view(replies@);
            assert(names[i as int] == self.participant_channels@[i as int].name@);
            replies.push(reply);
            assert(replies_view(replies@) =~= before.push(rv));
            assert(receives_from(names.subrange(0, i + 1), replies_view(replies@)) =~= receives_from(
                names.subrange(0, i as int),
                before,
            ).push(received(names[i as int], rv)));
            self.effects = Ghost(self.effects@.push(received(names[i as int], rv)));
            i = i + 1;
        }
        assert(names.subrange(0, i as int) =~= names);
        replies
    }

    /// Phase one, second half: takes a reply from every participant and
    /// tallies them for `request`'s transaction.
    pub fn recv_participant_vote(&mut self, request: &ProtocolMessage) -> (r: Result<
        RequestStatus,
        CoordinatorError,
    >)
        requires
            old(self).wf(),
        ensures
            final(self).wf(),
            same_state_but_trace(*old(self), *final(self)),
            old(self).participants().len() == 0 ==> r == Ok::<RequestStatus, CoordinatorError>(
                RequestStatus::Committed,
            ),
            exists|replies: Seq<Option<MessageView>>|
                #![trigger tally(replies, request.txid)]
                {
                    &&& replies.len() == old(self).participants().len()
                    &&& r == tally(replies, request.txid)
                    &&& final(self).trace() == old(self).trace() + receives_from(
                        old(self).participants(),
                        replies,
                    )
                    &&& r == Ok::<RequestStatus, CoordinatorError>(RequestStatus::Committed)
                        ==> forall|i: int|
                        0 <= i < replies.len() ==> is_commit_vote(#[trigger] replies[i], request.txid)
                },
    {
        let replies = self.collect_votes();
        let r = tally_votes(&replies, request.txid);
        proof {
            lemma_commit_needs_every_vote(replies_view(replies@), request.txid);
            if replies@.len() == 0 {
                assert(replies_view(replies@) =~= Seq::<Option<MessageView>>::empty());
            }
        }
        r
    }

    /// Phase two, first half: turns the tally into the decision, appends the
    /// decision to the log, and returns the client's result and the decision.
    pub fn commit_vote_outcome_to_log(
        &mut self,
        request: &ProtocolMessage,
        vote_status: RequestStatus,
    ) -> (r: Result<(ProtocolMessage, ProtocolMessage), CoordinatorError>)
        requires
            old(self).wf(),
        ensures
            final(self).wf(),
            final(self).clients() == old(self).clients(),
            final(self).participants() == old(self).participants(),
            old(self).committed() + old(self).aborted() >= usize::MAX <==> r == Err::<
                (ProtocolMessage, ProtocolMessage),
                CoordinatorError,
            >(CoordinatorError::CounterOverflow),
            match r {
                Ok((response, decision)) => {
                    &&& response@ == result_for(request@, vote_status)
                    &&& decision@ == decision_for(request@, vote_status)
                    &&& final(self).log_appended() == old(self).log_appended().push(decision@)
                    &&& final(self).decisions() == old(self).decisions().push(decision@)
                    &&& final(self).handled() == old(self).handled().push(request@)
                    &&& final(self).trace() == old(self).trace().push(logged(decision@))
                    &&& if vote_status == RequestStatus::Committed {
                        final(self).committed() == old(self).committed() + 1
                            && final(self).aborted() == old(self).aborted()
                    } else {
                        final(self).aborted() == old(self).aborted() + 1
                            && final(self).committed() == old(self).committed()
                    }
                },
                Err(e) => {
                    &&& final(self).decisions() == old(self).decisions()
                    &&& final(self).handled() == old(self).handled()
                    &&& final(self).committed() == old(self).committed()
                    &&& final(self).aborted() == old(self).aborted()
                    &&& e == CoordinatorError::CounterOverflow ==> *final(self) == *old(self)
                    &&& e != CoordinatorError::CounterOverflow ==> e is Log && final(self).trace()
                        == old(self).trace().push(refused(decision_for(request@, vote_status)))
                },
            },
    {
        if self.successful_ops >= usize::MAX - self.failed_ops {
            return Err(CoordinatorError::CounterOverflow);
        }
        let committed = match vote_status {
            RequestStatus::Committed => true,
            _ => false,
        };
        let coordinator_action = if committed {
            MessageType::CoordinatorCommit
        } else {
            MessageType::CoordinatorAbort
        };
        let coordinator_commit = ProtocolMessage::generate(
            coordinator_action,
            request.txid,
            "coordinator".to_owned(),
            request.opid,
        );
        match self.log.append(&coordinator_commit) {
            Ok(()) => {},
            Err(e) => {
                self.effects = Ghost(self.effects@.push(refused(coordinator_commit@)));
                return Err(CoordinatorError::Log(e));
            },
        }
        let ghost before = self.decided@;
        self.decided = Ghost(self.decided@.push(coordinator_commit@));
        self.handled = Ghost(self.handled@.push(request@));
        self.effects = Ghost(self.effects@.push(logged(coordinator_commit@)));
        if committed {
            self.successful_ops = self.successful_ops + 1;
        } else {
            self.failed_ops = self.failed_ops + 1;
        }
        proof {
            let d = self.decided@;
            let h = self.handled@;
            assert(d.drop_last() =~= before);
            assert forall|i: int| 0 <= i < d.len() implies answers(#[trigger] d[i], h[i]) by {
                if i == d.len() - 1 {
                    assert(d[i] == decision_for(h[i], vote_status));
                } else {
                    assert(d[i] == before[i]);
                }
            }
        }
        let client_response = ProtocolMessage::generate(
            if committed {
                MessageType::ClientResultCommit
            } else {
                MessageType::ClientResultAbort
            },
            request.txid,
            "coordinator".to_owned(),
            request.opid,
        );
        Ok((client_response, coordinator_commit))
    }

    /// Phase two: announces the decision to every participant; those whose
    /// channel is closed leave the registry.
    pub fn send_vote_outcome_to_participants(&mut self, coordinator_commit: ProtocolMessage)
        requires
            old(self).wf(),
        ensures
            final(self).wf(),
            broadcast(*old(self), *final(self), coordinator_commit@),
    {
        self.broadcast_to_participants(&coordinator_commit);
    }

    /// Sends the result to the client that made the request; a client whose
    /// channel is closed leaves the registry. Returns whether the channel took
    /// it.
    pub fn send_client_response(&mut self, client_name: &String, client_response: ProtocolMessage) -> (r: bool)
        requires
            old(self).wf(),
        ensures
            final(self).wf(),
            final(self).participants() == old(self).participants(),
            final(self).log_appended() == old(self).log_appended(),
            final(self).decisions() == old(self).decisions(),
            final(self).handled() == old(self).handled(),
            final(self).committed() == old(self).committed(),
            final(self).aborted() == old(self).aborted(),
            old(self).clients().contains(client_name@) ==> final(self).trace() == old(self).trace().push(
                sent(client_name@, client_response@, r),
            ),
            !old(self).clients().contains(client_name@) ==> !r && final(self).trace() == old(self).trace(),
            final(self).clients() == if r {
                old(self).clients()
            } else {
                left(old(self).clients(), client_name@)
            },
    {
        let ghost before = names_of(self.client_channels@);
        let mut i: usize = 0;
        while i < self.client_channels.len()
            invariant
                i <= self.client_channels@.len(),
                before == names_of(self.client_channels@),
                names_distinct(before),
                self.wf(),
                self.clients() == before,
                before == old(self).clients(),
                self.log_appended() == old(self).log_appended(),
                self.participants() == old(self).participants(),
                self.decisions() == old(self).decisions(),
                self.handled() == old(self).handled(),
                self.committed() == old(self).committed(),
                self.aborted() == old(self).aborted(),
                self.trace() == old(self).trace(),
                forall|j: int| 0 <= j < i ==> before[j] != client_name@,
            decreases self.client_channels@.len() - i,
        {
            assert(before[i as int] == self.client_channels@[i as int].name@);
            if self.client_channels[i].name.eq(client_name) {
                let ghost v = client_response@;
                assert(before[i as int] == client_name@);
                assert(before.contains(client_name@));
                let ok = send_message(&self.client_channels[i].tx, client_response);
                self.effects = Ghost(self.effects@.push(sent(client_name@, v, ok)));
                if !ok {
                    let ghost old_peers = self.client_channels@;
                    self.client_channels.remove(i);
                    proof {
                        assert forall|j: int| 0 <= j < before.len() - 1 implies names_of(
                            self.client_channels@,
                        )[j] == before.remove(i as int)[j] by {
                            if j < i {
                                assert(self.client_channels@[j] == old_peers[j]);
                            } else {
                                assert(self.client_channels@[j] == old_peers[j + 1]);
                            }
                        }
                        assert(names_of(self.client_channels@) =~= before.remove(i as int));
                        lemma_left_remove(before, i as int, client_name@);
                    }
                }
                return ok;
            }
            i = i + 1;
        }
        proof {
            lemma_left_absent(before, client_name@);
        }
        false
    }

    /// Runs both phases for one request: proposals to every participant, one
    /// reply from each, the decision by their tally logged, then announced to
    /// the participants and sent to the requesting client.
    pub fn process_request(&mut self, request: &ProtocolMessage) -> (r: Result<
        RequestStatus,
        CoordinatorError,
    >)
        requires
            old(self).wf(),
        ensures
            final(self).wf(),
            old(self).committed() + old(self).aborted() >= usize::MAX <==> r == Err::<
                RequestStatus,
                CoordinatorError,
            >(CoordinatorError::CounterOverflow),
            r == Err::<RequestStatus, CoordinatorError>(CoordinatorError::CounterOverflow) ==> *final(self) == *old(self),
            match r {
                Ok(s) => {
                    &&& final(self).decisions() == old(self).decisions().push(
                        decision_for(request@, s),
                    )
                    &&& final(self).handled() == old(self).handled().push(request@)
                    &&& final(self).log_appended() == old(self).log_appended().push(
                        decision_for(request@, s),
                    )
                    &&& final(self).committed() + final(self).aborted() == old(self).committed()
                        + old(self).aborted() + 1
                    &&& exists|
                        ok1: Seq<bool>,
                        replies: Seq<Option<MessageView>>,
                        ok2: Seq<bool>,
                        d: bool,
                    |
                        #![trigger ran_transaction(old(self).participants(), old(self).clients(), request@, s, ok1, replies, ok2, d, old(self).trace(), final(self).trace(), final(self).participants(), final(self).clients())]
                        ran_transaction(
                            old(self).participants(),
                            old(self).clients(),
                            request@,
                            s,
                            ok1,
                            replies,
                            ok2,
                            d,
                            old(self).trace(),
                            final(self).trace(),
                            final(self).participants(),
                            final(self).clients(),
                        )
                },
                Err(e) => {
                    &&& decide_error(e, (old(self).committed() + old(self).aborted()) as int, 1)
                    &&& final(self).decisions() == old(self).decisions()
                    &&& final(self).handled() == old(self).handled()
                    &&& final(self).committed() == old(self).committed()
                    &&& final(self).aborted() == old(self).aborted()
                },
            },
    {
        if self.successful_ops >= usize::MAX - self.failed_ops {
            return Err(CoordinatorError::CounterOverflow);
        }
        let ghost t0 = self.effects@;
        let ghost p0 = self.participants();
        let ghost c0 = self.clients();
        self.send_coordinator_proposal(request);
        let ghost t1 = self.effects@;
        let ghost p1 = self.participants();
        let ghost ok1 = choose|ok: Seq<bool>|
            #![trigger kept(p0, ok)]
            ok.len() == p0.len() && p1 == kept(p0, ok) && t1 == t0 + sends_to(p0, proposal_for(request@), ok);
        let vote_status = match self.recv_participant_vote(request) {
            Ok(s) => s,
            Err(e) => {
                proof {
                    let rs = choose|replies: Seq<Option<MessageView>>|
                        #![trigger tally(replies, request.txid)]
                        replies.len() == p1.len() && Err::<RequestStatus, CoordinatorError>(e) == tally(replies, request.txid);
                    lemma_tally_not_overflow(rs, request.txid);
                    lemma_tally_errors(rs, request.txid);
                }
                return Err(e);
            },
        };
        let ghost t2 = self.effects@;
        let ghost replies = choose|replies: Seq<Option<MessageView>>|
            #![trigger tally(replies, request.txid)]
            {
                &&& replies.len() == p1.len()
                &&& Ok::<RequestStatus, CoordinatorError>(vote_status) == tally(replies, request.txid)
                &&& t2 == t1 + receives_from(p1, replies)
                &&& Ok::<RequestStatus, CoordinatorError>(vote_status) == Ok::<RequestStatus, CoordinatorError>(RequestStatus::Committed)
                    ==> forall|i: int|
                    0 <= i < replies.len() ==> is_commit_vote(#[trigger] replies[i], request.txid)
            };
        let (client_response, coordinator_commit) = match self.commit_vote_outcome_to_log(
            request,
            vote_status,
        ) {
            Ok(pair) => pair,
            Err(e) => {
                return Err(e);
            },
        };
        let ghost dec = coordinator_commit@;
        let ghost res = client_response@;
        let ghost t3 = self.effects@;
        self.send_vote_outcome_to_participants(coordinator_commit);
        let ghost t4 = self.effects@;
        let ghost p2 = self.participants();
        let ghost ok2 = choose|ok: Seq<bool>|
            #![trigger kept(p1, ok)]
            ok.len() == p1.len() && p2 == kept(p1, ok) && t4 == t3 + sends_to(p1, dec, ok);
        let d = self.send_client_response(&request.senderid, client_response);
        proof {
            let to_client = if c0.contains(request.senderid@) {
                seq![sent(request.senderid@, res, d)]
            } else {
                Seq::<Effect>::empty()
            };
            assert(self.effects@ =~= t0 + sends_to(p0, proposal_for(request@), ok1) + receives_from(p1, replies)
                + seq![logged(dec)] + sends_to(p1, dec, ok2) + to_client);
            assert(ran_transaction(p0, c0, request@, vote_status, ok1, replies, ok2, d, t0, self.trace(), self.participants(), self.clients()));
        }
        Ok(vote_status)
    }

    /// Runs both phases for each request in turn. Returns how many were
    /// decided; a failure ends the run of requests, with those before it
    /// decided.
    pub fn process_requests(&mut self, requests: &Vec<ProtocolMessage>) -> (r: Result<usize, CoordinatorError>)
        requires
            old(self).wf(),
        ensures
            final(self).wf(),
            requests@.len() == 0 ==> r == Ok::<usize, CoordinatorError>(0) && *final(self) == *old(self),
            r matches Ok(n) ==> n == requests@.len() && final(self).handled() == old(self).handled()
                + requests@.map_values(|m: ProtocolMessage| m@),
            r matches Err(e) ==> decide_error(e, (old(self).committed() + old(self).aborted()) as int, requests@.len() as int)
                && exists|k: int| 0 <= k < requests@.len() && final(self).handled() == old(self).handled()
                    + views_of(#[trigger] requests@.subrange(0, k)),
    {
        let mut i: usize = 0;
        while i < requests.len()
            invariant
                self.wf(),
                i <= requests@.len(),
                self.handled() == old(self).handled() + requests@.subrange(0, i as int).map_values(|m: ProtocolMessage| m@),
                self.committed() + self.aborted() == old(self).committed() + old(self).aborted() + i,
                i == 0 ==> *self == *old(self),
            decreases requests@.len() - i,
        {
            match self.process_request(&requests[i]) {
                Ok(_) => {},
                Err(e) => {
                    assert(decide_error(e, (old(self).committed() + old(self).aborted()) as int, requests@.len() as int));
                    assert(self.handled() == old(self).handled() + views_of(requests@.subrange(0, i as int)));
                    return Err(e);
                },
            }
            assert(requests@.subrange(0, i + 1).map_values(|m: ProtocolMessage| m@) =~= requests@.subrange(0, i as int).map_values(|m: ProtocolMessage| m@).push(requests@[i as int]@));
            i = i + 1;
        }
        assert(requests@.subrange(0, i as int) =~= requests@);
        if i == 0 {
            assert(old(self).handled() + requests@.map_values(|m: ProtocolMessage| m@) =~= old(self).handled());
        }
        Ok(i)
    }

    /// One round of the coordinator's loop: takes the waiting requests, at
    /// most one per client, and decides each in turn. Returns how many it
    /// decided.
    pub fn run_round(&mut self) -> (r: Result<usize, CoordinatorError>)
        requires
            old(self).wf(),
        ensures
            final(self).wf(),
            old(self).clients().len() == 0 ==> r == Ok::<usize, CoordinatorError>(0),
            r matches Ok(n) ==> n <= old(self).clients().len() && final(self).decisions().len()
                == old(self).decisions().len() + n && final(self).handled().len() == old(self).handled().len() + n,
            r matches Err(e) ==> decide_error(e, (old(self).committed() + old(self).aborted()) as int, old(self).clients().len() as int),
    {
        let requests = self.recv_client_request();
        self.process_requests(&requests)
    }

    /// Tells every participant and client that the run is over, ignoring
    /// closed channels.
    pub fn send_exit_messages(&mut self)
        requires
            old(self).wf(),
        ensures
            final(self).wf(),
            same_state_but_trace(*old(self), *final(self)),
            exists|ok1: Seq<bool>, ok2: Seq<bool>|
                #![trigger sends_to(old(self).participants(), exit_message(), ok1), sends_to(old(self).clients(), exit_message(), ok2)]
                ok1.len() == old(self).participants().len() && ok2.len() == old(self).clients().len()
                    && final(self).trace() == old(self).trace() + sends_to(old(self).participants(), exit_message(), ok1)
                    + sends_to(old(self).clients(), exit_message(), ok2),
    {
        let exit = ProtocolMessage::generate(MessageType::CoordinatorExit, -1, "coordinator".to_owned(), -1);
        let ok1 = send_each(&self.participant_channels, &exit);
        let ok2 = send_each(&self.client_channels, &exit);
        self.effects = Ghost(self.effects@ + sends_to(self.participants(), exit@, ok1@) + sends_to(self.clients(), exit@, ok2@));
    }

    pub fn successful_ops(&self) -> (r: usize)
        ensures
            r == self.committed(),
    {
        self.successful_ops
    }

    pub fn failed_ops(&self) -> (r: usize)
        ensures
            r == self.aborted(),
    {
        self.failed_ops
    }

    /// Transactions started and left undecided: the coordinator decides each
    /// transaction it starts before it takes the next, so there are none.
    pub fn unknown_ops(&self) -> (r: usize)
        ensures
            r == 0,
    {
        0
    }

    pub fn state(&self) -> CoordinatorState {
        self.state
    }

    pub fn client_count(&self) -> (r: usize)
        ensures
            r == self.clients().len(),
    {
        self.client_channels.len()
    }

    pub fn participant_count(&self) -> (r: usize)
        ensures
            r == self.participants().len(),
    {
        self.participant_channels.len()
    }

    /// The log the decisions go to.
    pub fn log(&self) -> &L {
        &self.log
    }
}

/// Tallies the replies of one vote collection.
pub fn tally_votes(replies: &Vec<Option<ProtocolMessage>>, txid: i32) -> (r: Result<
    RequestStatus,
    CoordinatorError,
>)
    ensures
        r == tally(replies_view(replies@), txid),
{
    let ghost rv = replies_view(replies@);
    let mut status = RequestStatus::Committed;
    let mut i: usize = 0;
    while i < replies.len()
        invariant
            i <= replies@.len(),
            rv == replies_view(replies@),
            tally(rv.subrange(0, i as int), txid) == Ok::<RequestStatus, CoordinatorError>(status),
        decreases replies@.len() - i,
    {
        assert(rv.subrange(0, i + 1).drop_last() =~= rv.subrange(0, i as int));
        match &replies[i] {
            None => {
                status = RequestStatus::Unknown;
            },
            Some(m) => {
                if m.txid != txid {
                    proof {
                        lemma_tally_error_stays(rv, i + 1, txid, CoordinatorError::TxidMismatch(m.txid));
                    }
                    return Err(CoordinatorError::TxidMismatch(m.txid));
                }
                match m.mtype {
                    MessageType::ParticipantVoteCommit => {},
                    MessageType::ParticipantVoteAbort => {
                        status = RequestStatus::Aborted;
                    },
                    _ => {
                        proof {
                            lemma_tally_error_stays(rv, i + 1, txid, CoordinatorError::Unexpected(m.mtype));
                        }
                        return Err(CoordinatorError::Unexpected(m.mtype));
                    },
                }
            },
        }
        i = i + 1;
    }
    assert(rv.subrange(0, i as int) =~= rv);
    Ok(status)
}

/// How many of the requests belong to transaction `t`.
pub open spec fn count_txid(h: Seq<MessageView>, t: i32) -> nat
    decreases h.len(),
{
    if h.len() == 0 {
        0
    } else {
        count_txid(h.drop_last(), t) + if h.last().txid == t {
            1nat
        } else {
            0nat
        }
    }
}

proof fn lemma_decisions_count(d: Seq<MessageView>, h: Seq<MessageView>, t: i32)
    requires
        decisions_answer(d, h),
    ensures
        count_kind_txid(d, MessageType::CoordinatorCommit, t) + count_kind_txid(
            d,
            MessageType::CoordinatorAbort,
            t,
        ) == count_txid(h, t),
    decreases d.len(),
{
    if d.len() > 0 {
        assert(answers(d[d.len() - 1], h[h.len() - 1]));
        assert(decisions_answer(d.drop_last(), h.drop_last())) by {
            assert forall|i: int| 0 <= i < d.drop_last().len() implies answers(
                #[trigger] d.drop_last()[i],
                h.drop_last()[i],
            ) by {
                assert(answers(d[i], h[i]));
            }
        }
        lemma_decisions_count(d.drop_last(), h.drop_last(), t);
    }
}

proof fn lemma_count_txid_distinct(h: Seq<MessageView>, k: int)
    requires
        0 <= k < h.len(),
        forall|i: int, j: int| 0 <= i < j < h.len() ==> h[i].txid != h[j].txid,
    ensures
        count_txid(h, h[k].txid) == 1,
    decreases h.len(),
{
    let t = h[k].txid;
    if k == h.len() - 1 {
        lemma_count_txid_absent(h.drop_last(), t);
    } else {
        lemma_count_txid_distinct(h.drop_last(), k);
        assert(h.drop_last()[k] == h[k]);
        assert(h.last().txid != t);
    }
}

proof fn lemma_count_txid_absent(h: Seq<MessageView>, t: i32)
    requires
        forall|i: int| 0 <= i < h.len() ==> (#[trigger] h[i]).txid != t,
    ensures
        count_txid(h, t) == 0,
    decreases h.len(),
{
    if h.len() > 0 {
        lemma_count_txid_absent(h.drop_last(), t);
    }
}

/// No double decision: when the transactions handled have distinct ids, the
/// decisions hold exactly one terminal decision, commit or abort, for each of
/// them.
pub proof fn lemma_one_decision_per_transaction(
    decisions: Seq<MessageView>,
    handled: Seq<MessageView>,
    k: int,
)
    requires
        decisions_answer(decisions, handled),
        forall|i: int, j: int| 0 <= i < j < handled.len() ==> handled[i].txid != handled[j].txid,
        0 <= k < handled.len(),
    ensures
        count_kind_txid(decisions, MessageType::CoordinatorCommit, handled[k].txid)
            + count_kind_txid(decisions, MessageType::CoordinatorAbort, handled[k].txid) == 1,
{
    lemma_decisions_count(decisions, handled, handled[k].txid);
    lemma_count_txid_distinct(handled, k);
}

/// A tally never fails for want of room.
proof fn lemma_tally_not_overflow(replies: Seq<Option<MessageView>>, txid: i32)
    ensures
        tally(replies, txid) != Err::<RequestStatus, CoordinatorError>(CoordinatorError::CounterOverflow),
    decreases replies.len(),
{
    if replies.len() > 0 {
        lemma_tally_not_overflow(replies.drop_last(), txid);
    }
}

proof fn lemma_tally_error_stays(s: Seq<Option<MessageView>>, k: int, txid: i32, e: CoordinatorError)
    requires
        0 <= k <= s.len(),
        tally(s.subrange(0, k), txid) == Err::<RequestStatus, CoordinatorError>(e),
    ensures
        tally(s, txid) == Err::<RequestStatus, CoordinatorError>(e),
    decreases s.len() - k,
{
    if k < s.len() {
        assert(s.subrange(0, k + 1).drop_last() =~= s.subrange(0, k));
        lemma_tally_error_stays(s, k + 1, txid, e);
    } else {
        assert(s.subrange(0, k) =~= s);
    }
}

} // verus!
