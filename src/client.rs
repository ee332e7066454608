//! The client: issues a bounded sequence of transaction requests to the
//! coordinator and matches each reply with the request it answers.
use crate::message::{fresh_message, MessageType, MessageView, ProtocolMessage};
use crate::transport::{recv_message, send_message};
use std::sync::atomic::{AtomicBool, AtomicI32, Ordering};
use std::sync::mpsc::{Receiver, Sender};
use std::sync::Arc;
use vstd::prelude::*;

verus! {

/// Why a client stopped.
#[derive(Clone, Copy, Debug, PartialEq, Eq, Structural)]
pub enum ClientError {
    /// The coordinator's end of the channel is gone.
    Disconnected,
    /// Every operation id has been used.
    Exhausted,
    /// The transaction id is already waiting for a reply.
    DuplicateTxid(i32),
    /// A reply names a transaction that is not waiting for one.
    UnknownTransaction(i32),
    /// A reply carries another operation id than its request.
    OpidMismatch(i32),
    /// A message that a client never receives.
    Unexpected(MessageType),
}

/// What a reply did to the client.
#[derive(Clone, Copy, Debug, PartialEq, Eq, Structural)]
pub enum Reply {
    Committed,
    Aborted,
    Exit,
}

pub open spec fn pending_txids_distinct(p: Seq<MessageView>) -> bool {
    forall|i: int, j: int| 0 <= i < j < p.len() ==> p[i].txid != p[j].txid
}

pub open spec fn pending_has(p: Seq<MessageView>, txid: i32) -> bool {
    exists|i: int| 0 <= i < p.len() && p[i].txid == txid
}

/// The pending requests without the one for `txid`.
pub open spec fn pending_without(p: Seq<MessageView>, txid: i32) -> Seq<MessageView> {
    p.filter(|m: MessageView| m.txid != txid)
}

/// The pending request for `txid`.
pub open spec fn pending_for(p: Seq<MessageView>, txid: i32) -> MessageView {
    p[choose|i: int| 0 <= i < p.len() && p[i].txid == txid]
}

/// Whether `send_request` recorded the request: it was handed to the
/// channel, or the channel was found closed.
pub open spec fn request_sent(r: Result<(), ClientError>) -> bool {
    match r {
        Ok(()) => true,
        Err(e) => e == ClientError::Disconnected,
    }
}

/// How a client's run of requests ended.
#[derive(Clone, Copy, Debug, PartialEq, Eq, Structural)]
pub enum Ending {
    /// Every request was made and answered.
    Completed,
    /// The run was over before the requests were.
    Stopped,
    /// The coordinator announced the end of the run; the last request stays
    /// pending.
    Exited,
}

/// What `send_request` does with transaction id `txid`: a fresh request,
/// with the next operation id, is recorded as pending and as sent, unless
/// the operation ids are used up or the transaction is already pending.
pub open spec fn request_made(old: Client, new: Client, txid: i32, r: Result<(), ClientError>) -> bool {
    let req = fresh_message(
        MessageType::ClientRequest,
        txid,
        old.label().1,
        old.next_opid() as i32,
    );
    &&& old.next_opid() == i32::MAX ==> r == Err::<(), ClientError>(ClientError::Exhausted)
    &&& old.next_opid() < i32::MAX && pending_has(old.pending(), txid) ==> r == Err::<
        (),
        ClientError,
    >(ClientError::DuplicateTxid(txid))
    &&& request_sent(r) <==> (old.next_opid() < i32::MAX && !pending_has(old.pending(), txid))
    &&& if request_sent(r) {
        &&& new.label() == old.label()
        &&& new.committed() == old.committed()
        &&& new.aborted() == old.aborted()
        &&& new.next_opid() == old.next_opid() + 1
        &&& new.pending() == old.pending().push(req)
        &&& new.sent_requests() == old.sent_requests().push(req)
    } else {
        new == old
    }
}

/// What applying the reply `pm` does: a result for a pending request with
/// the same operation id removes it and counts it; an exit, or any other
/// message, changes nothing.
pub open spec fn reply_applied(old: Client, new: Client, pm: MessageView, r: Result<Reply, ClientError>) -> bool {
    let p = old.pending();
    let answer = pm.mtype == MessageType::ClientResultCommit || pm.mtype
        == MessageType::ClientResultAbort;
    if pm.mtype == MessageType::CoordinatorExit {
        r == Ok::<Reply, ClientError>(Reply::Exit) && new == old
    } else if !answer {
        r == Err::<Reply, ClientError>(ClientError::Unexpected(pm.mtype)) && new == old
    } else if !pending_has(p, pm.txid) {
        r == Err::<Reply, ClientError>(ClientError::UnknownTransaction(pm.txid)) && new == old
    } else if pending_for(p, pm.txid).opid != pm.opid {
        r == Err::<Reply, ClientError>(ClientError::OpidMismatch(pm.txid)) && new == old
    } else {
        &&& new.label() == old.label()
        &&& new.next_opid() == old.next_opid()
        &&& new.sent_requests() == old.sent_requests()
        &&& new.pending() == pending_without(p, pm.txid)
        &&& if pm.mtype == MessageType::ClientResultCommit {
            &&& r == Ok::<Reply, ClientError>(Reply::Committed)
            &&& new.committed() == old.committed() + 1
            &&& new.aborted() == old.aborted()
        } else {
            &&& r == Ok::<Reply, ClientError>(Reply::Aborted)
            &&& new.aborted() == old.aborted() + 1
            &&& new.committed() == old.committed()
        }
    }
}

/// A client of the coordinator.
pub struct Client {
    pub id: i32,
    pub name: String,
    running: Arc<AtomicBool>,
    txids: Arc<AtomicI32>,
    tx: Sender<ProtocolMessage>,
    rx: Receiver<ProtocolMessage>,
    pending_requests: Vec<ProtocolMessage>,
    successful_ops: usize,
    failed_ops: usize,
    request_id: i32,
    sends: Ghost<Seq<MessageView>>,
}

impl Client {
    /// Requests sent and not yet answered.
    pub closed spec fn pending(&self) -> Seq<MessageView> {
        self.pending_requests@.map_values(|m: ProtocolMessage| m@)
    }

    /// Every request handed to the channel towards the coordinator, in order.
    pub closed spec fn sent_requests(&self) -> Seq<MessageView> {
        self.sends@
    }

    /// The client's id and name.
    pub closed spec fn label(&self) -> (i32, Seq<char>) {
        (self.id, self.name@)
    }

    pub closed spec fn committed(&self) -> nat {
        self.successful_ops as nat
    }

    pub closed spec fn aborted(&self) -> nat {
        self.failed_ops as nat
    }

    /// The operation id of the next request.
    pub closed spec fn next_opid(&self) -> int {
        self.request_id as int
    }

    /// Every request sent is answered or pending, each pending transaction
    /// once; the requests sent are this client's, with operation ids 0, 1, 2,
    /// ... in order, and each pending entry is one of them.
    pub open spec fn wf(&self) -> bool {
        &&& self.next_opid() >= 0
        &&& self.committed() + self.aborted() + self.pending().len() == self.next_opid()
        &&& pending_txids_distinct(self.pending())
        &&& self.sent_requests().len() == self.next_opid()
        &&& forall|i: int|
            0 <= i < self.sent_requests().len() ==> #[trigger] self.sent_requests()[i]
                == fresh_message(
                MessageType::ClientRequest,
                self.sent_requests()[i].txid,
                self.label().1,
                i as i32,
            )
        &&& forall|j: int|
            0 <= j < self.pending().len() ==> 0 <= (#[trigger] self.pending()[j]).opid
                < self.next_opid() && self.pending()[j] == self.sent_requests()[self.pending()[j].opid as int]
    }

    /// `txids` is the counter that hands out transaction ids to all clients.
    pub fn new(
        i: i32,
        name: String,
        tx: Sender<ProtocolMessage>,
        rx: Receiver<ProtocolMessage>,
        running: Arc<AtomicBool>,
        txids: Arc<AtomicI32>,
    ) -> (r: Client)
        ensures
            r.wf(),
            r.label() == (i, name@),
            r.pending() == Seq::<MessageView>::empty(),
            r.sent_requests() == Seq::<MessageView>::empty(),
            r.committed() == 0 && r.aborted() == 0 && r.next_opid() == 0,
    {
        let r = Client {
            id: i,
            name,
            running,
            txids,
            tx,
            rx,
            pending_requests: Vec::new(),
            successful_ops: 0,
            failed_ops: 0,
            request_id: 0,
            sends: Ghost(Seq::empty()),
        };
        assert(r.pending() =~= Seq::<MessageView>::empty());
        r
    }

    fn find_pending(&self, txid: i32) -> (r: Option<usize>)
        ensures
            r matches Some(i) ==> i < self.pending().len() && self.pending()[i as int].txid == txid,
            r is None ==> !pending_has(self.pending(), txid),
    {
        let mut i: usize = 0;
        while i < self.pending_requests.len()
            invariant
                i <= self.pending_requests@.len(),
                forall|j: int| 0 <= j < i ==> self.pending()[j].txid != txid,
            decreases self.pending_requests@.len() - i,
        {
            if self.pending_requests[i].txid == txid {
                return Some(i);
            }
            i = i + 1;
        }
        None
    }

    /// Sends the next request under transaction id `txid` and records it as
    /// pending.
    pub fn send_request(&mut self, txid: i32) -> (r: Result<(), ClientError>)
        requires
            old(self).wf(),
        ensures
            final(self).wf(),
            request_made(*old(self), *final(self), txid, r),
    {
        if self.request_id == i32::MAX {
            return Err(ClientError::Exhausted);
        }
        if self.find_pending(txid).is_some() {
            return Err(ClientError::DuplicateTxid(txid));
        }
        let pm = ProtocolMessage::generate(
            MessageType::ClientRequest,
            txid,
            self.name.clone(),
            self.request_id,
        );
        let ghost before = self.pending();
        let ghost sent_before = self.sends@;
        proof {
            assert forall|j: int| 0 <= j < before.len() implies before[j].txid != txid by {}
        }
        self.request_id = self.request_id + 1;
        self.pending_requests.push(pm.duplicate());
        self.sends = Ghost(self.sends@.push(pm@));
        assert(self.pending() =~= before.push(pm@));
        proof {
            let p = self.pending();
            let sr = self.sends@;
            assert forall|j: int| 0 <= j < p.len() implies 0 <= (#[trigger] p[j]).opid < self.next_opid()
                && p[j] == sr[p[j].opid as int] by {
                if j < before.len() {
                    assert(p[j] == before[j]);
                    assert(sr[p[j].opid as int] == sent_before[p[j].opid as int]);
                }
            }
            assert forall|i: int| 0 <= i < sr.len() implies #[trigger] sr[i] == fresh_message(
                MessageType::ClientRequest,
                sr[i].txid,
                self.label().1,
                i as i32,
            ) by {
                if i < sent_before.len() {
                    assert(sr[i] == sent_before[i]);
                }
            }
        }
        if send_message(&self.tx, pm) {
            Ok(())
        } else {
            Err(ClientError::Disconnected)
        }
    }

    /// Sends the next request, under a transaction id drawn from the shared
    /// counter.
    pub fn send_next_operation(&mut self) -> (r: Result<(), ClientError>)
        requires
            old(self).wf(),
        ensures
            final(self).wf(),
            exists|txid: i32| request_made(*old(self), *final(self), txid, r),
    {
        let txid = self.txids.fetch_add(1, Ordering::SeqCst);
        self.send_request(txid)
    }

    /// Applies the coordinator's reply `pm`.
    pub fn handle_result(&mut self, pm: &ProtocolMessage) -> (r: Result<Reply, ClientError>)
        requires
            old(self).wf(),
        ensures
            final(self).wf(),
            reply_applied(*old(self), *final(self), pm@, r),
    {
        let outcome = match pm.mtype {
            MessageType::ClientResultCommit => Reply::Committed,
            MessageType::ClientResultAbort => Reply::Aborted,
            MessageType::CoordinatorExit => {
                return Ok(Reply::Exit);
            },
            _ => {
                return Err(ClientError::Unexpected(pm.mtype));
            },
        };
        let i = match self.find_pending(pm.txid) {
            Some(i) => i,
            None => {
                return Err(ClientError::UnknownTransaction(pm.txid));
            },
        };
        let ghost p = self.pending();
        proof {
            let c = choose|j: int| 0 <= j < p.len() && p[j].txid == pm.txid;
            assert(c == i as int);
        }
        if self.pending_requests[i].opid != pm.opid {
            return Err(ClientError::OpidMismatch(pm.txid));
        }
        self.pending_requests.remove(i);
        proof {
            assert(self.pending() =~= p.remove(i as int));
            assert(p.remove(i as int) =~= pending_without(p, pm.txid)) by {
                lemma_filter_remove(p, i as int, pm.txid);
            }
            let q = self.pending();
            assert forall|j: int| 0 <= j < q.len() implies 0 <= (#[trigger] q[j]).opid < self.next_opid()
                && q[j] == self.sends@[q[j].opid as int] by {
                if j < i {
                    assert(q[j] == p[j]);
                } else {
                    assert(q[j] == p[j + 1]);
                }
            }
            assert forall|a: int, b: int| 0 <= a < b < q.len() implies q[a].txid != q[b].txid by {
                let a2 = if a < i { a } else { a + 1 };
                let b2 = if b < i { b } else { b + 1 };
                assert(q[a] == p[a2] && q[b] == p[b2]);
            }
        }
        match outcome {
            Reply::Committed => {
                self.successful_ops = self.successful_ops + 1;
            },
            _ => {
                self.failed_ops = self.failed_ops + 1;
            },
        }
        Ok(outcome)
    }

    /// Waits for the coordinator's reply to the last request and applies it.
    pub fn recv_result(&mut self) -> (r: Result<Reply, ClientError>)
        requires
            old(self).wf(),
        ensures
            final(self).wf(),
            r == Err::<Reply, ClientError>(ClientError::Disconnected) && *final(self) == *old(self)
                || exists|pm: MessageView| reply_applied(*old(self), *final(self), pm, r),
    {
        match recv_message(&self.rx) {
            Some(pm) => self.handle_result(&pm),
            None => Err(ClientError::Disconnected),
        }
    }

    /// Whether the run is still going on.
    pub fn is_running(&self) -> bool {
        self.running.load(Ordering::SeqCst)
    }

    /// Runs up to `n_requests` request/reply rounds while the run goes on: a
    /// request is sent only after the previous one was answered, and an exit
    /// reply ends the rounds with its request left pending. The caller then
    /// waits for the end of the run and reports.
    pub fn protocol(&mut self, n_requests: i32) -> (r: Result<Ending, ClientError>)
        requires
            old(self).wf(),
        ensures
            final(self).wf(),
            final(self).label() == old(self).label(),
            n_requests <= 0 ==> r == Ok::<Ending, ClientError>(Ending::Completed) && *final(self)
                == *old(self),
            final(self).sent_requests().subrange(0, old(self).sent_requests().len() as int)
                == old(self).sent_requests(),
            old(self).sent_requests().len() <= final(self).sent_requests().len() <= old(self).sent_requests().len() + if n_requests > 0 {
                n_requests as int
            } else {
                0
            },
            old(self).committed() <= final(self).committed(),
            old(self).aborted() <= final(self).aborted(),
            r == Ok::<Ending, ClientError>(Ending::Completed) && n_requests > 0 ==> {
                &&& final(self).sent_requests().len() == old(self).sent_requests().len() + n_requests
                &&& final(self).pending().len() == old(self).pending().len()
                &&& final(self).committed() + final(self).aborted() == old(self).committed()
                    + old(self).aborted() + n_requests
            },
            r == Ok::<Ending, ClientError>(Ending::Exited) ==> final(self).sent_requests().len()
                > old(self).sent_requests().len() && final(self).pending().contains(
                final(self).sent_requests().last(),
            ),
    {
        let mut k: i32 = 0;
        while k < n_requests
            invariant
                self.wf(),
                0 <= k <= n_requests || (n_requests < 0 && k == 0),
                self.label() == old(self).label(),
                k == 0 ==> *self == *old(self),
                self.sent_requests().subrange(0, old(self).sent_requests().len() as int)
                    == old(self).sent_requests(),
                self.sent_requests().len() == old(self).sent_requests().len() + k,
                self.pending().len() == old(self).pending().len(),
                old(self).committed() <= self.committed(),
                old(self).aborted() <= self.aborted(),
            decreases n_requests - k,
        {
            if !self.is_running() {
                return Ok(Ending::Stopped);
            }
            let ghost s0 = *self;
            match self.send_next_operation() {
                Ok(()) => {},
                Err(e) => {
                    proof {
                        let t = choose|t: i32| request_made(s0, *self, t, Err::<(), ClientError>(e));
                        if request_sent(Err::<(), ClientError>(e)) {
                            assert(self.sent_requests().subrange(0, old(self).sent_requests().len() as int)
                                =~= s0.sent_requests().subrange(0, old(self).sent_requests().len() as int));
                        }
                    }
                    return Err(e);
                },
            }
            let ghost s1 = *self;
            proof {
                let t = choose|t: i32| request_made(s0, s1, t, Ok::<(), ClientError>(()));
                assert(s1.sent_requests().subrange(0, old(self).sent_requests().len() as int)
                    =~= s0.sent_requests().subrange(0, old(self).sent_requests().len() as int));
                assert(s1.pending()[s1.pending().len() - 1] == s1.sent_requests().last());
            }
            let rr = self.recv_result();
            match rr {
                Ok(Reply::Exit) => {
                    proof {
                        let pm = choose|pm: MessageView| reply_applied(s1, *self, pm, Ok::<Reply, ClientError>(Reply::Exit));
                        assert(*self == s1);
                        assert(self.pending().contains(self.sent_requests().last()));
                    }
                    return Ok(Ending::Exited);
                },
                Ok(_) => {
                    proof {
                        let pm = choose|pm: MessageView| reply_applied(s1, *self, pm, rr);
                        let p = s1.pending();
                        let i = choose|i: int| 0 <= i < p.len() && p[i].txid == pm.txid;
                        lemma_filter_remove(p, i, pm.txid);
                    }
                },
                Err(e) => {
                    return Err(e);
                },
            }
            k = k + 1;
        }
        Ok(Ending::Completed)
    }

    pub fn successful_ops(&self) -> (r: usize)
        ensures
            r == self.committed(),
    {
        self.successful_ops
    }

    pub fn failed_ops(&self) -> (r: usize)
        ensures
            r == self.aborted(),
    {
        self.failed_ops
    }

    pub fn pending_count(&self) -> (r: usize)
        ensures
            r == self.pending().len(),
    {
        self.pending_requests.len()
    }
}

proof fn lemma_filter_remove(p: Seq<MessageView>, i: int, txid: i32)
    requires
        0 <= i < p.len(),
        p[i].txid == txid,
        pending_txids_distinct(p),
    ensures
        p.remove(i) == pending_without(p, txid),
    decreases p.len(),
{
    reveal(Seq::filter);
    let f = |m: MessageView| m.txid != txid;
    if i == p.len() - 1 {
        assert(p.drop_last() =~= p.remove(i));
        assert forall|j: int| 0 <= j < p.drop_last().len() implies f(#[trigger] p.drop_last()[j]) by {
            assert(p[j].txid != p[i].txid);
        }
        lemma_filter_all(p.drop_last(), txid);
    } else {
        lemma_filter_remove(p.drop_last(), i, txid);
        assert(p.remove(i) =~= p.drop_last().remove(i).push(p.last()));
        assert(p.last().txid != txid);
    }
}

proof fn lemma_filter_all(p: Seq<MessageView>, txid: i32)
    requires
        forall|j: int| 0 <= j < p.len() ==> (#[trigger] p[j]).txid != txid,
    ensures
        pending_without(p, txid) == p,
    decreases p.len(),
{
    reveal(Seq::filter);
    if p.len() > 0 {
        lemma_filter_all(p.drop_last(), txid);
        assert(p.drop_last().push(p.last()) =~= p);
    } else {
        assert(pending_without(p, txid) =~= p);
    }
}

} // verus!
