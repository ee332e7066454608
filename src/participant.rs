//! The participant: votes on the coordinator's proposals, possibly failing
//! the local operation, logs each vote before sending it, and logs the
//! coordinator's decisions.
use crate::log::{LogError, MessageLog};
use crate::message::{fresh_message, MessageType, MessageView, ProtocolMessage};
use crate::transport::{logged, recv_message, refused, send_message, sent, Effect};
use std::sync::atomic::{AtomicBool, Ordering};
use std::sync::mpsc::{Receiver, Sender};
use std::sync::Arc;
use vstd::prelude::*;

verus! {

/// Relies on `rand::random`, which draws a value from the thread's generator;
/// nothing is promised of the value.
pub assume_specification<T>[ rand::random::<T> ]() -> (r: T)
    where
        rand::distributions::Standard: rand::distributions::Distribution<T>,
;

/// States of the participant's state machine.
#[derive(Clone, Copy, Debug, PartialEq, Eq, Structural)]
pub enum ParticipantState {
    Quiescent,
}

/// A probability in units of 2^-32: a uniform 32-bit draw succeeds when it is
/// below the threshold.
#[derive(Clone, Copy, Debug, PartialEq, Eq, Structural)]
pub struct Chance {
    threshold: u64,
}

pub const CHANCE_SCALE: u64 = 4294967296;

impl Chance {
    pub closed spec fn threshold(&self) -> u64 {
        self.threshold
    }

    /// The chance `units` / 2^32, at most certainty.
    pub fn from_units(units: u64) -> (r: Chance)
        ensures
            r.threshold() == if units <= CHANCE_SCALE {
                units
            } else {
                CHANCE_SCALE
            },
    {
        if units <= CHANCE_SCALE {
            Chance { threshold: units }
        } else {
            Chance { threshold: CHANCE_SCALE }
        }
    }

    pub fn always() -> (r: Chance)
        ensures
            r.threshold() == CHANCE_SCALE,
    {
        Chance { threshold: CHANCE_SCALE }
    }

    pub fn never() -> (r: Chance)
        ensures
            r.threshold() == 0,
    {
        Chance { threshold: 0 }
    }

    /// Whether the draw succeeds.
    pub fn hits(&self, draw: u32) -> (r: bool)
        ensures
            r == (draw < self.threshold()),
    {
        (draw as u64) < self.threshold
    }
}

/// With a zero chance of success every vote is an abort and no vote is
/// delivered; with certainty every vote is a commit and every vote is
/// delivered.
pub proof fn lemma_extreme_chances(op: Chance, msg: Chance, op_draw: u32, msg_draw: u32)
    ensures
        op.threshold() == 0 ==> vote_kind(op_draw < op.threshold())
            == MessageType::ParticipantVoteAbort,
        op.threshold() == CHANCE_SCALE ==> vote_kind(op_draw < op.threshold())
            == MessageType::ParticipantVoteCommit,
        msg.threshold() == 0 ==> !(msg_draw < msg.threshold()),
        msg.threshold() == CHANCE_SCALE ==> msg_draw < msg.threshold(),
{
}

/// The vote on a proposal, given whether the local operation succeeded.
pub open spec fn vote_kind(op_succeeded: bool) -> MessageType {
    if op_succeeded {
        MessageType::ParticipantVoteCommit
    } else {
        MessageType::ParticipantVoteAbort
    }
}

/// The vote on `request` by the participant called `name`.
pub open spec fn vote_on(request: MessageView, name: Seq<char>, op_succeeded: bool) -> MessageView {
    fresh_message(vote_kind(op_succeeded), request.txid, name, request.opid)
}

/// What voting on `request` with the given outcome of the local operation
/// did: the vote was appended to the log and recorded, then perhaps handed to
/// the channel towards the coordinator; or the log refused it.
pub open spec fn voted_on<L: MessageLog>(
    old: Participant<L>,
    new: Participant<L>,
    request: MessageView,
    op_succeeded: bool,
    r: Result<bool, LogError>,
) -> bool {
    let vote = vote_on(request, old.label().1, op_succeeded);
    match r {
        Ok(delivered) => {
            &&& new.log_appended() == old.log_appended().push(vote)
            &&& new.trace() == old.trace().push(logged(vote)) && !delivered || new.trace()
                == old.trace().push(logged(vote)).push(sent(coordinator_name(), vote, delivered))
        },
        Err(_) => new.trace() == old.trace().push(refused(vote)),
    }
}

/// Whether the participant keeps reading messages.
#[derive(Clone, Copy, Debug, PartialEq, Eq, Structural)]
pub enum Flow {
    Continue,
    Stop,
}

/// Why a participant stopped.
#[derive(Clone, Copy, Debug, PartialEq, Eq, Structural)]
pub enum ParticipantError {
    /// The coordinator's end of the channel is gone.
    Disconnected,
    /// A decision arrived while no proposal was open.
    NoOpenTransaction(i32),
    /// A message that a participant never receives.
    Unexpected(MessageType),
    /// The log refused a record.
    Log(LogError),
    /// The operation counters are full.
    CounterOverflow,
}

/// The name the coordinator is addressed by.
pub open spec fn coordinator_name() -> Seq<char> {
    "coordinator"@
}

/// Everything but the trace is the same: name, counters and chances.
pub open spec fn same_but_trace<L: MessageLog>(a: Participant<L>, b: Participant<L>) -> bool {
    &&& b.label() == a.label()
    &&& b.committed() == a.committed()
    &&& b.aborted() == a.aborted()
    &&& b.in_flight() == a.in_flight()
    &&& b.op_chance() == a.op_chance()
    &&& b.msg_chance() == a.msg_chance()
}

/// What handling message `pm` does, given the two draws: a proposal is voted
/// on (commit exactly when the operation draw hits) and the vote logged
/// before it is sent; a decision is logged and counted; an exit stops; any
/// other message, or a decision with no proposal open, is refused and changes
/// nothing.
pub open spec fn handles<L: MessageLog>(
    old: Participant<L>,
    new: Participant<L>,
    pm: MessageView,
    op_draw: u32,
    msg_draw: u32,
    r: Result<Flow, ParticipantError>,
) -> bool {
    &&& new.label() == old.label()
    &&& new.op_chance() == old.op_chance()
    &&& new.msg_chance() == old.msg_chance()
    &&& if pm.mtype == MessageType::CoordinatorPropose {
        let vote = vote_on(pm, old.label().1, op_draw < old.op_chance().threshold());
        match r {
            Ok(f) => {
                &&& f == Flow::Continue
                &&& new.log_appended() == old.log_appended().push(vote)
                &&& new.in_flight() == old.in_flight() + 1
                &&& new.committed() == old.committed()
                &&& new.aborted() == old.aborted()
                &&& if msg_draw < old.msg_chance().threshold() {
                    exists|d: bool|
                        new.trace() == old.trace().push(logged(vote)).push(
                            #[trigger] sent(coordinator_name(), vote, d),
                        )
                } else {
                    new.trace() == old.trace().push(logged(vote))
                }
            },
            Err(e) => e is Log && new.trace() == old.trace().push(refused(vote)) || (e
                == ParticipantError::CounterOverflow && new == old),
        }
    } else if pm.mtype == MessageType::CoordinatorCommit || pm.mtype
        == MessageType::CoordinatorAbort {
        if old.in_flight() == 0 {
            r == Err::<Flow, ParticipantError>(ParticipantError::NoOpenTransaction(pm.txid))
                && new == old
        } else {
            match r {
                Ok(f) => {
                    &&& f == Flow::Continue
                    &&& new.in_flight() == old.in_flight() - 1
                    &&& new.trace() == old.trace().push(logged(pm))
                    &&& new.log_appended() == old.log_appended().push(pm)
                    &&& if pm.mtype == MessageType::CoordinatorCommit {
                        new.committed() == old.committed() + 1 && new.aborted() == old.aborted()
                    } else {
                        new.aborted() == old.aborted() + 1 && new.committed() == old.committed()
                    }
                },
                Err(e) => e is Log && new.trace() == old.trace().push(refused(pm)),
            }
        }
    } else if pm.mtype == MessageType::CoordinatorExit {
        r == Ok::<Flow, ParticipantError>(Flow::Stop) && new == old
    } else {
        r == Err::<Flow, ParticipantError>(ParticipantError::Unexpected(pm.mtype)) && new == old
    }
}

/// A participant, with its channels to the coordinator and its own log.
pub struct Participant<L: MessageLog> {
    pub id: i32,
    pub name: String,
    running: Arc<AtomicBool>,
    state: ParticipantState,
    tx: Sender<ProtocolMessage>,
    rx: Receiver<ProtocolMessage>,
    log: L,
    op_success: Chance,
    msg_success: Chance,
    successful_ops: usize,
    failed_ops: usize,
    unknown_ops: usize,
    effects: Ghost<Seq<Effect>>,
}

impl<L: MessageLog> Participant<L> {
    pub closed spec fn label(&self) -> (i32, Seq<char>) {
        (self.id, self.name@)
    }

    /// What the participant has logged and sent, in order.
    pub closed spec fn trace(&self) -> Seq<Effect> {
        self.effects@
    }

    pub closed spec fn committed(&self) -> nat {
        self.successful_ops as nat
    }

    pub closed spec fn aborted(&self) -> nat {
        self.failed_ops as nat
    }

    /// Proposals voted on and not yet decided.
    pub closed spec fn in_flight(&self) -> nat {
        self.unknown_ops as nat
    }

    /// The operation counters have room for every proposal seen.
    pub open spec fn wf(&self) -> bool {
        self.committed() + self.aborted() + self.in_flight() <= usize::MAX
    }

    /// What the participant's log holds by its own account: the messages
    /// appended through it.
    pub closed spec fn log_appended(&self) -> Seq<MessageView> {
        self.log.appended()
    }

    pub closed spec fn op_chance(&self) -> Chance {
        self.op_success
    }

    pub closed spec fn msg_chance(&self) -> Chance {
        self.msg_success
    }

    pub fn new(
        i: i32,
        name: String,
        running: Arc<AtomicBool>,
        tx: Sender<ProtocolMessage>,
        rx: Receiver<ProtocolMessage>,
        log: L,
        op_success: Chance,
        msg_success: Chance,
    ) -> (r: Participant<L>)
        ensures
            r.wf(),
            r.label() == (i, name@),
            r.trace() == Seq::<Effect>::empty(),
            r.committed() == 0 && r.aborted() == 0 && r.in_flight() == 0,
            r.op_chance() == op_success && r.msg_chance() == msg_success,
            r.log_appended() == log.appended(),
    {
        Participant {
            state: ParticipantState::Quiescent,
            id: i,
            name,
            running,
            tx,
            rx,
            log,
            op_success,
            msg_success,
            successful_ops: 0,
            failed_ops: 0,
            unknown_ops: 0,
            effects: Ghost(Seq::empty()),
        }
    }

    /// Sends `pm` to the coordinator.
    pub fn send(&mut self, pm: ProtocolMessage) -> (r: bool)
        ensures
            final(self).trace() == old(self).trace().push(sent(coordinator_name(), pm@, r)),
            same_but_trace(*old(self), *final(self)),
            final(self).log_appended() == old(self).log_appended(),
    {
        let ghost v = pm@;
        let r = send_message(&self.tx, pm);
        self.effects = Ghost(self.effects@.push(sent(coordinator_name(), v, r)));
        r
    }

    /// Sends `pm` to the coordinator when the draw says the network delivers
    /// it, and drops it otherwise.
    pub fn send_unreliable_with(&mut self, pm: ProtocolMessage, draw: u32) -> (r: bool)
        ensures
            draw < old(self).msg_chance().threshold() ==> final(self).trace() == old(self).trace().push(sent(coordinator_name(), pm@, r)),
            !(draw < old(self).msg_chance().threshold()) ==> !r && final(self).trace() == old(self).trace(),
            same_but_trace(*old(self), *final(self)),
            final(self).log_appended() == old(self).log_appended(),
    {
        if self.msg_success.hits(draw) {
            self.send(pm)
        } else {
            false
        }
    }

    /// Sends `pm` to the coordinator with the configured delivery chance.
    pub fn send_unreliable(&mut self, pm: ProtocolMessage) -> (r: bool)
        ensures
            final(self).trace() == old(self).trace() && !r || final(self).trace() == old(self).trace().push(sent(coordinator_name(), pm@, r)),
            same_but_trace(*old(self), *final(self)),
            final(self).log_appended() == old(self).log_appended(),
    {
        let draw: u32 = rand::random();
        self.send_unreliable_with(pm, draw)
    }

    /// Votes on `request`: commit exactly when the local operation succeeded.
    /// The vote is logged before it is sent.
    pub fn perform_operation_with(
        &mut self,
        request: &ProtocolMessage,
        op_draw: u32,
        msg_draw: u32,
    ) -> (r: Result<bool, LogError>)
        ensures
            same_but_trace(*old(self), *final(self)),
            ({
                let vote = vote_on(
                    request@,
                    old(self).label().1,
                    op_draw < old(self).op_chance().threshold(),
                );
                match r {
                    Ok(delivered) => if msg_draw < old(self).msg_chance().threshold() {
                        final(self).trace() == old(self).trace().push(logged(vote)).push(
                            sent(coordinator_name(), vote, delivered),
                        )
                    } else {
                        !delivered && final(self).trace() == old(self).trace().push(
                            logged(vote),
                        )
                    },
                    Err(_) => final(self).trace() == old(self).trace().push(refused(vote)),
                }
            }),
            voted_on(*old(self), *final(self), request@, op_draw < old(self).op_chance().threshold(), r),
    {
        let result = if self.op_success.hits(op_draw) {
            MessageType::ParticipantVoteCommit
        } else {
            MessageType::ParticipantVoteAbort
        };
        let vote = ProtocolMessage::generate(result, request.txid, self.name.clone(), request.opid);
        match self.log.append(&vote) {
            Ok(()) => {},
            Err(e) => {
                self.effects = Ghost(self.effects@.push(refused(vote@)));
                return Err(e);
            },
        }
        self.effects = Ghost(self.effects@.push(logged(vote@)));
        Ok(self.send_unreliable_with(vote, msg_draw))
    }

    /// Votes on `request` with the configured chances.
    pub fn perform_operation(&mut self, request: &ProtocolMessage) -> (r: Result<bool, LogError>)
        ensures
            same_but_trace(*old(self), *final(self)),
            exists|op_succeeded: bool| voted_on(*old(self), *final(self), request@, op_succeeded, r),
    {
        let op_draw: u32 = rand::random();
        let msg_draw: u32 = rand::random();
        self.perform_operation_with(request, op_draw, msg_draw)
    }

    /// Logs the coordinator's decision.
    pub fn commit_result(&mut self, request: &ProtocolMessage) -> (r: Result<(), LogError>)
        ensures
            same_but_trace(*old(self), *final(self)),
            r is Ok ==> final(self).trace() == old(self).trace().push(logged(request@))
                && final(self).log_appended() == old(self).log_appended().push(request@),
            r is Err ==> final(self).trace() == old(self).trace().push(refused(request@)),
    {
        match self.log.append(request) {
            Ok(()) => {
                self.effects = Ghost(self.effects@.push(logged(request@)));
                Ok(())
            },
            Err(e) => {
                self.effects = Ghost(self.effects@.push(refused(request@)));
                Err(e)
            },
        }
    }

    /// Handles one message from the coordinator, given the draws that decide
    /// the local operation and the delivery of the vote.
    pub fn handle_message_with(
        &mut self,
        pm: &ProtocolMessage,
        op_draw: u32,
        msg_draw: u32,
    ) -> (r: Result<Flow, ParticipantError>)
        requires
            old(self).wf(),
        ensures
            final(self).wf(),
            handles(*old(self), *final(self), pm@, op_draw, msg_draw, r),
    {
        match pm.mtype {
            MessageType::CoordinatorPropose => {
                if self.unknown_ops >= usize::MAX - self.successful_ops - self.failed_ops {
                    return Err(ParticipantError::CounterOverflow);
                }
                match self.perform_operation_with(pm, op_draw, msg_draw) {
                    Ok(_) => {},
                    Err(e) => {
                        return Err(ParticipantError::Log(e));
                    },
                }
                self.unknown_ops = self.unknown_ops + 1;
                Ok(Flow::Continue)
            },
            MessageType::CoordinatorCommit | MessageType::CoordinatorAbort => {
                if self.unknown_ops == 0 {
                    return Err(ParticipantError::NoOpenTransaction(pm.txid));
                }
                match self.commit_result(pm) {
                    Ok(()) => {},
                    Err(e) => {
                        return Err(ParticipantError::Log(e));
                    },
                }
                self.unknown_ops = self.unknown_ops - 1;
                if pm.mtype == MessageType::CoordinatorCommit {
                    self.successful_ops = self.successful_ops + 1;
                } else {
                    self.failed_ops = self.failed_ops + 1;
                }
                Ok(Flow::Continue)
            },
            MessageType::CoordinatorExit => Ok(Flow::Stop),
            _ => Err(ParticipantError::Unexpected(pm.mtype)),
        }
    }

    /// Whether the run is still going on.
    pub fn is_running(&self) -> bool {
        self.running.load(Ordering::SeqCst)
    }

    /// One turn of the participant's loop: stops once the run is over,
    /// otherwise waits for the next message and handles it.
    pub fn step(&mut self) -> (r: Result<Flow, ParticipantError>)
        requires
            old(self).wf(),
        ensures
            final(self).wf(),
            r == Ok::<Flow, ParticipantError>(Flow::Stop) && *final(self) == *old(self)
                || r == Err::<Flow, ParticipantError>(ParticipantError::Disconnected) && *final(self) == *old(self) || exists|pm: MessageView, op_draw: u32, msg_draw: u32|
                handles(*old(self), *final(self), pm, op_draw, msg_draw, r),
    {
        if !self.is_running() {
            return Ok(Flow::Stop);
        }
        let pm = match recv_message(&self.rx) {
            Some(pm) => pm,
            None => {
                return Err(ParticipantError::Disconnected);
            },
        };
        let op_draw: u32 = rand::random();
        let msg_draw: u32 = rand::random();
        self.handle_message_with(&pm, op_draw, msg_draw)
    }

    pub fn successful_ops(&self) -> (r: usize)
        ensures
            r == self.committed(),
    {
        self.successful_ops
    }

    pub fn failed_ops(&self) -> (r: usize)
        ensures
            r == self.aborted(),
    {
        self.failed_ops
    }

    pub fn unknown_ops(&self) -> (r: usize)
        ensures
            r == self.in_flight(),
    {
        self.unknown_ops
    }

    pub fn state(&self) -> ParticipantState {
        self.state
    }

    /// The log the votes and decisions go to.
    pub fn log(&self) -> &L {
        &self.log
    }
}

} // verus!
