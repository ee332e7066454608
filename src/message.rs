use vstd::prelude::*;

verus! {

/// The kind of a protocol message.
#[derive(Clone, Copy, Debug, PartialEq, Eq, Structural)]
pub enum MessageType {
    ClientRequest,
    CoordinatorPropose,
    ParticipantVoteCommit,
    ParticipantVoteAbort,
    CoordinatorCommit,
    CoordinatorAbort,
    ClientResultCommit,
    ClientResultAbort,
    CoordinatorExit,
}

/// Outcome of collecting the votes for one transaction.
#[derive(Clone, Copy, Debug, PartialEq, Eq, Structural)]
pub enum RequestStatus {
    Committed,
    Aborted,
    Unknown,
}

/// The mathematical value of a `ProtocolMessage`.
pub struct MessageView {
    pub mtype: MessageType,
    pub txid: i32,
    pub senderid: Seq<char>,
    pub opid: i32,
    pub uid: u64,
}

/// The unit of communication between coordinator, participants and clients.
#[derive(Debug)]
pub struct ProtocolMessage {
    pub mtype: MessageType,
    pub txid: i32,
    pub senderid: String,
    pub opid: i32,
    pub uid: u64,
}

impl View for ProtocolMessage {
    type V = MessageView;

    open spec fn view(&self) -> MessageView {
        MessageView {
            mtype: self.mtype,
            txid: self.txid,
            senderid: self.senderid@,
            opid: self.opid,
            uid: self.uid,
        }
    }
}

/// The message that `generate` builds: no log has assigned it a uid yet.
pub open spec fn fresh_message(mtype: MessageType, txid: i32, senderid: Seq<char>, opid: i32) -> MessageView {
    MessageView { mtype, txid, senderid, opid, uid: 0 }
}

/// Whether a message type is one of the coordinator's two terminal decisions.
pub open spec fn is_decision(t: MessageType) -> bool {
    t == MessageType::CoordinatorCommit || t == MessageType::CoordinatorAbort
}

impl ProtocolMessage {
    pub fn generate(mtype: MessageType, txid: i32, senderid: String, opid: i32) -> (r: ProtocolMessage)
        ensures
            r@ == fresh_message(mtype, txid, senderid@, opid),
    {
        ProtocolMessage { mtype, txid, senderid, opid, uid: 0 }
    }

    /// The same message with another uid.
    pub fn with_uid(&self, uid: u64) -> (r: ProtocolMessage)
        ensures
            r@ == (MessageView { uid, ..self@ }),
    {
        ProtocolMessage {
            mtype: self.mtype,
            txid: self.txid,
            senderid: self.senderid.clone(),
            opid: self.opid,
            uid,
        }
    }

    pub fn duplicate(&self) -> (r: ProtocolMessage)
        ensures
            r@ == self@,
    {
        self.with_uid(self.uid)
    }
}

impl Clone for ProtocolMessage {
    fn clone(&self) -> (r: ProtocolMessage)
        ensures
            r@ == self@,
    {
        self.duplicate()
    }
}

impl PartialEq for ProtocolMessage {
    fn eq(&self, o: &ProtocolMessage) -> (r: bool) {
        self.mtype == o.mtype && self.txid == o.txid && self.senderid == o.senderid
            && self.opid == o.opid && self.uid == o.uid
    }
}

impl vstd::std_specs::cmp::PartialEqSpecImpl for ProtocolMessage {
    open spec fn obeys_eq_spec() -> bool {
        true
    }

    open spec fn eq_spec(&self, o: &ProtocolMessage) -> bool {
        self@ == o@
    }
}

impl Eq for ProtocolMessage {}

} // verus!
