//! The segmented backend: each message is one entry of a `commitlog` commit
//! log, addressed by its offset.
use crate::codec::{decoded, encoding, is_encoded, lemma_decoded};
use crate::log::{LineSink, LogError, LogRecords, MessageLog, OpLog};
use crate::message::{MessageView, ProtocolMessage};
use commitlog::message::MessageSet;
use commitlog::{AppendError, CommitLog, ReadError, ReadLimit};
use vstd::prelude::*;

verus! {

/// `commitlog::CommitLog`: an append-only sequence of payloads on disk.
#[verifier::external_type_specification]
#[verifier::external_body]
pub struct ExCommitLog(CommitLog);

/// Why `CommitLog::append_msg` failed.
#[verifier::external_type_specification]
#[verifier::external_body]
pub struct ExAppendError(AppendError);

/// Why `CommitLog::read` failed.
#[verifier::external_type_specification]
#[verifier::external_body]
pub struct ExReadError(ReadError);

/// The payloads that a commit log holds, by offset: entry `i` is the payload
/// appended at offset `i`.
pub uninterp spec fn stored_payloads(log: CommitLog) -> Seq<Seq<u8>>;

/// Relies on `CommitLog::append_msg`: the payload becomes the entry at the
/// next offset, which is returned.
#[verifier::external_body]
fn append_payload(log: &mut CommitLog, payload: &[u8]) -> (r: Result<u64, AppendError>)
    ensures
        r matches Ok(off) ==> off == stored_payloads(*old(log)).len() && stored_payloads(
            *final(log),
        ) == stored_payloads(*old(log)).push(payload@),
{
    log.append_msg(payload)
}

/// Relies on `CommitLog::next_offset`: the offset that the next append gets,
/// which is the number of entries.
#[verifier::external_body]
fn entry_count(log: &CommitLog) -> (r: u64)
    ensures
        r == stored_payloads(*log).len(),
{
    log.next_offset()
}

/// Relies on `CommitLog::read` with the default limit: consecutive entries
/// from offset `start` on, each with its offset and payload.
#[verifier::external_body]
fn read_entries(log: &CommitLog, start: u64) -> (r: Result<Vec<(u64, Vec<u8>)>, ReadError>)
    requires
        start < stored_payloads(*log).len(),
    ensures
        r matches Ok(v) ==> start + v@.len() <= stored_payloads(*log).len() && forall|i: int|
            #![trigger v@[i]]
            0 <= i < v@.len() ==> v@[i].0 == start + i && v@[i].1@ == stored_payloads(*log)[start
                + i],
{
    match log.read(start, ReadLimit::default()) {
        Ok(buf) => Ok(buf.iter().map(|m| (m.offset(), m.payload().to_vec())).collect()),
        Err(e) => Err(e),
    }
}

/// The mapping that reading back a log of these payloads yields: each
/// message under its offset.
pub open spec fn offset_mapping(payloads: Seq<Seq<u8>>) -> Seq<(u64, MessageView)> {
    Seq::new(payloads.len(), |i: int| (i as u64, decoded(payloads[i])))
}

/// Appending never reorders or loses entries: once a message is appended,
/// reading the log back gives what it gave before, then the message under the
/// next offset.
pub proof fn lemma_append_read_back(payloads: Seq<Seq<u8>>, m: MessageView)
    requires
        payloads.len() < u64::MAX,
    ensures
        offset_mapping(payloads.push(encoding(m))) == offset_mapping(payloads).push(
            (payloads.len() as u64, m),
        ),
{
    lemma_decoded(m);
    assert(offset_mapping(payloads.push(encoding(m))) =~= offset_mapping(payloads).push(
        (payloads.len() as u64, m),
    ));
}

/// A commit log that received the encodings of `msgs`, in order, reads back
/// each message, equal in every field, under its offset.
pub proof fn lemma_appends_read_back(msgs: Seq<MessageView>)
    ensures
        offset_mapping(msgs.map_values(|m: MessageView| encoding(m))) == Seq::new(
            msgs.len(),
            |i: int| (i as u64, msgs[i]),
        ),
{
    assert forall|i: int| 0 <= i < msgs.len() implies decoded(encoding(msgs[i])) == msgs[i] by {
        lemma_decoded(msgs[i]);
    }
    assert(offset_mapping(msgs.map_values(|m: MessageView| encoding(m))) =~= Seq::new(
        msgs.len(),
        |i: int| (i as u64, msgs[i]),
    ));
}

/// A message log kept in a commit log directory.
pub struct CommitOpLog {
    path: String,
    commit_log: CommitLog,
}

impl CommitOpLog {
    /// The encoded messages the log holds, by offset.
    pub closed spec fn payloads(&self) -> Seq<Seq<u8>> {
        stored_payloads(self.commit_log)
    }

    pub closed spec fn path(&self) -> Seq<char> {
        self.path@
    }

    /// The log kept in directory `fpath`, given the commit log opened there.
    /// Opening is left to the caller: `CommitLog::new` panics on a directory
    /// that holds a segment without its index, which a crash can leave.
    pub fn from_file(fpath: String, commit_log: CommitLog) -> (r: CommitOpLog)
        ensures
            r.path() == fpath@,
            r.payloads() == stored_payloads(commit_log),
    {
        CommitOpLog { path: fpath, commit_log }
    }

    /// Reads every entry back: each message under its offset.
    pub fn to_hash(&self) -> (r: Result<LogRecords, LogError>)
        ensures
            r matches Ok(recs) ==> recs@ == offset_mapping(self.payloads()) && forall|i: int|
                0 <= i < self.payloads().len() ==> is_encoded(#[trigger] self.payloads()[i]),
            r matches Err(e) ==> match e {
                LogError::Undecodable(off) => off < self.payloads().len() && !is_encoded(
                    self.payloads()[off as int],
                ),
                LogError::Read(off) => off < self.payloads().len(),
                LogError::Stalled(off) => off < self.payloads().len(),
                _ => false,
            },
    {
        let ghost p = self.payloads();
        let next = entry_count(&self.commit_log);
        let mut hash = LogRecords::new();
        let mut offset: u64 = 0;
        while offset < next
            invariant
                offset <= next,
                next == p.len(),
                p == self.payloads(),
                hash@ == offset_mapping(p.subrange(0, offset as int)),
                forall|i: int| 0 <= i < offset ==> is_encoded(#[trigger] p[i]),
            decreases next - offset,
        {
            let r = read_entries(&self.commit_log, offset);
            let batch = match r {
                Ok(v) => v,
                Err(_) => {
                    return Err(LogError::Read(offset));
                },
            };
            if batch.len() == 0 {
                return Err(LogError::Stalled(offset));
            }
            let ghost start = offset;
            let mut j: usize = 0;
            while j < batch.len()
                invariant
                    j <= batch@.len(),
                    offset == start + j,
                    start + batch@.len() <= next,
                    next == p.len(),
                    p == self.payloads(),
                    forall|i: int|
                        #![trigger batch@[i]]
                        0 <= i < batch@.len() ==> batch@[i].0 == start + i && batch@[i].1@ == p[start
                            + i],
                    hash@ == offset_mapping(p.subrange(0, offset as int)),
                    forall|i: int| 0 <= i < offset ==> is_encoded(#[trigger] p[i]),
                decreases batch@.len() - j,
            {
                let payload = &batch[j].1;
                assert(payload@ == p[offset as int]);
                match ProtocolMessage::from_bytes(payload.as_slice()) {
                    Some(m) => {
                        proof {
                            lemma_decoded(m@);
                            assert forall|i: int| 0 <= i < hash@.len() implies hash@[i].0
                                != offset by {}
                        }
                        let ghost before = hash@;
                        hash.insert(offset, m);
                        proof {
                            assert(!crate::log::has_key(before, offset));
                            assert(hash@ =~= offset_mapping(p.subrange(0, offset + 1)));
                        }
                        offset = offset + 1;
                    },
                    None => {
                        return Err(LogError::Undecodable(offset));
                    },
                }
                j = j + 1;
            }
        }
        assert(p.subrange(0, offset as int) =~= p);
        Ok(hash)
    }
}

impl CommitOpLog {
    /// Appends the message's encoding as the next entry; returns its offset.
    pub fn append_message(&mut self, pm: &ProtocolMessage) -> (r: Result<u64, LogError>)
        ensures
            final(self).path() == old(self).path(),
            r matches Ok(off) ==> off == old(self).payloads().len() && final(self).payloads()
                == old(self).payloads().push(encoding(pm@)),
            r matches Err(e) ==> e == LogError::Append,
    {
        let bytes = pm.to_bytes();
        match append_payload(&mut self.commit_log, bytes.as_slice()) {
            Ok(off) => Ok(off),
            Err(_) => Err(LogError::Append),
        }
    }
}

impl MessageLog for CommitOpLog {
    closed spec fn appended(&self) -> Seq<MessageView> {
        self.payloads().map_values(|p: Seq<u8>| decoded(p))
    }

    fn append(&mut self, pm: &ProtocolMessage) -> Result<(), LogError> {
        let ghost before = self.payloads();
        match self.append_message(pm) {
            Ok(_) => {
                proof {
                    lemma_decoded(pm@);
                    assert(self.payloads().map_values(|p: Seq<u8>| decoded(p)) =~= before.map_values(
                        |p: Seq<u8>| decoded(p),
                    ).push(pm@));
                }
                Ok(())
            },
            Err(e) => Err(e),
        }
    }
}

/// The log a role appends to: either backend, chosen when the run starts.
pub enum RoleLog<W: LineSink> {
    Simple(OpLog<W>),
    Segmented(CommitOpLog),
}

impl<W: LineSink> MessageLog for RoleLog<W> {
    open spec fn appended(&self) -> Seq<MessageView> {
        match self {
            RoleLog::Simple(l) => l.appended(),
            RoleLog::Segmented(l) => l.appended(),
        }
    }

    fn append(&mut self, pm: &ProtocolMessage) -> Result<(), LogError> {
        match self {
            RoleLog::Simple(l) => l.append(pm),
            RoleLog::Segmented(l) => l.append(pm),
        }
    }
}

} // verus!
