//! Append-only operation logs: the capability that the protocol roles append
//! through, the mapping that reading a log back yields, and the simple backend,
//! which keeps one encoded message per line.
use crate::codec::{decoded, encoding, is_encoded, lemma_decoded};
use crate::message::{MessageType, MessageView, ProtocolMessage};
use vstd::prelude::*;

verus! {

/// Why a log could not be opened, written or read back.
#[derive(Clone, Copy, Debug, PartialEq, Eq, Structural)]
pub enum LogError {
    /// Every sequence number has been used.
    Exhausted,
    /// The storage refused an append.
    Append,
    /// The storage failed to read from this offset.
    Read(u64),
    /// Reading from this offset returned no entry although entries remain.
    Stalled(u64),
    /// The entry at this offset (line or offset) is not an encoded message.
    Undecodable(u64),
}

/// Durable, append-only storage of protocol messages.
pub trait MessageLog {
    /// The messages appended through this handle, in order.
    spec fn appended(&self) -> Seq<MessageView>;

    fn append(&mut self, pm: &ProtocolMessage) -> (r: Result<(), LogError>)
        ensures
            r is Ok ==> final(self).appended() == old(self).appended().push(pm@);
}

/// One entry of a log read back: its key and the message stored under it.
pub struct LogEntry {
    pub key: u64,
    pub message: ProtocolMessage,
}

/// A log read back: a mapping from entry key to message, in the order in
/// which the keys first appeared.
pub struct LogRecords {
    entries: Vec<LogEntry>,
}

pub open spec fn keys_distinct(s: Seq<(u64, MessageView)>) -> bool {
    forall|i: int, j: int| 0 <= i < j < s.len() ==> s[i].0 != s[j].0
}

pub open spec fn has_key(s: Seq<(u64, MessageView)>, k: u64) -> bool {
    exists|i: int| 0 <= i < s.len() && s[i].0 == k
}

/// The mapping after storing `m` under `k`: an existing key keeps its place
/// and takes the new message, a new key goes last.
pub open spec fn insert_entry(s: Seq<(u64, MessageView)>, k: u64, m: MessageView) -> Seq<
    (u64, MessageView),
> {
    if has_key(s, k) {
        s.update(choose|i: int| 0 <= i < s.len() && s[i].0 == k, (k, m))
    } else {
        s.push((k, m))
    }
}

/// The entries whose message has kind `t`, in order.
pub open spec fn entries_of_kind(s: Seq<(u64, MessageView)>, t: MessageType) -> Seq<
    (u64, MessageView),
>
    decreases s.len(),
{
    if s.len() == 0 {
        Seq::empty()
    } else if s.last().1.mtype == t {
        entries_of_kind(s.drop_last(), t).push(s.last())
    } else {
        entries_of_kind(s.drop_last(), t)
    }
}

/// The messages of a mapping, in order.
pub open spec fn messages_of(s: Seq<(u64, MessageView)>) -> Seq<MessageView> {
    s.map_values(|e: (u64, MessageView)| e.1)
}

impl View for LogRecords {
    type V = Seq<(u64, MessageView)>;

    closed spec fn view(&self) -> Seq<(u64, MessageView)> {
        self.entries@.map_values(|e: LogEntry| (e.key, e.message@))
    }
}

impl LogRecords {
    #[verifier::type_invariant]
    spec fn inv(&self) -> bool {
        keys_distinct(self@)
    }

    pub open spec fn messages(&self) -> Seq<MessageView> {
        messages_of(self@)
    }

    pub fn new() -> (r: LogRecords)
        ensures
            r@ == Seq::<(u64, MessageView)>::empty(),
    {
        let v: Vec<LogEntry> = Vec::new();
        assert(v@.map_values(|e: LogEntry| (e.key, e.message@)) =~= Seq::<(u64, MessageView)>::empty());
        LogRecords { entries: v }
    }

    pub fn len(&self) -> (r: usize)
        ensures
            r == self@.len(),
    {
        self.entries.len()
    }

    pub fn key(&self, i: usize) -> (r: u64)
        requires
            i < self@.len(),
        ensures
            r == self@[i as int].0,
    {
        self.entries[i].key
    }

    pub fn message(&self, i: usize) -> (r: &ProtocolMessage)
        requires
            i < self@.len(),
        ensures
            r@ == self@[i as int].1,
    {
        &self.entries[i].message
    }

    /// The position of key `k`, if the mapping holds it.
    pub fn find(&self, k: u64) -> (r: Option<usize>)
        ensures
            r matches Some(i) ==> i < self@.len() && self@[i as int].0 == k,
            r is None ==> !has_key(self@, k),
    {
        let mut i: usize = 0;
        while i < self.entries.len()
            invariant
                i <= self@.len(),
                self@.len() == self.entries@.len(),
                forall|j: int| 0 <= j < i ==> self@[j].0 != k,
            decreases self@.len() - i,
        {
            if self.entries[i].key == k {
                return Some(i);
            }
            i = i + 1;
        }
        None
    }

    /// The message stored under key `k`.
    pub fn get(&self, k: u64) -> (r: Option<&ProtocolMessage>)
        ensures
            r matches Some(m) ==> exists|i: int|
                0 <= i < self@.len() && self@[i].0 == k && self@[i].1 == m@,
            r is None ==> !has_key(self@, k),
    {
        match self.find(k) {
            Some(i) => Some(&self.entries[i].message),
            None => None,
        }
    }

    /// The entries whose message has kind `t`.
    pub fn of_kind(&self, t: MessageType) -> (r: LogRecords)
        ensures
            r@ == entries_of_kind(self@, t),
    {
        proof {
            use_type_invariant(self);
        }
        let mut r = LogRecords::new();
        let mut i: usize = 0;
        while i < self.entries.len()
            invariant
                i <= self@.len(),
                self@.len() == self.entries@.len(),
                keys_distinct(self@),
                r@ == entries_of_kind(self@.subrange(0, i as int), t),
                forall|j: int|
                    0 <= j < r@.len() ==> exists|k: int| 0 <= k < i && #[trigger] r@[j].0 == self@[k].0,
            decreases self@.len() - i,
        {
            let e = &self.entries[i];
            assert(self@.subrange(0, i + 1).drop_last() =~= self@.subrange(0, i as int));
            assert(self@[i as int] == (e.key, e.message@));
            if e.message.mtype == t {
                let ghost before = r@;
                proof {
                    assert forall|j: int| 0 <= j < before.len() implies before[j].0 != e.key by {
                        let k = choose|k: int| 0 <= k < i && #[trigger] before[j].0 == self@[k].0;
                    }
                }
                r.insert(e.key, e.message.duplicate());
                proof {
                    assert(!has_key(before, e.key));
                    assert forall|j: int| 0 <= j < r@.len() implies exists|k: int|
                        0 <= k < i + 1 && #[trigger] r@[j].0 == self@[k].0 by {
                        if j == before.len() {
                            assert(r@[j].0 == self@[i as int].0);
                        } else {
                            assert(r@[j] == before[j]);
                        }
                    }
                }
            }
            i = i + 1;
        }
        assert(self@.subrange(0, i as int) =~= self@);
        r
    }

    /// Stores `m` under `k`, replacing what the key held.
    pub fn insert(&mut self, k: u64, m: ProtocolMessage)
        ensures
            final(self)@ == insert_entry(old(self)@, k, m@),
    {
        proof {
            use_type_invariant(&*self);
        }
        let ghost m_view = m@;
        let ghost before = self@;
        match self.find(k) {
            Some(i) => {
                proof {
                    let c = choose|j: int| 0 <= j < before.len() && before[j].0 == k;
                    assert(c == i as int);
                }
                let mut entries: Vec<LogEntry> = Vec::new();
                std::mem::swap(&mut entries, &mut self.entries);
                entries.set(i, LogEntry { key: k, message: m });
                assert(entries@.map_values(|e: LogEntry| (e.key, e.message@)) =~= before.update(
                    i as int,
                    (k, m_view),
                ));
                self.entries = entries;
            },
            None => {
                let mut entries: Vec<LogEntry> = Vec::new();
                std::mem::swap(&mut entries, &mut self.entries);
                entries.push(LogEntry { key: k, message: m });
                assert(entries@.map_values(|e: LogEntry| (e.key, e.message@)) =~= before.push(
                    (k, m_view),
                ));
                self.entries = entries;
            },
        }
    }
}

/// The mapping that replaying encoded lines yields: each message is stored
/// under its own uid.
pub open spec fn replay(lines: Seq<Seq<u8>>) -> Seq<(u64, MessageView)>
    decreases lines.len(),
{
    if lines.len() == 0 {
        Seq::empty()
    } else {
        let m = decoded(lines.last());
        insert_entry(replay(lines.drop_last()), m.uid, m)
    }
}

/// The lines that persist a mapping: each message's encoding, in order.
pub open spec fn rendered(s: Seq<(u64, MessageView)>) -> Seq<Seq<u8>> {
    s.map_values(|e: (u64, MessageView)| encoding(e.1))
}

/// Each key of the mapping is its message's uid.
pub open spec fn keyed_by_uid(s: Seq<(u64, MessageView)>) -> bool {
    forall|i: int| 0 <= i < s.len() ==> (#[trigger] s[i]).0 == s[i].1.uid
}

proof fn lemma_replay_keyed(lines: Seq<Seq<u8>>)
    ensures
        keys_distinct(replay(lines)),
        keyed_by_uid(replay(lines)),
    decreases lines.len(),
{
    if lines.len() > 0 {
        lemma_replay_keyed(lines.drop_last());
        let prev = replay(lines.drop_last());
        let m = decoded(lines.last());
        if has_key(prev, m.uid) {
            let c = choose|i: int| 0 <= i < prev.len() && prev[i].0 == m.uid;
            assert(replay(lines) == prev.update(c, (m.uid, m)));
        } else {
            assert(replay(lines) == prev.push((m.uid, m)));
        }
    }
}

proof fn lemma_replay_rendered(s: Seq<(u64, MessageView)>)
    requires
        keys_distinct(s),
        keyed_by_uid(s),
    ensures
        replay(rendered(s)) == s,
    decreases s.len(),
{
    if s.len() > 0 {
        let prev = s.drop_last();
        assert(rendered(s).drop_last() =~= rendered(prev));
        lemma_replay_rendered(prev);
        lemma_decoded(s.last().1);
        assert(!has_key(prev, s.last().0)) by {
            assert forall|i: int| 0 <= i < prev.len() implies prev[i].0 != s.last().0 by {
                assert(prev[i] == s[i]);
            }
        }
        assert(s.last().0 == s.last().1.uid);
        assert(prev.push(s.last()) =~= s);
    }
}

/// Replaying is a fixpoint: write back the mapping that replaying some lines
/// gave, one encoded message per line, and replaying those lines gives the
/// identical mapping again. (Reading the same lines twice gives the same
/// mapping because `from_lines` returns `replay` of them.)
pub proof fn lemma_replay_idempotent(lines: Seq<Seq<u8>>)
    ensures
        replay(rendered(replay(lines))) == replay(lines),
{
    lemma_replay_keyed(lines);
    lemma_replay_rendered(replay(lines));
}

/// Lines holding the encodings of messages with distinct uids replay to each
/// message, equal in every field, under its uid, in order.
pub proof fn lemma_replay_encoded(msgs: Seq<MessageView>)
    requires
        forall|i: int, j: int| 0 <= i < j < msgs.len() ==> msgs[i].uid != msgs[j].uid,
    ensures
        replay(msgs.map_values(|m: MessageView| encoding(m))) == msgs.map_values(
            |m: MessageView| (m.uid, m),
        ),
{
    let s = msgs.map_values(|m: MessageView| (m.uid, m));
    assert(rendered(s) =~= msgs.map_values(|m: MessageView| encoding(m)));
    lemma_replay_rendered(s);
}

/// The first line that is not an encoded message, if any.
pub open spec fn all_encoded(lines: Seq<Seq<u8>>, n: int) -> bool {
    forall|i: int| 0 <= i < n ==> is_encoded(#[trigger] lines[i])
}

/// Durable storage for the simple backend's lines: it stores one line and
/// says whether it did, before returning.
pub trait LineSink {
    fn write_line(&mut self, line: &[u8]) -> bool;
}

/// A sink that stores nothing, for a log kept in memory only.
pub struct InMemory;

impl LineSink for InMemory {
    fn write_line(&mut self, _line: &[u8]) -> bool {
        true
    }
}

/// The simple backend: sequence numbers, the records appended so far, and
/// the sink that each record's line is written to.
pub struct OpLog<W: LineSink> {
    seqno: u64,
    records: LogRecords,
    path: String,
    sink: W,
    handed: Ghost<Seq<MessageView>>,
}

impl<W: LineSink> OpLog<W> {
    pub closed spec fn seqno(&self) -> u64 {
        self.seqno
    }

    /// The messages handed to `append`, in order.
    pub closed spec fn handed(&self) -> Seq<MessageView> {
        self.handed@
    }

    pub closed spec fn records(&self) -> Seq<(u64, MessageView)> {
        self.records@
    }

    pub closed spec fn path(&self) -> Seq<char> {
        self.path@
    }

    pub fn new(fpath: String, sink: W) -> (r: OpLog<W>)
        ensures
            r.handed() == Seq::<MessageView>::empty(),
            r.seqno() == 0,
            r.records() == Seq::<(u64, MessageView)>::empty(),
            r.path() == fpath@,
    {
        OpLog { seqno: 0, records: LogRecords::new(), path: fpath, sink, handed: Ghost(Seq::empty()) }
    }

    /// Rebuilds the log from its persisted lines, each without its line break.
    pub fn from_lines(fpath: String, lines: &Vec<Vec<u8>>, sink: W) -> (r: Result<OpLog<W>, LogError>)
        ensures
            r matches Ok(log) ==> log.handed() == Seq::<MessageView>::empty() && log.seqno() == 0 && log.path() == fpath@
                && all_encoded(lines@.map_values(|l: Vec<u8>| l@), lines@.len() as int)
                && log.records() == replay(lines@.map_values(|l: Vec<u8>| l@)),
            r matches Err(e) ==> e matches LogError::Undecodable(i) && i < lines@.len()
                && all_encoded(lines@.map_values(|l: Vec<u8>| l@), i as int) && !is_encoded(
                lines@[i as int]@,
            ),
    {
        let ghost ls = lines@.map_values(|l: Vec<u8>| l@);
        let mut records = LogRecords::new();
        let mut i: usize = 0;
        while i < lines.len()
            invariant
                i <= lines@.len(),
                ls == lines@.map_values(|l: Vec<u8>| l@),
                all_encoded(ls, i as int),
                records@ == replay(ls.subrange(0, i as int)),
            decreases lines@.len() - i,
        {
            match ProtocolMessage::from_bytes(lines[i].as_slice()) {
                Some(m) => {
                    proof {
                        lemma_decoded(m@);
                        assert(ls.subrange(0, i + 1).drop_last() =~= ls.subrange(0, i as int));
                    }
                    let uid = m.uid;
                    records.insert(uid, m);
                    i = i + 1;
                },
                None => {
                    assert(!is_encoded(ls[i as int]));
                    return Err(LogError::Undecodable(i as u64));
                },
            }
        }
        assert(ls.subrange(0, i as int) =~= ls);
        Ok(OpLog { seqno: 0, records, path: fpath, sink, handed: Ghost(Seq::empty()) })
    }

    /// Keeps `pm` under the next sequence number, which becomes its uid, and
    /// returns the line to persist: the stored message's encoding and a line
    /// break.
    pub fn record(&mut self, pm: &ProtocolMessage) -> (r: Result<Vec<u8>, LogError>)
        ensures
            final(self).handed() == old(self).handed(),
            final(self).path() == old(self).path(),
            old(self).seqno() == u64::MAX ==> r == Err::<Vec<u8>, LogError>(LogError::Exhausted)
                && *final(self) == *old(self),
            old(self).seqno() < u64::MAX ==> r is Ok && final(self).seqno() == old(self).seqno()
                + 1,
            r matches Ok(line) ==> {
                let stored = (MessageView { uid: final(self).seqno(), ..pm@ });
                &&& final(self).records() == insert_entry(
                    old(self).records(),
                    stored.uid,
                    stored,
                )
                &&& line@ == encoding(stored).push(10u8)
            },
    {
        if self.seqno == u64::MAX {
            return Err(LogError::Exhausted);
        }
        self.seqno = self.seqno + 1;
        let stored = pm.with_uid(self.seqno);
        let mut line = stored.to_bytes();
        line.push(10);
        self.records.insert(self.seqno, stored);
        Ok(line)
    }

    /// The message stored under `uid`.
    pub fn read(&self, uid: u64) -> (r: Option<ProtocolMessage>)
        ensures
            r matches Some(m) ==> exists|i: int|
                0 <= i < self.records().len() && self.records()[i].0 == uid
                    && self.records()[i].1 == m@,
            r is None ==> !has_key(self.records(), uid),
    {
        match self.records.find(uid) {
            Some(i) => {
                let m = self.records.message(i).duplicate();
                assert(self.records()[i as int].0 == uid && self.records()[i as int].1 == m@);
                Some(m)
            },
            None => None,
        }
    }

    /// The sink the lines go to.
    pub fn sink(&self) -> &W {
        &self.sink
    }

    /// Everything appended or replayed so far, giving up the log.
    pub fn into_entries(self) -> (r: LogRecords)
        ensures
            r@ == self.records(),
    {
        self.records
    }

    /// Everything appended or replayed so far.
    pub fn entries(&self) -> (r: &LogRecords)
        ensures
            r@ == self.records(),
    {
        &self.records
    }
}

/// Records the message and writes its line to the sink; fails when the sink
/// does not store it.
impl<W: LineSink> MessageLog for OpLog<W> {
    closed spec fn appended(&self) -> Seq<MessageView> {
        self.handed@
    }

    fn append(&mut self, pm: &ProtocolMessage) -> Result<(), LogError> {
        match self.record(pm) {
            Ok(line) => {
                if !self.sink.write_line(line.as_slice()) {
                    return Err(LogError::Append);
                }
                self.handed = Ghost(self.handed@.push(pm@));
                Ok(())
            },
            Err(e) => Err(e),
        }
    }
}

} // verus!
