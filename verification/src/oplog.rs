//! The operation log: an append-only, replayable store of protocol messages
//! for one process. Appends assign dense sequence numbers starting at one and
//! hand back the persisted line; replay rebuilds a log from the lines of an
//! existing file, preserving the identifiers stored on disk.

use vstd::prelude::*;
use crate::codec::line_of;
use crate::codec::parse_line;
use crate::codec::lemma_parse_of_line;
use crate::message::MessageModel;
use crate::message::MessageType;
use crate::message::ProtocolMessage;

verus! {

/// Mathematical model of an operation log: the sequence counter and the
/// mapping from message identifier to message.
pub ghost struct LogModel {
    pub seqno: int,
    pub map: Map<int, MessageModel>,
}

/// The models of a sequence of messages.
pub open spec fn models_of(s: Seq<ProtocolMessage>) -> Seq<MessageModel> {
    s.map_values(|pm: ProtocolMessage| pm@)
}

/// The mapping a sequence of entries stands for, keyed by identifier, later
/// entries overriding earlier ones with the same identifier.
pub open spec fn map_of(s: Seq<MessageModel>) -> Map<int, MessageModel>
    decreases s.len(),
{
    if s.len() == 0 {
        Map::empty()
    } else {
        map_of(s.drop_last()).insert(s.last().uid, s.last())
    }
}

/// No two entries share an identifier.
pub open spec fn uids_distinct(s: Seq<MessageModel>) -> bool {
    forall|i: int, j: int|
        0 <= i < j < s.len() ==> (#[trigger] s[i]).uid != (#[trigger] s[j]).uid
}

/// What replaying a sequence of persisted lines yields: `None` as soon as
/// any line fails to parse, else the map of all records keyed by their
/// stored identifiers, with the counter primed to the largest identifier
/// seen, so that further appends continue the sequence without collision.
pub open spec fn replay(lines: Seq<Seq<char>>) -> Option<LogModel>
    decreases lines.len(),
{
    if lines.len() == 0 {
        Some(LogModel { seqno: 0, map: Map::empty() })
    } else {
        match replay(lines.drop_last()) {
            None => None,
            Some(l) => match parse_line(lines.last()) {
                None => None,
                Some(m) => Some(
                    LogModel {
                        seqno: if m.uid > l.seqno {
                            m.uid
                        } else {
                            l.seqno
                        },
                        map: l.map.insert(m.uid, m),
                    },
                ),
            },
        }
    }
}

/// The views of a vector of lines.
pub open spec fn views_of_lines(s: Seq<String>) -> Seq<Seq<char>> {
    s.map_values(|l: String| l@)
}

/// An entry with identifier `u` makes `u` a key of the mapping, and with
/// distinct identifiers the mapping returns exactly that entry.
proof fn lemma_map_of_get(s: Seq<MessageModel>, k: int)
    requires
        uids_distinct(s),
        0 <= k < s.len(),
    ensures
        map_of(s).contains_key(s[k].uid),
        map_of(s)[s[k].uid] == s[k],
    decreases s.len(),
{
    if k < s.len() - 1 {
        lemma_map_of_get(s.drop_last(), k);
    }
}

/// A key of the mapping always belongs to some entry.
proof fn lemma_map_of_key_exists(s: Seq<MessageModel>, u: int)
    requires
        map_of(s).contains_key(u),
    ensures
        exists|i: int| 0 <= i < s.len() && (#[trigger] s[i]).uid == u,
    decreases s.len(),
{
    if s.len() > 0 && s.last().uid != u {
        lemma_map_of_key_exists(s.drop_last(), u);
        let i = choose|i: int| 0 <= i < s.drop_last().len() && (#[trigger] s.drop_last()[i]).uid
            == u;
        assert(s[i].uid == u);
    }
}

/// Replacing the entry that holds an identifier updates the mapping at that
/// identifier alone.
proof fn lemma_map_of_update(s: Seq<MessageModel>, k: int, m: MessageModel)
    requires
        uids_distinct(s),
        0 <= k < s.len(),
        s[k].uid == m.uid,
    ensures
        map_of(s.update(k, m)) =~= map_of(s).insert(m.uid, m),
    decreases s.len(),
{
    let t = s.update(k, m);
    if k == s.len() - 1 {
        assert(t.drop_last() =~= s.drop_last());
    } else {
        assert(t.drop_last() =~= s.drop_last().update(k, m));
        lemma_map_of_update(s.drop_last(), k, m);
        assert(s.last().uid != m.uid);
    }
}

/// The operation log of one process: the sequence counter and the entries,
/// each keyed by its own identifier, identifiers pairwise distinct and never
/// ahead of the counter.
pub struct OpLog {
    seqno: u32,
    entries: Vec<ProtocolMessage>,
}

impl View for OpLog {
    type V = LogModel;

    closed spec fn view(&self) -> LogModel {
        LogModel { seqno: self.seqno as int, map: map_of(models_of(self.entries@)) }
    }
}

impl OpLog {
    /// Entry identifiers are distinct, bounded by the counter, and every
    /// entry is well formed.
    pub closed spec fn wf(self) -> bool {
        let ms = models_of(self.entries@);
        &&& uids_distinct(ms)
        &&& forall|i: int|
            0 <= i < ms.len() ==> (#[trigger] ms[i]).uid <= self.seqno as int && ms[i].wf()
    }

    /// The entries' models, in insertion order.
    pub closed spec fn entry_models(self) -> Seq<MessageModel> {
        models_of(self.entries@)
    }

    /// The entries in insertion order; their mapping is the log's own.
    pub fn entries(&self) -> (r: &Vec<ProtocolMessage>)
        ensures
            models_of(r@) == self.entry_models(),
            map_of(models_of(r@)) == self@.map,
    {
        &self.entries
    }

    /// A fresh, empty log with the counter at zero.
    pub fn new() -> (r: OpLog)
        ensures
            r.wf(),
            r@.seqno == 0,
            r@.map == Map::<int, MessageModel>::empty(),
            r.entry_models() == Seq::<MessageModel>::empty(),
    {
        let log = OpLog { seqno: 0, entries: Vec::new() };
        proof {
            assert(models_of(log.entries@) =~= Seq::<MessageModel>::empty());
        }
        log
    }

    /// Takes one replayed record in: keys it by its own stored identifier,
    /// overriding any earlier record with that identifier, and primes the
    /// counter to the largest identifier seen.
    fn ingest(&mut self, pm: ProtocolMessage)
        requires
            old(self).wf(),
            pm@.wf(),
        ensures
            final(self).wf(),
            final(self)@.map == old(self)@.map.insert(pm@.uid, pm@),
            final(self)@.seqno == if pm@.uid > old(self)@.seqno {
                pm@.uid
            } else {
                old(self)@.seqno
            },
    {
        let ghost pre = models_of(self.entries@);
        if pm.uid > self.seqno {
            self.seqno = pm.uid;
        }
        let ghost sq = self.seqno;
        let n = self.entries.len();
        let mut k: usize = 0;
        while k < n
            invariant
                n == self.entries.len(),
                k <= n,
                old(self).wf(),
                pm@.wf(),
                pre == models_of(self.entries@),
                self.entries@ == old(self).entries@,
                self.seqno == sq,
                pm@.uid <= sq as int,
                old(self).seqno <= sq,
                sq as int == if pm@.uid > old(self)@.seqno {
                    pm@.uid
                } else {
                    old(self)@.seqno
                },
                forall|j: int| 0 <= j < k ==> (#[trigger] pre[j]).uid != pm@.uid,
            decreases n - k,
        {
            if self.entries[k].uid == pm.uid {
                self.entries.set(k, pm);
                proof {
                    let ms = models_of(self.entries@);
                    assert(ms =~= pre.update(k as int, pm@));
                    lemma_map_of_update(pre, k as int, pm@);
                    assert forall|i: int, j: int| 0 <= i < j < ms.len() implies (#[trigger] ms[i]).uid
                        != (#[trigger] ms[j]).uid by {
                        assert(pre[i].uid != pre[j].uid);
                    }
                    assert(final(self).wf());
                }
                return ;
            }
            k = k + 1;
        }
        self.entries.push(pm);
        proof {
            let ms = models_of(self.entries@);
            assert(ms =~= pre.push(pm@));
            assert(ms.drop_last() =~= pre);
            assert forall|i: int, j: int| 0 <= i < j < ms.len() implies (#[trigger] ms[i]).uid
                != (#[trigger] ms[j]).uid by {
                if j < ms.len() - 1 {
                    assert(pre[i].uid != pre[j].uid);
                } else {
                    assert(ms[i] == pre[i]);
                }
            }
            assert(final(self).wf());
        }
    }

    /// Rebuilds a log by replaying the lines of an existing file: each line
    /// parses to one record, inserted under its stored identifier; the first
    /// unparseable line aborts the whole load with its index. The counter
    /// ends at the maximum identifier observed.
    pub fn from_lines(lines: &Vec<String>) -> (r: Result<OpLog, usize>)
        ensures
            match r {
                Ok(log) => log.wf() && replay(views_of_lines(lines@)) == Some(log@),
                Err(i) => i < lines@.len() && parse_line(lines@[i as int]@) is None && (forall|
                    j: int,
                |
                    0 <= j < i ==> parse_line((#[trigger] lines@[j])@) is Some) && replay(
                    views_of_lines(lines@),
                ) is None,
            },
    {
        let mut log = OpLog::new();
        let n = lines.len();
        let mut i: usize = 0;
        proof {
            assert(views_of_lines(lines@).take(0) =~= Seq::<Seq<char>>::empty());
        }
        while i < n
            invariant
                n == lines@.len(),
                i <= n,
                log.wf(),
                replay(views_of_lines(lines@).take(i as int)) == Some(log@),
                forall|j: int| 0 <= j < i ==> parse_line((#[trigger] lines@[j])@) is Some,
            decreases n - i,
        {
            let ghost pre = views_of_lines(lines@).take(i as int);
            match ProtocolMessage::from_string(&lines[i]) {
                None => {
                    proof {
                        lemma_replay_extends_none(views_of_lines(lines@), i as int);
                    }
                    return Err(i);
                },
                Some(pm) => {
                    log.ingest(pm);
                    proof {
                        assert(views_of_lines(lines@).take(i + 1 as int).drop_last() =~= pre);
                        assert(views_of_lines(lines@).take(i + 1 as int).last() == lines@[
                            i as int
                        ]@);
                    }
                },
            }
            i = i + 1;
        }
        proof {
            assert(views_of_lines(lines@).take(n as int) =~= views_of_lines(lines@));
        }
        Ok(log)
    }

    /// The message a successful append with these arguments records.
    pub open spec fn appended(self, t: MessageType, tid: Seq<char>, sender: Seq<char>, op: int)
        -> MessageModel {
        MessageModel {
            mtype: t,
            uid: self@.seqno + 1,
            txid: tid,
            senderid: sender,
            opid: op,
        }
    }

    /// Appends one record: advances the counter, keys the record by the new
    /// counter value — so within one log the keys are dense and monotonic
    /// starting at one — and returns the exact line to be flushed to the
    /// backing file before the append is considered complete. The returned
    /// line parses back to the record just inserted.
    pub fn append(&mut self, t: MessageType, tid: String, sender: String, op: u32) -> (line:
        String)
        requires
            old(self).wf(),
            old(self)@.seqno < u32::MAX,
        ensures
            final(self).wf(),
            final(self)@.seqno == old(self)@.seqno + 1,
            final(self)@.map == old(self)@.map.insert(
                old(self)@.seqno + 1,
                old(self).appended(t, tid@, sender@, op as int),
            ),
            final(self).entry_models() == old(self).entry_models().push(
                old(self).appended(t, tid@, sender@, op as int),
            ),
            line@ == line_of(old(self).appended(t, tid@, sender@, op as int)),
            parse_line(line@) == Some(old(self).appended(t, tid@, sender@, op as int)),
            crate::codec::newline_free(tid@) && crate::codec::newline_free(sender@)
                ==> crate::codec::newline_free(line@),
    {
        self.seqno = self.seqno + 1;
        let pm = ProtocolMessage::instantiate(t, self.seqno, tid, sender, op);
        let line = pm.to_line();
        let ghost pre = models_of(self.entries@);
        self.entries.push(pm);
        proof {
            let ms = models_of(self.entries@);
            assert(ms =~= pre.push(pm@));
            assert(ms.drop_last() =~= pre);
            lemma_parse_of_line(pm@);
            if crate::codec::newline_free(tid@) && crate::codec::newline_free(sender@) {
                crate::codec::lemma_line_newline_free(pm@);
            }
        }
        line
    }

    /// The current value of the sequence counter: the key of the latest
    /// append, zero for a fresh log, the largest stored identifier for a
    /// replayed one.
    pub fn seqno(&self) -> (r: u32)
        ensures
            r as int == self@.seqno,
    {
        self.seqno
    }

    /// Whether a record is stored under the given key.
    pub fn contains(&self, offset: &u32) -> (r: bool)
        requires
            self.wf(),
        ensures
            r == self@.map.contains_key(*offset as int),
    {
        let ghost ms = models_of(self.entries@);
        let n = self.entries.len();
        let mut k: usize = 0;
        while k < n
            invariant
                n == self.entries.len(),
                k <= n,
                forall|j: int| 0 <= j < k ==> (#[trigger] ms[j]).uid != *offset as int,
                ms == models_of(self.entries@),
                self.wf(),
            decreases n - k,
        {
            if self.entries[k].uid == *offset {
                proof {
                    lemma_map_of_get(ms, k as int);
                }
                return true;
            }
            k = k + 1;
        }
        proof {
            if self@.map.contains_key(*offset as int) {
                lemma_map_of_key_exists(ms, *offset as int);
            }
        }
        false
    }

    /// Returns the record stored under the given key; callers may only read
    /// keys they know were appended or replayed.
    pub fn read(&self, offset: &u32) -> (r: ProtocolMessage)
        requires
            self.wf(),
            self@.map.contains_key(*offset as int),
        ensures
            r@ == self@.map[*offset as int],
    {
        let ghost ms = models_of(self.entries@);
        proof {
            lemma_map_of_key_exists(ms, *offset as int);
        }
        let n = self.entries.len();
        let mut k: usize = 0;
        while k < n
            invariant
                n == self.entries.len(),
                k <= n,
                forall|j: int| 0 <= j < k ==> (#[trigger] ms[j]).uid != *offset as int,
                ms == models_of(self.entries@),
                self.wf(),
                self@.map.contains_key(*offset as int),
            decreases n - k,
        {
            if self.entries[k].uid == *offset {
                proof {
                    lemma_map_of_get(ms, k as int);
                }
                return self.entries[k].duplicate();
            }
            k = k + 1;
        }
        proof {
            lemma_map_of_key_exists(ms, *offset as int);
            assert(false);
        }
        vstd::pervasive::unreached()
    }
}

/// A load that stops at an unparseable line fails as a whole: if any prefix
/// line fails to parse, replaying the full sequence yields nothing.
proof fn lemma_replay_extends_none(lines: Seq<Seq<char>>, i: int)
    requires
        0 <= i < lines.len(),
        parse_line(lines[i]) is None,
    ensures
        replay(lines) is None,
    decreases lines.len(),
{
    if lines.len() > 0 {
        if i == lines.len() - 1 {
            assert(lines.last() == lines[i]);
        } else {
            lemma_replay_extends_none(lines.drop_last(), i);
        }
    }
}

/// Append durability: appending to a file whose replay yields `pre` the one
/// line a well-formed record renders as gives a file whose replay yields the
/// same log extended with exactly that record, stored under its own
/// identifier.
pub proof fn lemma_append_durable(lines: Seq<Seq<char>>, pre: LogModel, m: MessageModel)
    requires
        replay(lines) == Some(pre),
        m.wf(),
    ensures
        replay(lines.push(line_of(m))) == Some(
            LogModel {
                seqno: if m.uid > pre.seqno {
                    m.uid
                } else {
                    pre.seqno
                },
                map: pre.map.insert(m.uid, m),
            },
        ),
{
    lemma_parse_of_line(m);
    assert(lines.push(line_of(m)).drop_last() =~= lines);
}

/// A log's keys are exactly one through its counter: no gaps, no reuse.
pub open spec fn dense(l: LogModel) -> bool {
    l.map.dom() == Set::new(|u: int| 1 <= u <= l.seqno)
}

/// A fresh log is dense: its counter is zero and it has no keys.
pub proof fn lemma_new_dense()
    ensures
        dense(LogModel { seqno: 0, map: Map::empty() }),
{
    assert(Map::<int, MessageModel>::empty().dom() =~= Set::new(|u: int| 1 <= u <= 0));
}

/// Appends keep a log dense: inserting the next counter value as a key
/// extends the key set from one-through-N to one-through-N-plus-one.
pub proof fn lemma_append_preserves_density(pre: LogModel, m: MessageModel)
    requires
        dense(pre),
        pre.seqno >= 0,
        m.uid == pre.seqno + 1,
    ensures
        dense(LogModel { seqno: pre.seqno + 1, map: pre.map.insert(m.uid, m) }),
{
    assert(pre.map.insert(m.uid, m).dom() =~= Set::new(|u: int| 1 <= u <= pre.seqno + 1));
}

/// Sequence density across replay: a file of N records whose stored
/// identifiers are exactly one through N in order — what N appends to a
/// fresh log write — replays to a log whose keys are exactly one through N,
/// holding each record unchanged.
pub proof fn lemma_replay_dense(msgs: Seq<MessageModel>)
    requires
        forall|i: int| 0 <= i < msgs.len() ==> (#[trigger] msgs[i]).wf() && msgs[i].uid == i + 1,
    ensures
        replay(msgs.map_values(|m: MessageModel| line_of(m))) matches Some(log) && log.seqno
            == msgs.len() && dense(log) && (forall|i: int|
            0 <= i < msgs.len() ==> (#[trigger] log.map[i + 1]) == msgs[i]),
    decreases msgs.len(),
{
    let lines = msgs.map_values(|m: MessageModel| line_of(m));
    if msgs.len() == 0 {
        lemma_new_dense();
    } else {
        let head = msgs.drop_last();
        lemma_replay_dense(head);
        let pre = replay(head.map_values(|m: MessageModel| line_of(m))).unwrap();
        assert(lines.drop_last() =~= head.map_values(|m: MessageModel| line_of(m)));
        assert(lines.last() == line_of(msgs.last()));
        lemma_parse_of_line(msgs.last());
        lemma_append_preserves_density(pre, msgs.last());
        let log = replay(lines).unwrap();
        assert forall|i: int| 0 <= i < msgs.len() implies (#[trigger] log.map[i + 1]) == msgs[i]
        by {
            if i < msgs.len() - 1 {
                assert(pre.map[i + 1] == head[i]);
            }
        }
    }
}

/// Replay idempotence: reconstruction is a function of the file's lines —
/// two replays of one file yield the same counter and the same mapping, with
/// the same keys and the same message contents.
pub proof fn lemma_replay_deterministic(lines: Seq<Seq<char>>, a: LogModel, b: LogModel)
    requires
        replay(lines) == Some(a),
        replay(lines) == Some(b),
    ensures
        a == b,
{
}

} // verus!
