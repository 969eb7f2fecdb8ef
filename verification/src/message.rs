//! Protocol messages exchanged during a two-phase-commit run, together with
//! the per-process counter that hands out their locally unique identifiers.

use vstd::prelude::*;

verus! {

/// Message type codes that the two-phase-commit parties send or receive.
#[derive(Clone, Copy, Debug, PartialEq, Eq, Structural)]
pub enum MessageType {
    /// Client requests a transaction from the coordinator.
    ClientRequest,
    /// Coordinator sends proposed work to participants.
    CoordinatorPropose,
    /// Participant votes to commit in phase one.
    ParticipantVoteCommit,
    /// Participant votes to abort in phase one.
    ParticipantVoteAbort,
    /// Coordinator aborts in phase two.
    CoordinatorAbort,
    /// Coordinator commits in phase two.
    CoordinatorCommit,
    /// Successful result communicated to the client.
    ClientResultCommit,
    /// Aborted result communicated to the client.
    ClientResultAbort,
    /// Coordinator tells clients and participants about shut down.
    CoordinatorExit,
}

/// Status of a request as seen by a client.
#[derive(Clone, Copy, Debug, PartialEq, Eq, Structural)]
pub enum RequestStatus {
    /// Request succeeded.
    Committed,
    /// Request was explicitly aborted.
    Aborted,
    /// Request status unknown (typically timed out).
    Unknown,
}

/// Mathematical model of a protocol message: the same fields with the
/// strings abstracted to character sequences and the integers widened.
pub ghost struct MessageModel {
    pub mtype: MessageType,
    pub uid: int,
    pub txid: Seq<char>,
    pub senderid: Seq<char>,
    pub opid: int,
}

impl MessageModel {
    /// The integer fields fit the widths a message carries at run time.
    pub open spec fn wf(self) -> bool {
        &&& 0 <= self.uid <= u32::MAX
        &&& 0 <= self.opid <= u32::MAX
        &&& self.txid.len() <= usize::MAX
        &&& self.senderid.len() <= usize::MAX
    }
}

/// One protocol event: what happened (`mtype`), in which transaction
/// (`txid`), who recorded it (`senderid`), the operation's sequence number
/// within its transaction (`opid`), and an identifier unique within the
/// process that created the message (`uid`).
pub struct ProtocolMessage {
    pub mtype: MessageType,
    pub uid: u32,
    pub txid: String,
    pub senderid: String,
    pub opid: u32,
}

impl View for ProtocolMessage {
    type V = MessageModel;

    open spec fn view(&self) -> MessageModel {
        MessageModel {
            mtype: self.mtype,
            uid: self.uid as int,
            txid: self.txid@,
            senderid: self.senderid@,
            opid: self.opid as int,
        }
    }
}

impl ProtocolMessage {
    /// Builds a message with an explicit identifier, bypassing any counter;
    /// used when replaying persisted records, whose identifiers must be
    /// preserved rather than regenerated.
    pub fn instantiate(t: MessageType, u: u32, tid: String, sid: String, oid: u32) -> (r:
        ProtocolMessage)
        ensures
            r@ == (MessageModel { mtype: t, uid: u as int, txid: tid@, senderid: sid@, opid: oid as int }),
    {
        ProtocolMessage { mtype: t, uid: u, txid: tid, senderid: sid, opid: oid }
    }

    /// Returns a copy whose model is identical to this message's.
    pub fn duplicate(&self) -> (r: ProtocolMessage)
        ensures
            r@ == self@,
    {
        ProtocolMessage {
            mtype: self.mtype,
            uid: self.uid,
            txid: self.txid.clone(),
            senderid: self.senderid.clone(),
            opid: self.opid,
        }
    }
}

/// Hands out the process-local message identifiers: explicit state owned by
/// whoever creates messages, starting at one and strictly increasing, so no
/// two messages generated through one counter ever share an identifier.
pub struct MessageCounter {
    pub next_uid: u32,
}

impl MessageCounter {
    /// A fresh counter; the first generated message receives identifier one.
    pub fn new() -> (r: MessageCounter)
        ensures
            r.next_uid == 1,
    {
        MessageCounter { next_uid: 1 }
    }
}

impl ProtocolMessage {
    /// Creates a new message whose identifier is the counter's current value,
    /// and advances the counter, so successive calls yield identifiers
    /// `c, c + 1, c + 2, ...` — pairwise distinct.
    pub fn generate(counter: &mut MessageCounter, t: MessageType, tid: String, sid: String, oid:
        u32) -> (r: ProtocolMessage)
        requires
            old(counter).next_uid < u32::MAX,
        ensures
            r@ == (MessageModel {
                mtype: t,
                uid: old(counter).next_uid as int,
                txid: tid@,
                senderid: sid@,
                opid: oid as int,
            }),
            final(counter).next_uid == old(counter).next_uid + 1,
    {
        let u = counter.next_uid;
        counter.next_uid = counter.next_uid + 1;
        ProtocolMessage { mtype: t, uid: u, txid: tid, senderid: sid, opid: oid }
    }
}

/// The identifiers a counter at value `start` hands out over `k` creations.
pub open spec fn uids_from(start: int, k: nat) -> Seq<int> {
    Seq::new(k, |i: int| start + i)
}

/// Counter monotonicity: the identifiers assigned by `k` successive
/// creations through one counter are pairwise distinct, whatever order the
/// creating threads were scheduled in — each creation takes the counter's
/// value and advances it, so no value is handed out twice.
pub proof fn lemma_generated_uids_distinct(start: int, k: nat)
    ensures
        forall|i: int, j: int|
            0 <= i < k && 0 <= j < k && i != j ==> uids_from(start, k)[i] != uids_from(start, k)[j],
{
}

} // verus!
