//! The offline consistency checker: after a run completes, it cross-references
//! the coordinator's log with each participant's and reports, per participant
//! and per invariant, whether the global commit/abort decisions were agreed
//! upon. Violations are itemized rather than aborting the audit: each
//! transaction the coordinator committed without exactly one matching local
//! vote is reported with the count found.

use vstd::prelude::*;
use crate::codec::dec_digits;
use crate::codec::push_dec;
use crate::message::MessageModel;
use crate::message::MessageType;
use crate::message::ProtocolMessage;
use crate::oplog::models_of;
use crate::oplog::OpLog;

verus! {

/// How many messages of `s` are of kind `k`.
pub open spec fn count_kind(s: Seq<MessageModel>, k: MessageType) -> nat
    decreases s.len(),
{
    if s.len() == 0 {
        0
    } else {
        count_kind(s.drop_last(), k) + if s.last().mtype == k {
            1nat
        } else {
            0nat
        }
    }
}

/// How many messages of `s` are of kind `k` and carry transaction id `txid`.
pub open spec fn count_kind_txid(s: Seq<MessageModel>, k: MessageType, txid: Seq<char>) -> nat
    decreases s.len(),
{
    if s.len() == 0 {
        0
    } else {
        count_kind_txid(s.drop_last(), k, txid) + if s.last().mtype == k && s.last().txid == txid {
            1nat
        } else {
            0nat
        }
    }
}

/// The messages of `s` of kind `k`, in order.
pub open spec fn filter_kind(s: Seq<MessageModel>, k: MessageType) -> Seq<MessageModel>
    decreases s.len(),
{
    if s.len() == 0 {
        Seq::empty()
    } else {
        filter_kind(s.drop_last(), k) + if s.last().mtype == k {
            seq![s.last()]
        } else {
            Seq::empty()
        }
    }
}

/// The partition is consistent with the count: the messages of kind `k` are
/// exactly `count_kind` many, and all of that kind.
pub proof fn lemma_filter_kind_count(s: Seq<MessageModel>, k: MessageType)
    ensures
        filter_kind(s, k).len() == count_kind(s, k),
        forall|i: int|
            0 <= i < filter_kind(s, k).len() ==> (#[trigger] filter_kind(s, k)[i]).mtype == k,
    decreases s.len(),
{
    if s.len() > 0 {
        lemma_filter_kind_count(s.drop_last(), k);
    }
}

/// The per-transaction vote failures: for each coordinator-committed message,
/// in order, the transaction id and the number of local pre-vote commits the
/// participant recorded for it, whenever that number is not exactly one.
pub open spec fn vote_violations(coord_committed: Seq<MessageModel>, plog: Seq<MessageModel>)
    -> Seq<(Seq<char>, nat)>
    decreases coord_committed.len(),
{
    if coord_committed.len() == 0 {
        Seq::empty()
    } else {
        let found = count_kind_txid(
            plog,
            MessageType::ParticipantVoteCommit,
            coord_committed.last().txid,
        );
        vote_violations(coord_committed.drop_last(), plog) + if found == 1 {
            Seq::empty()
        } else {
            seq![(coord_committed.last().txid, found)]
        }
    }
}

/// All four agreement invariants between a coordinator that committed
/// `num_commit` and aborted `num_abort` transactions (`coord_committed` being
/// the committed records) and a participant whose log is `plog`:
/// the participant acknowledged at most `num_commit` global commits, voted to
/// commit at least `num_commit` times, acknowledged at most `num_abort`
/// global aborts, and voted exactly once for every committed transaction.
pub open spec fn participant_ok(
    num_commit: int,
    num_abort: int,
    coord_committed: Seq<MessageModel>,
    plog: Seq<MessageModel>,
) -> bool {
    &&& count_kind(plog, MessageType::CoordinatorCommit) <= num_commit
    &&& count_kind(plog, MessageType::ParticipantVoteCommit) >= num_commit
    &&& count_kind(plog, MessageType::CoordinatorAbort) <= num_abort
    &&& forall|i: int|
        0 <= i < coord_committed.len() ==> count_kind_txid(
            plog,
            MessageType::ParticipantVoteCommit,
            (#[trigger] coord_committed[i]).txid,
        ) == 1
}

/// No itemized vote failure means every committed transaction got exactly
/// one local vote, and the other way round.
proof fn lemma_vote_violations_empty(coord_committed: Seq<MessageModel>, plog: Seq<MessageModel>)
    ensures
        vote_violations(coord_committed, plog).len() == 0 <==> forall|i: int|
            0 <= i < coord_committed.len() ==> count_kind_txid(
                plog,
                MessageType::ParticipantVoteCommit,
                (#[trigger] coord_committed[i]).txid,
            ) == 1,
    decreases coord_committed.len(),
{
    if coord_committed.len() > 0 {
        let head = coord_committed.drop_last();
        let k = MessageType::ParticipantVoteCommit;
        lemma_vote_violations_empty(head, plog);
        let found_last = count_kind_txid(plog, k, coord_committed.last().txid);
        if vote_violations(coord_committed, plog).len() == 0 {
            assert(vote_violations(head, plog).len() == 0);
            assert(found_last == 1);
            assert forall|i: int| 0 <= i < coord_committed.len() implies count_kind_txid(
                plog,
                k,
                (#[trigger] coord_committed[i]).txid,
            ) == 1 by {
                if i < coord_committed.len() - 1 {
                    assert(count_kind_txid(plog, k, head[i].txid) == 1);
                }
            }
        } else {
            if vote_violations(head, plog).len() > 0 {
                assert(exists|i: int|
                    0 <= i < head.len() && count_kind_txid(plog, k, (#[trigger] head[i]).txid)
                        != 1);
                let i = choose|i: int|
                    0 <= i < head.len() && count_kind_txid(plog, k, (#[trigger] head[i]).txid)
                        != 1;
                assert(coord_committed[i] == head[i]);
                assert(count_kind_txid(plog, k, coord_committed[i].txid) != 1);
            } else {
                assert(found_last != 1);
                let j = coord_committed.len() - 1;
                assert(count_kind_txid(plog, k, coord_committed[j].txid) != 1);
            }
        }
    }
}

/// One itemized vote failure: a transaction the coordinator committed for
/// which the participant's log holds `found_local` local pre-vote commits
/// instead of exactly one — zero means a missed vote, two or more a
/// duplicated or replayed one.
pub struct VoteViolation {
    pub txid: String,
    pub found_local: usize,
}

impl View for VoteViolation {
    type V = (Seq<char>, nat);

    open spec fn view(&self) -> (Seq<char>, nat) {
        (self.txid@, self.found_local as nat)
    }
}

/// The models of a sequence of vote failures.
pub open spec fn violation_models(s: Seq<VoteViolation>) -> Seq<(Seq<char>, nat)> {
    s.map_values(|v: VoteViolation| v@)
}

/// The outcome of checking one participant against the coordinator: the
/// label, the three counts observed in the participant's log, one flag per
/// counting invariant, and the itemized per-transaction vote failures.
pub struct ParticipantCheck {
    pub label: String,
    pub num_participant_commit: usize,
    pub num_participant_local_commit: usize,
    pub num_participant_abort: usize,
    pub commit_bound_ok: bool,
    pub local_vote_cover_ok: bool,
    pub abort_bound_ok: bool,
    pub vote_violations: Vec<VoteViolation>,
}

/// What a report must say of a participant labelled `label` with log `plog`,
/// checked against `num_commit`, `num_abort` and the coordinator's committed
/// records `coord_committed`.
pub open spec fn report_matches(
    rep: ParticipantCheck,
    label: Seq<char>,
    num_commit: int,
    num_abort: int,
    coord_committed: Seq<MessageModel>,
    plog: Seq<MessageModel>,
) -> bool {
    &&& rep.label@ == label
    &&& rep.num_participant_commit == count_kind(plog, MessageType::CoordinatorCommit)
    &&& rep.num_participant_local_commit == count_kind(plog, MessageType::ParticipantVoteCommit)
    &&& rep.num_participant_abort == count_kind(plog, MessageType::CoordinatorAbort)
    &&& rep.commit_bound_ok == (rep.num_participant_commit <= num_commit)
    &&& rep.local_vote_cover_ok == (rep.num_participant_local_commit >= num_commit)
    &&& rep.abort_bound_ok == (rep.num_participant_abort <= num_abort)
    &&& violation_models(rep.vote_violations@) == vote_violations(coord_committed, plog)
    &&& rep.passed() == participant_ok(num_commit, num_abort, coord_committed, plog)
}

impl ParticipantCheck {
    /// Every invariant held: both count bounds, the vote cover, and not one
    /// itemized vote failure.
    pub open spec fn passed(self) -> bool {
        &&& self.commit_bound_ok
        &&& self.local_vote_cover_ok
        &&& self.abort_bound_ok
        &&& self.vote_violations@.len() == 0
    }

    /// Whether every invariant held for this participant.
    pub fn is_passed(&self) -> (r: bool)
        ensures
            r == self.passed(),
    {
        self.commit_bound_ok && self.local_vote_cover_ok && self.abort_bound_ok
            && self.vote_violations.len() == 0
    }
}

/// How many entries of `entries` are of kind `k`.
fn count_kind_exec(entries: &Vec<ProtocolMessage>, k: MessageType) -> (r: usize)
    ensures
        r == count_kind(models_of(entries@), k),
{
    let ghost ms = models_of(entries@);
    let n = entries.len();
    let mut cnt: usize = 0;
    let mut i: usize = 0;
    while i < n
        invariant
            n == entries@.len(),
            i <= n,
            cnt <= i,
            ms == models_of(entries@),
            cnt == count_kind(ms.take(i as int), k),
        decreases n - i,
    {
        proof {
            assert(ms.take(i + 1 as int).drop_last() =~= ms.take(i as int));
            assert(ms.take(i + 1 as int).last() == ms[i as int]);
        }
        if entries[i].mtype == k {
            cnt = cnt + 1;
        }
        i = i + 1;
    }
    proof {
        assert(ms.take(n as int) =~= ms);
    }
    cnt
}

/// How many entries of `entries` are of kind `k` with transaction id `txid`.
fn count_kind_txid_exec(entries: &Vec<ProtocolMessage>, k: MessageType, txid: &String) -> (r:
    usize)
    ensures
        r == count_kind_txid(models_of(entries@), k, txid@),
{
    let ghost ms = models_of(entries@);
    let n = entries.len();
    let mut cnt: usize = 0;
    let mut i: usize = 0;
    while i < n
        invariant
            n == entries@.len(),
            i <= n,
            cnt <= i,
            ms == models_of(entries@),
            cnt == count_kind_txid(ms.take(i as int), k, txid@),
        decreases n - i,
    {
        proof {
            assert(ms.take(i + 1 as int).drop_last() =~= ms.take(i as int));
            assert(ms.take(i + 1 as int).last() == ms[i as int]);
        }
        if entries[i].mtype == k && entries[i].txid == *txid {
            cnt = cnt + 1;
        }
        i = i + 1;
    }
    proof {
        assert(ms.take(n as int) =~= ms);
    }
    cnt
}

/// The entries of `entries` of kind `k`, in order.
fn filter_kind_exec(entries: &Vec<ProtocolMessage>, k: MessageType) -> (r: Vec<ProtocolMessage>)
    ensures
        models_of(r@) == filter_kind(models_of(entries@), k),
{
    let ghost ms = models_of(entries@);
    let n = entries.len();
    let mut out: Vec<ProtocolMessage> = Vec::new();
    let mut i: usize = 0;
    proof {
        assert(models_of(out@) =~= Seq::<MessageModel>::empty());
        assert(ms.take(0) =~= Seq::<MessageModel>::empty());
    }
    while i < n
        invariant
            n == entries@.len(),
            i <= n,
            ms == models_of(entries@),
            models_of(out@) == filter_kind(ms.take(i as int), k),
        decreases n - i,
    {
        proof {
            assert(ms.take(i + 1 as int).drop_last() =~= ms.take(i as int));
            assert(ms.take(i + 1 as int).last() == ms[i as int]);
        }
        let ghost pre = models_of(out@);
        if entries[i].mtype == k {
            out.push(entries[i].duplicate());
            proof {
                assert(models_of(out@) =~= pre.push(ms[i as int]));
                assert(pre.push(ms[i as int]) =~= pre + seq![ms[i as int]]);
            }
        }
        i = i + 1;
    }
    proof {
        assert(ms.take(n as int) =~= ms);
    }
    out
}

/// Checks one participant's log against the coordinator's committed and
/// aborted counts and its committed records, as `report_matches` states:
/// counts the global-commit acknowledgments, local pre-vote commits and
/// global-abort acknowledgments the participant recorded, compares them
/// against the coordinator's, and itemizes every committed transaction whose
/// local vote count is not exactly one.
pub fn check_participant(
    participant: &String,
    num_commit: usize,
    num_abort: usize,
    coord_committed: &Vec<ProtocolMessage>,
    participant_log: &Vec<ProtocolMessage>,
) -> (r: ParticipantCheck)
    ensures
        report_matches(
            r,
            participant@,
            num_commit as int,
            num_abort as int,
            models_of(coord_committed@),
            models_of(participant_log@),
        ),
{
    let ghost cs = models_of(coord_committed@);
    let ghost ps = models_of(participant_log@);
    let num_participant_commit = count_kind_exec(participant_log, MessageType::CoordinatorCommit);
    let num_participant_local_commit = count_kind_exec(
        participant_log,
        MessageType::ParticipantVoteCommit,
    );
    let num_participant_abort = count_kind_exec(participant_log, MessageType::CoordinatorAbort);
    let n = coord_committed.len();
    let mut violations: Vec<VoteViolation> = Vec::new();
    let mut i: usize = 0;
    proof {
        assert(violation_models(violations@) =~= Seq::<(Seq<char>, nat)>::empty());
        assert(cs.take(0) =~= Seq::<MessageModel>::empty());
    }
    while i < n
        invariant
            n == coord_committed@.len(),
            i <= n,
            cs == models_of(coord_committed@),
            ps == models_of(participant_log@),
            violation_models(violations@) == vote_violations(cs.take(i as int), ps),
        decreases n - i,
    {
        proof {
            assert(cs.take(i + 1 as int).drop_last() =~= cs.take(i as int));
            assert(cs.take(i + 1 as int).last() == cs[i as int]);
        }
        let found = count_kind_txid_exec(
            participant_log,
            MessageType::ParticipantVoteCommit,
            &coord_committed[i].txid,
        );
        let ghost pre = violation_models(violations@);
        if found != 1 {
            violations.push(
                VoteViolation { txid: coord_committed[i].txid.clone(), found_local: found },
            );
            proof {
                assert(violation_models(violations@) =~= pre.push((cs[i as int].txid, found as nat)));
                assert(pre.push((cs[i as int].txid, found as nat)) =~= pre + seq![
                    (cs[i as int].txid, found as nat),
                ]);
            }
        }
        i = i + 1;
    }
    proof {
        assert(cs.take(n as int) =~= cs);
        lemma_vote_violations_empty(cs, ps);
    }
    ParticipantCheck {
        label: participant.clone(),
        num_participant_commit,
        num_participant_local_commit,
        num_participant_abort,
        commit_bound_ok: num_participant_commit <= num_commit,
        local_vote_cover_ok: num_participant_local_commit >= num_commit,
        abort_bound_ok: num_participant_abort <= num_abort,
        vote_violations: violations,
    }
}

/// The conventional label of the participant with the given index.
pub open spec fn label_of(i: int) -> Seq<char> {
    "participant_"@ + dec_digits(i)
}

/// Builds the conventional label of participant `i`.
pub fn participant_label(i: u32) -> (r: String)
    ensures
        r@ == label_of(i as int),
{
    let mut s = String::from_str("participant_");
    push_dec(&mut s, i as u64);
    s
}

/// The outcome of auditing one full run: the run's parameters as given, the
/// number of transactions the coordinator committed and aborted, and one
/// report per participant, in participant order.
pub struct RunCheck {
    pub num_clients: u32,
    pub num_requests: u32,
    pub num_participants: u32,
    pub num_commit: usize,
    pub num_abort: usize,
    pub reports: Vec<ParticipantCheck>,
}

impl RunCheck {
    /// Every participant's every invariant held.
    pub open spec fn all_ok(self) -> bool {
        forall|i: int| 0 <= i < self.reports@.len() ==> (#[trigger] self.reports@[i]).passed()
    }

    /// Whether every participant passed every invariant.
    pub fn all_passed(&self) -> (r: bool)
        ensures
            r == self.all_ok(),
    {
        let n = self.reports.len();
        let mut i: usize = 0;
        while i < n
            invariant
                n == self.reports@.len(),
                i <= n,
                forall|j: int| 0 <= j < i ==> (#[trigger] self.reports@[j]).passed(),
            decreases n - i,
        {
            if !self.reports[i].is_passed() {
                return false;
            }
            i = i + 1;
        }
        true
    }
}

/// Audits one completed run from the reconstructed logs: partitions the
/// coordinator's log into committed and aborted decisions, counts each, and
/// checks every participant's log against them, one report per participant
/// labelled `participant_<index>`. The checker never mutates a log; it
/// correlates records across logs purely by transaction id.
pub fn check_last_run(
    num_clients: u32,
    num_requests: u32,
    num_participants: u32,
    coord_log: &OpLog,
    participant_logs: &Vec<OpLog>,
) -> (r: RunCheck)
    requires
        participant_logs@.len() == num_participants as int,
    ensures
        r.num_clients == num_clients,
        r.num_requests == num_requests,
        r.num_participants == num_participants,
        r.num_commit == count_kind(coord_log.entry_models(), MessageType::CoordinatorCommit),
        r.num_abort == count_kind(coord_log.entry_models(), MessageType::CoordinatorAbort),
        r.reports@.len() == num_participants as int,
        forall|i: int|
            0 <= i < num_participants as int ==> report_matches(
                #[trigger] r.reports@[i],
                label_of(i),
                count_kind(coord_log.entry_models(), MessageType::CoordinatorCommit) as int,
                count_kind(coord_log.entry_models(), MessageType::CoordinatorAbort) as int,
                filter_kind(coord_log.entry_models(), MessageType::CoordinatorCommit),
                participant_logs@[i].entry_models(),
            ),
{
    let coord_entries = coord_log.entries();
    let committed = filter_kind_exec(coord_entries, MessageType::CoordinatorCommit);
    let num_commit = count_kind_exec(coord_entries, MessageType::CoordinatorCommit);
    let num_abort = count_kind_exec(coord_entries, MessageType::CoordinatorAbort);
    let n = participant_logs.len();
    let mut reports: Vec<ParticipantCheck> = Vec::new();
    let mut i: usize = 0;
    while i < n
        invariant
            n == participant_logs@.len(),
            n == num_participants as int,
            i <= n,
            reports@.len() == i as int,
            models_of(committed@) == filter_kind(
                coord_log.entry_models(),
                MessageType::CoordinatorCommit,
            ),
            num_commit == count_kind(coord_log.entry_models(), MessageType::CoordinatorCommit),
            num_abort == count_kind(coord_log.entry_models(), MessageType::CoordinatorAbort),
            forall|j: int|
                0 <= j < i as int ==> report_matches(
                    #[trigger] reports@[j],
                    label_of(j),
                    num_commit as int,
                    num_abort as int,
                    models_of(committed@),
                    participant_logs@[j].entry_models(),
                ),
        decreases n - i,
    {
        let label = participant_label(i as u32);
        let rep = check_participant(
            &label,
            num_commit,
            num_abort,
            &committed,
            participant_logs[i].entries(),
        );
        reports.push(rep);
        i = i + 1;
    }
    RunCheck { num_clients, num_requests, num_participants, num_commit, num_abort, reports }
}

} // verus!
