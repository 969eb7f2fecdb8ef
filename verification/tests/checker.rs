//! Scenario tests for the consistency checker: agreement pass, missing vote,
//! duplicate vote, and the empty-run boundary.

use tpc_audit::checker::check_last_run;
use tpc_audit::checker::check_participant;
use tpc_audit::checker::participant_label;
use tpc_audit::message::MessageType;
use tpc_audit::message::ProtocolMessage;
use tpc_audit::message::RequestStatus;
use tpc_audit::oplog::OpLog;

fn s(text: &str) -> String {
    String::from(text)
}

fn msg(k: MessageType, uid: u32, txid: &str, sid: &str, opid: u32) -> ProtocolMessage {
    ProtocolMessage::instantiate(k, uid, s(txid), s(sid), opid)
}

#[test]
fn agreement_pass_case() {
    // Coordinator committed T1 and aborted T2; the participant voted once for
    // T1, saw the global commit for T1 and the global abort for T2.
    let coord_committed = vec![msg(MessageType::CoordinatorCommit, 1, "T1", "coordinator", 1)];
    let plog = vec![
        msg(MessageType::ParticipantVoteCommit, 1, "T1", "participant_0", 1),
        msg(MessageType::CoordinatorCommit, 2, "T1", "participant_0", 1),
        msg(MessageType::CoordinatorAbort, 3, "T2", "participant_0", 2),
    ];
    let label = s("participant_0");
    let rep = check_participant(&label, 1, 1, &coord_committed, &plog);
    assert_eq!(rep.label, label);
    assert_eq!(rep.num_participant_commit, 1);
    assert_eq!(rep.num_participant_local_commit, 1);
    assert_eq!(rep.num_participant_abort, 1);
    assert!(rep.commit_bound_ok);
    assert!(rep.local_vote_cover_ok);
    assert!(rep.abort_bound_ok);
    assert_eq!(rep.vote_violations.len(), 0);
    assert!(rep.is_passed());
}

#[test]
fn agreement_missing_vote_is_detected() {
    // Coordinator committed T3, but the participant never voted for it.
    let coord_committed = vec![msg(MessageType::CoordinatorCommit, 1, "T3", "coordinator", 1)];
    let plog = vec![msg(MessageType::CoordinatorCommit, 1, "T3", "participant_0", 1)];
    let label = s("participant_0");
    let rep = check_participant(&label, 1, 0, &coord_committed, &plog);
    assert_eq!(rep.vote_violations.len(), 1);
    assert_eq!(rep.vote_violations[0].txid, s("T3"));
    assert_eq!(rep.vote_violations[0].found_local, 0);
    assert!(!rep.local_vote_cover_ok);
    assert!(!rep.is_passed());
}

#[test]
fn agreement_duplicate_vote_is_detected() {
    // The participant voted twice for a transaction the coordinator committed
    // once: exactly-one is violated with a found count of two.
    let coord_committed = vec![msg(MessageType::CoordinatorCommit, 1, "T1", "coordinator", 1)];
    let plog = vec![
        msg(MessageType::ParticipantVoteCommit, 1, "T1", "participant_0", 1),
        msg(MessageType::ParticipantVoteCommit, 2, "T1", "participant_0", 1),
        msg(MessageType::CoordinatorCommit, 3, "T1", "participant_0", 1),
    ];
    let label = s("participant_0");
    let rep = check_participant(&label, 1, 0, &coord_committed, &plog);
    assert_eq!(rep.vote_violations.len(), 1);
    assert_eq!(rep.vote_violations[0].txid, s("T1"));
    assert_eq!(rep.vote_violations[0].found_local, 2);
    assert!(rep.local_vote_cover_ok);
    assert!(!rep.is_passed());
}

#[test]
fn empty_logs_pass_trivially() {
    let coord_committed: Vec<ProtocolMessage> = Vec::new();
    let plog: Vec<ProtocolMessage> = Vec::new();
    let label = s("participant_0");
    let rep = check_participant(&label, 0, 0, &coord_committed, &plog);
    assert_eq!(rep.num_participant_commit, 0);
    assert_eq!(rep.num_participant_local_commit, 0);
    assert_eq!(rep.num_participant_abort, 0);
    assert!(rep.commit_bound_ok);
    assert!(rep.local_vote_cover_ok);
    assert!(rep.abort_bound_ok);
    assert_eq!(rep.vote_violations.len(), 0);
    assert!(rep.is_passed());
}

#[test]
fn full_run_check_passes_on_agreeing_logs() {
    let mut coord = OpLog::new();
    coord.append(MessageType::ClientRequest, s("T1"), s("client_0"), 1);
    coord.append(MessageType::CoordinatorCommit, s("T1"), s("coordinator"), 1);
    coord.append(MessageType::CoordinatorAbort, s("T2"), s("coordinator"), 2);

    let mut p0 = OpLog::new();
    p0.append(MessageType::ParticipantVoteCommit, s("T1"), s("participant_0"), 1);
    p0.append(MessageType::CoordinatorCommit, s("T1"), s("participant_0"), 1);
    p0.append(MessageType::CoordinatorAbort, s("T2"), s("participant_0"), 2);

    let mut p1 = OpLog::new();
    p1.append(MessageType::ParticipantVoteCommit, s("T1"), s("participant_1"), 1);
    p1.append(MessageType::ParticipantVoteAbort, s("T2"), s("participant_1"), 2);
    p1.append(MessageType::CoordinatorAbort, s("T2"), s("participant_1"), 2);

    let participants = vec![p0, p1];
    let run = check_last_run(1, 2, 2, &coord, &participants);
    assert_eq!(run.num_clients, 1);
    assert_eq!(run.num_requests, 2);
    assert_eq!(run.num_participants, 2);
    assert_eq!(run.num_commit, 1);
    assert_eq!(run.num_abort, 1);
    assert_eq!(run.reports.len(), 2);
    assert_eq!(run.reports[0].label, s("participant_0"));
    assert_eq!(run.reports[1].label, s("participant_1"));
    assert_eq!(run.reports[0].num_participant_commit, 1);
    assert_eq!(run.reports[1].num_participant_commit, 0);
    assert!(run.all_passed());
}

#[test]
fn full_run_check_reports_the_offending_participant() {
    let mut coord = OpLog::new();
    coord.append(MessageType::CoordinatorCommit, s("T1"), s("coordinator"), 1);

    // participant_0 agrees; participant_1 is missing its vote for T1.
    let mut p0 = OpLog::new();
    p0.append(MessageType::ParticipantVoteCommit, s("T1"), s("participant_0"), 1);
    let mut p1 = OpLog::new();
    p1.append(MessageType::ParticipantVoteAbort, s("T1"), s("participant_1"), 1);

    let participants = vec![p0, p1];
    let run = check_last_run(1, 1, 2, &coord, &participants);
    assert!(run.reports[0].is_passed());
    assert!(!run.reports[1].is_passed());
    assert_eq!(run.reports[1].vote_violations.len(), 1);
    assert_eq!(run.reports[1].vote_violations[0].txid, s("T1"));
    assert_eq!(run.reports[1].vote_violations[0].found_local, 0);
    assert!(!run.all_passed());
}

#[test]
fn empty_run_check_passes_for_every_participant() {
    let coord = OpLog::new();
    let participants = vec![OpLog::new(), OpLog::new(), OpLog::new()];
    let run = check_last_run(3, 15, 3, &coord, &participants);
    assert_eq!(run.num_commit, 0);
    assert_eq!(run.num_abort, 0);
    assert_eq!(run.reports.len(), 3);
    assert!(run.all_passed());
}

#[test]
fn participant_labels_follow_the_naming_convention() {
    assert_eq!(participant_label(0), s("participant_0"));
    assert_eq!(participant_label(7), s("participant_7"));
    assert_eq!(participant_label(12), s("participant_12"));
}

#[test]
fn request_status_values_are_distinct() {
    assert_ne!(RequestStatus::Committed, RequestStatus::Aborted);
    assert_ne!(RequestStatus::Committed, RequestStatus::Unknown);
    assert_ne!(RequestStatus::Aborted, RequestStatus::Unknown);
}
