//! Tests for message creation, the line codec, and the operation log:
//! durability, sequence density, and replay idempotence on concrete logs.

use tpc_audit::message::MessageCounter;
use tpc_audit::message::MessageType;
use tpc_audit::message::ProtocolMessage;
use tpc_audit::oplog::OpLog;

fn s(text: &str) -> String {
    String::from(text)
}

#[test]
fn generate_assigns_sequential_ids() {
    let mut counter = MessageCounter::new();
    let a = ProtocolMessage::generate(
        &mut counter,
        MessageType::ClientRequest,
        s("client_0_tx_1"),
        s("client_0"),
        1,
    );
    let b = ProtocolMessage::generate(
        &mut counter,
        MessageType::CoordinatorPropose,
        s("client_0_tx_1"),
        s("coordinator"),
        1,
    );
    let c = ProtocolMessage::generate(
        &mut counter,
        MessageType::ParticipantVoteCommit,
        s("client_0_tx_1"),
        s("participant_0"),
        1,
    );
    assert_eq!(a.uid, 1);
    assert_eq!(b.uid, 2);
    assert_eq!(c.uid, 3);
    assert_eq!(a.mtype, MessageType::ClientRequest);
    assert_eq!(a.txid, s("client_0_tx_1"));
    assert_eq!(a.senderid, s("client_0"));
    assert_eq!(a.opid, 1);
}

#[test]
fn generated_ids_all_distinct() {
    let mut counter = MessageCounter::new();
    let mut uids: Vec<u32> = Vec::new();
    for k in 0..100u32 {
        let m = ProtocolMessage::generate(
            &mut counter,
            MessageType::ClientRequest,
            format!("client_0_tx_{}", k),
            s("client_0"),
            k,
        );
        uids.push(m.uid);
    }
    for i in 0..uids.len() {
        for j in 0..uids.len() {
            if i != j {
                assert_ne!(uids[i], uids[j]);
            }
        }
    }
}

#[test]
fn instantiate_preserves_explicit_id() {
    let m = ProtocolMessage::instantiate(
        MessageType::CoordinatorCommit,
        42,
        s("client_1_tx_7"),
        s("coordinator"),
        7,
    );
    assert_eq!(m.uid, 42);
    assert_eq!(m.mtype, MessageType::CoordinatorCommit);
    assert_eq!(m.txid, s("client_1_tx_7"));
    assert_eq!(m.senderid, s("coordinator"));
    assert_eq!(m.opid, 7);
}

#[test]
fn line_format_is_exact() {
    let m = ProtocolMessage::instantiate(MessageType::ClientRequest, 1, s("t1"), s("c0"), 7);
    assert_eq!(m.to_line(), s("0 1 7 2 2 t1c0"));
    let m2 = ProtocolMessage::instantiate(MessageType::CoordinatorExit, 10, s(""), s(""), 0);
    assert_eq!(m2.to_line(), s("8 10 0 0 0 "));
}

#[test]
fn line_round_trips() {
    let m = ProtocolMessage::instantiate(
        MessageType::ParticipantVoteAbort,
        9,
        s("client_2_tx_3"),
        s("participant_1"),
        3,
    );
    let line = m.to_line();
    let back = ProtocolMessage::from_string(&line).unwrap();
    assert_eq!(back.mtype, m.mtype);
    assert_eq!(back.uid, m.uid);
    assert_eq!(back.txid, m.txid);
    assert_eq!(back.senderid, m.senderid);
    assert_eq!(back.opid, m.opid);
}

#[test]
fn line_round_trips_with_awkward_payload() {
    let m = ProtocolMessage::instantiate(
        MessageType::ClientResultAbort,
        77,
        s("tx with spaces 1"),
        s("sender 2"),
        12,
    );
    let back = ProtocolMessage::from_string(&m.to_line()).unwrap();
    assert_eq!(back.txid, s("tx with spaces 1"));
    assert_eq!(back.senderid, s("sender 2"));
}

#[test]
fn parse_accepts_exact_record() {
    let m = ProtocolMessage::from_string(&s("5 2 1 2 11 T1coordinator")).unwrap();
    assert_eq!(m.mtype, MessageType::CoordinatorCommit);
    assert_eq!(m.uid, 2);
    assert_eq!(m.opid, 1);
    assert_eq!(m.txid, s("T1"));
    assert_eq!(m.senderid, s("coordinator"));
}

#[test]
fn parse_rejects_malformed_lines() {
    assert!(ProtocolMessage::from_string(&s("")).is_none());
    assert!(ProtocolMessage::from_string(&s("hello")).is_none());
    assert!(ProtocolMessage::from_string(&s("0 1 2 0 0")).is_none());
    assert!(ProtocolMessage::from_string(&s("9 1 2 0 0 ")).is_none());
    assert!(ProtocolMessage::from_string(&s("00 1 2 0 0 ")).is_none());
    assert!(ProtocolMessage::from_string(&s("0 01 2 0 0 ")).is_none());
    assert!(ProtocolMessage::from_string(&s("0 4294967296 2 0 0 ")).is_none());
    assert!(ProtocolMessage::from_string(&s("0 1 2 3 0 ab")).is_none());
    assert!(ProtocolMessage::from_string(&s("0 1 2 1 1 abc")).is_none());
    assert!(ProtocolMessage::from_string(&s("0 1 2 0 0 extra")).is_none());
    assert!(ProtocolMessage::from_string(&s("-1 1 2 0 0 ")).is_none());
    assert!(ProtocolMessage::from_string(&s("0  1 2 0 0 ")).is_none());
}

#[test]
fn parse_boundary_values() {
    let m = ProtocolMessage::from_string(&s("0 4294967295 4294967295 0 0 ")).unwrap();
    assert_eq!(m.uid, u32::MAX);
    assert_eq!(m.opid, u32::MAX);
    let m0 = ProtocolMessage::from_string(&s("0 0 0 0 0 ")).unwrap();
    assert_eq!(m0.uid, 0);
}

#[test]
fn append_assigns_dense_keys_and_returns_parseable_lines() {
    let mut log = OpLog::new();
    let l1 = log.append(MessageType::ClientRequest, s("t1"), s("c0"), 1);
    let l2 = log.append(MessageType::CoordinatorCommit, s("t1"), s("coordinator"), 1);
    let l3 = log.append(MessageType::CoordinatorAbort, s("t2"), s("coordinator"), 2);
    let m1 = log.read(&1);
    let m2 = log.read(&2);
    let m3 = log.read(&3);
    assert_eq!(m1.uid, 1);
    assert_eq!(m2.uid, 2);
    assert_eq!(m3.uid, 3);
    assert_eq!(m1.txid, s("t1"));
    assert_eq!(m3.mtype, MessageType::CoordinatorAbort);
    assert_eq!(ProtocolMessage::from_string(&l1).unwrap().uid, 1);
    assert_eq!(ProtocolMessage::from_string(&l2).unwrap().uid, 2);
    assert_eq!(ProtocolMessage::from_string(&l3).unwrap().uid, 3);
}

#[test]
fn append_then_replay_preserves_every_field() {
    let mut log = OpLog::new();
    let mut lines: Vec<String> = Vec::new();
    lines.push(log.append(MessageType::ClientRequest, s("client_0_tx_1"), s("client_0"), 1));
    lines.push(log.append(
        MessageType::ParticipantVoteCommit,
        s("client_0_tx_1"),
        s("participant_0"),
        1,
    ));
    let replayed = OpLog::from_lines(&lines).unwrap();
    let m = replayed.read(&2);
    assert_eq!(m.mtype, MessageType::ParticipantVoteCommit);
    assert_eq!(m.txid, s("client_0_tx_1"));
    assert_eq!(m.senderid, s("participant_0"));
    assert_eq!(m.opid, 1);
    assert_eq!(m.uid, 2);
}

#[test]
fn replay_of_n_appends_is_dense() {
    let mut log = OpLog::new();
    let mut lines: Vec<String> = Vec::new();
    for k in 0..5u32 {
        lines.push(log.append(MessageType::ClientRequest, format!("t{}", k), s("c"), k));
    }
    let replayed = OpLog::from_lines(&lines).unwrap();
    assert_eq!(replayed.entries().len(), 5);
    for key in 1..=5u32 {
        let m = replayed.read(&key);
        assert_eq!(m.uid, key);
    }
}

#[test]
fn replay_twice_yields_identical_logs() {
    let mut log = OpLog::new();
    let mut lines: Vec<String> = Vec::new();
    lines.push(log.append(MessageType::ClientRequest, s("t1"), s("c0"), 1));
    lines.push(log.append(MessageType::CoordinatorCommit, s("t1"), s("coordinator"), 1));
    let a = OpLog::from_lines(&lines).unwrap();
    let b = OpLog::from_lines(&lines).unwrap();
    assert_eq!(a.entries().len(), b.entries().len());
    for i in 0..a.entries().len() {
        assert_eq!(a.entries()[i].to_line(), b.entries()[i].to_line());
    }
}

#[test]
fn replay_stops_at_first_bad_line() {
    let lines = vec![s("0 1 1 0 0 "), s("not a record"), s("0 2 1 0 0 ")];
    assert!(matches!(OpLog::from_lines(&lines), Err(1)));
}

#[test]
fn replay_keeps_last_record_per_id() {
    let lines = vec![s("0 7 1 1 1 ac"), s("5 7 2 1 1 bd")];
    let log = OpLog::from_lines(&lines).unwrap();
    assert_eq!(log.entries().len(), 1);
    let m = log.read(&7);
    assert_eq!(m.mtype, MessageType::CoordinatorCommit);
    assert_eq!(m.txid, s("b"));
}

#[test]
fn replay_primes_counter_to_max_id() {
    let lines = vec![s("0 5 1 1 1 ac"), s("0 2 1 1 1 bd")];
    let mut log = OpLog::from_lines(&lines).unwrap();
    let line = log.append(MessageType::CoordinatorExit, s(""), s("coordinator"), 0);
    assert_eq!(ProtocolMessage::from_string(&line).unwrap().uid, 6);
}

#[test]
fn replay_of_empty_file_is_empty() {
    let lines: Vec<String> = Vec::new();
    let log = OpLog::from_lines(&lines).unwrap();
    assert_eq!(log.entries().len(), 0);
}

#[test]
fn duplicate_copies_every_field() {
    let m = ProtocolMessage::instantiate(MessageType::ClientResultCommit, 3, s("t"), s("c"), 9);
    let d = m.duplicate();
    assert_eq!(d.mtype, m.mtype);
    assert_eq!(d.uid, m.uid);
    assert_eq!(d.txid, m.txid);
    assert_eq!(d.senderid, m.senderid);
    assert_eq!(d.opid, m.opid);
}
