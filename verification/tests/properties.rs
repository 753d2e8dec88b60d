use meta_raft_store::cmd::{
    AppError, AppliedState, Change, Cmd, Entry, EntryPayload, LogEntry, MatchSeq, Membership,
    Operation, Txid,
};
use meta_raft_store::snapshot::SerializableSnapshot;
use meta_raft_store::state_machine::{StateMachine, StateMachineSubscriber};
use meta_raft_store::types::{Endpoint, KVMeta, LogId, Node, SeqV};
use std::sync::{Arc, Mutex};

fn fresh() -> StateMachine {
    StateMachine::open(&SerializableSnapshot::default()).unwrap()
}

fn normal(index: u64, txid: Option<(&str, u64)>, cmd: Cmd) -> Entry {
    Entry {
        log_id: LogId { term: 1, index },
        payload: EntryPayload::Normal(LogEntry {
            txid: txid.map(|(client, serial)| Txid { client: client.to_string(), serial }),
            cmd,
        }),
    }
}

fn put(key: &str, value: &str) -> Cmd {
    Cmd::UpsertKV {
        key: key.to_string(),
        seq: MatchSeq::Any,
        value: Operation::Update(value.as_bytes().to_vec()),
        value_meta: None,
    }
}

fn upsert(key: &str, seq: MatchSeq, value: Operation<Vec<u8>>, meta: Option<KVMeta>) -> Cmd {
    Cmd::UpsertKV { key: key.to_string(), seq, value, value_meta: meta }
}

fn rec(seq: u64, data: &str) -> SeqV<Vec<u8>> {
    SeqV { seq, meta: None, data: data.as_bytes().to_vec() }
}

fn written_seq(r: &AppliedState) -> u64 {
    match r {
        AppliedState::KV(Change { result: Some(v), .. }) => v.seq,
        other => panic!("no record written: {:?}", other),
    }
}

/// A machine whose counter of sequence numbers stands at `value`.
fn with_counter(value: u64) -> StateMachine {
    let mut key = vec![1u8];
    key.extend_from_slice(b"generic-kv");
    let stored = SerializableSnapshot { kvs: vec![vec![key, value.to_be_bytes().to_vec()]] };
    StateMachine::open(&stored).unwrap()
}

#[test]
fn last_applied_follows_every_kind_of_entry() {
    let mut sm = fresh();
    assert_eq!(sm.get_last_applied(), None);
    let blank = Entry { log_id: LogId { term: 1, index: 1 }, payload: EntryPayload::Blank };
    assert_eq!(sm.apply_at(&blank, 0), AppliedState::Empty);
    assert_eq!(sm.get_last_applied(), Some(LogId { term: 1, index: 1 }));
    sm.apply_at(&normal(2, None, put("a", "1")), 0);
    assert_eq!(sm.get_last_applied(), Some(LogId { term: 1, index: 2 }));
    let membership = Entry {
        log_id: LogId { term: 2, index: 3 },
        payload: EntryPayload::Membership(Membership { configs: vec![vec![1, 2, 3]] }),
    };
    assert_eq!(sm.apply_at(&membership, 0), AppliedState::Empty);
    assert_eq!(sm.get_last_applied(), Some(LogId { term: 2, index: 3 }));
    let m = sm.get_membership().unwrap();
    assert_eq!(m.log_id, LogId { term: 2, index: 3 });
    assert_eq!(m.membership, Membership { configs: vec![vec![1, 2, 3]] });
}

#[test]
fn log_ids_are_ordered_by_term_then_index() {
    let a = LogId { term: 1, index: 9 };
    let b = LogId { term: 2, index: 0 };
    let c = LogId { term: 2, index: 1 };
    assert!(a.is_before(&b));
    assert!(b.is_before(&c));
    assert!(!c.is_before(&b));
    assert!(!a.is_before(&a));
}

#[test]
fn sequence_numbers_of_writes_strictly_increase() {
    let mut sm = fresh();
    let s1 = written_seq(&sm.apply_at(&normal(1, None, put("a", "1")), 0));
    sm.apply_at(&normal(2, None, Cmd::IncrSeq { key: "other".to_string() }), 0);
    sm.apply_at(&normal(3, None, upsert("a", MatchSeq::Any, Operation::Delete, None)), 0);
    let s2 = written_seq(&sm.apply_at(&normal(4, None, put("b", "2")), 0));
    let s3 = written_seq(&sm.apply_at(&normal(5, None, put("a", "3")), 0));
    assert_eq!((s1, s2, s3), (1, 2, 3));
}

#[test]
fn incr_seq_counts_from_one_per_name() {
    let mut sm = fresh();
    let a1 = sm.apply_at(&normal(1, None, Cmd::IncrSeq { key: "a".to_string() }), 0);
    let a2 = sm.apply_at(&normal(2, None, Cmd::IncrSeq { key: "a".to_string() }), 0);
    let b1 = sm.apply_at(&normal(3, None, Cmd::IncrSeq { key: "b".to_string() }), 0);
    assert_eq!(a1, AppliedState::SeqNum { seq: 1 });
    assert_eq!(a2, AppliedState::SeqNum { seq: 2 });
    assert_eq!(b1, AppliedState::SeqNum { seq: 1 });
    assert_eq!(sm.sequences().get(b"a"), Some(&2));
}

#[test]
fn incr_seq_of_the_record_counter_is_shared_with_writes() {
    let mut sm = fresh();
    sm.apply_at(&normal(1, None, Cmd::IncrSeq { key: "generic-kv".to_string() }), 0);
    let r = sm.apply_at(&normal(2, None, put("a", "1")), 0);
    assert_eq!(written_seq(&r), 2);
}

#[test]
fn replay_gives_byte_identical_snapshots() {
    let log = vec![
        normal(1, Some(("c", 1)), put("b", "2")),
        normal(2, None, put("a", "1")),
        normal(3, None, Cmd::AddNode {
            node_id: 300,
            node: Node {
                name: "n".to_string(),
                endpoint: Endpoint { addr: "h".to_string(), port: 1 },
            },
        }),
        normal(4, None, Cmd::IncrSeq { key: "s".to_string() }),
        normal(5, None, upsert("b", MatchSeq::Any, Operation::Delete, None)),
    ];
    let mut one = fresh();
    let mut two = fresh();
    for e in &log {
        one.apply_at(e, 7);
    }
    for e in &log {
        two.apply_at(e, 7);
    }
    let (s1, l1, id1) = one.build_snapshot_at(99);
    let (s2, l2, id2) = two.build_snapshot_at(99);
    assert_eq!(s1, s2);
    assert_eq!(l1, l2);
    assert_eq!(id1, id2);
    let keys: Vec<Vec<u8>> = s1.kvs.iter().map(|p| p[0].clone()).collect();
    let mut sorted = keys.clone();
    sorted.sort();
    assert_eq!(keys, sorted);
}

#[test]
fn same_txid_gives_same_response_and_no_change() {
    let mut sm = fresh();
    let first = sm.apply_at(&normal(1, Some(("c", 5)), put("a", "1")), 0);
    let second = sm.apply_at(&normal(2, Some(("c", 5)), put("zzz", "other")), 0);
    assert_eq!(first, second);
    assert_eq!(sm.get_kv("zzz", 0), None);
    assert_eq!(sm.get_kv("a", 0), Some(rec(1, "1")));
    assert_eq!(sm.sequences().get(b"generic-kv"), Some(&1));
    assert_eq!(sm.get_client_last_resp("c"), Some((5, first)));
}

#[test]
fn another_serial_of_the_same_client_is_applied() {
    let mut sm = fresh();
    sm.apply_at(&normal(1, Some(("c", 5)), put("a", "1")), 0);
    let r = sm.apply_at(&normal(2, Some(("c", 6)), put("a", "2")), 0);
    assert_eq!(
        r,
        AppliedState::KV(Change { prev: Some(rec(1, "1")), result: Some(rec(2, "2")) })
    );
    assert_eq!(sm.get_client_last_resp("c"), Some((6, r)));
}

#[test]
fn serial_zero_of_an_unseen_client_is_applied() {
    let mut sm = fresh();
    let r = sm.apply_at(&normal(1, Some(("new", 0)), put("a", "1")), 0);
    assert_eq!(r, AppliedState::KV(Change { prev: None, result: Some(rec(1, "1")) }));
    assert_eq!(sm.get_kv("a", 0), Some(rec(1, "1")));
}

#[test]
fn entries_without_txid_are_never_deduplicated() {
    let mut sm = fresh();
    sm.apply_at(&normal(1, None, put("a", "1")), 0);
    let r = sm.apply_at(&normal(2, None, put("a", "1")), 0);
    assert_eq!(written_seq(&r), 2);
}

#[test]
fn unseen_client_has_serial_zero_and_empty_response() {
    let sm = fresh();
    assert_eq!(sm.get_client_last_resp("nobody"), Some((0, AppliedState::Empty)));
    assert_eq!(sm.txn_get_client_last_resp("nobody"), (0, AppliedState::Empty));
}

#[test]
fn eq_mismatch_leaves_state_unchanged() {
    let mut sm = fresh();
    sm.apply_at(&normal(1, None, put("a", "1")), 0);
    let before = sm.build_snapshot_at(0).0;
    let r = sm.apply_at(
        &normal(1, None, upsert("a", MatchSeq::Eq(2), Operation::Update(b"x".to_vec()), None)),
        0,
    );
    assert_eq!(r, AppliedState::KV(Change { prev: Some(rec(1, "1")), result: Some(rec(1, "1")) }));
    assert_eq!(sm.build_snapshot_at(0).0, before);
}

#[test]
fn eq_on_an_absent_record_never_matches() {
    let mut sm = fresh();
    let r = sm.apply_at(
        &normal(1, None, upsert("a", MatchSeq::Eq(0), Operation::Update(b"x".to_vec()), None)),
        0,
    );
    assert_eq!(r, AppliedState::KV(Change { prev: None, result: None }));
    assert_eq!(sm.get_kv("a", 0), None);
}

#[test]
fn eq_match_writes() {
    let mut sm = fresh();
    sm.apply_at(&normal(1, None, put("a", "1")), 0);
    let r = sm.apply_at(
        &normal(2, None, upsert("a", MatchSeq::Eq(1), Operation::Update(b"x".to_vec()), None)),
        0,
    );
    assert_eq!(r, AppliedState::KV(Change { prev: Some(rec(1, "1")), result: Some(rec(2, "x")) }));
}

#[test]
fn ge_counts_an_absent_record_as_zero() {
    let mut sm = fresh();
    let miss = sm.apply_at(
        &normal(1, None, upsert("a", MatchSeq::GE(1), Operation::Update(b"x".to_vec()), None)),
        0,
    );
    assert_eq!(miss, AppliedState::KV(Change { prev: None, result: None }));
    let hit = sm.apply_at(
        &normal(2, None, upsert("a", MatchSeq::GE(0), Operation::Update(b"x".to_vec()), None)),
        0,
    );
    assert_eq!(hit, AppliedState::KV(Change { prev: None, result: Some(rec(1, "x")) }));
    let again = sm.apply_at(
        &normal(3, None, upsert("a", MatchSeq::GE(1), Operation::Update(b"y".to_vec()), None)),
        0,
    );
    assert_eq!(written_seq(&again), 2);
}

#[test]
fn delete_hides_the_key_and_takes_no_sequence_number() {
    let mut sm = fresh();
    sm.apply_at(&normal(1, None, put("a", "1")), 0);
    let r = sm.apply_at(&normal(2, None, upsert("a", MatchSeq::Any, Operation::Delete, None)), 0);
    assert_eq!(r, AppliedState::KV(Change { prev: Some(rec(1, "1")), result: None }));
    assert_eq!(sm.get_kv("a", 0), None);
    assert_eq!(sm.kvs().get(b"a"), None);
    assert_eq!(sm.sequences().get(b"generic-kv"), Some(&1));
}

#[test]
fn delete_of_an_absent_key_is_a_no_op() {
    let mut sm = fresh();
    let r = sm.apply_at(&normal(1, None, upsert("a", MatchSeq::Any, Operation::Delete, None)), 0);
    assert_eq!(r, AppliedState::KV(Change { prev: None, result: None }));
    assert_eq!(sm.sequences().get(b"generic-kv"), None);
}

#[test]
fn a_record_is_hidden_from_the_second_it_expires() {
    let meta = Some(KVMeta { expire_at: Some(100) });
    let stored = SeqV { seq: 1, meta, data: b"x".to_vec() };
    assert_eq!(StateMachine::unexpired_at(stored.clone(), 99), Some(stored.clone()));
    assert_eq!(StateMachine::unexpired_at(stored.clone(), 100), None);
    assert_eq!(StateMachine::unexpired_at(stored.clone(), 101), None);
    assert_eq!(StateMachine::unexpired_opt_at(Some(stored.clone()), 0), Some(stored));
    assert_eq!(StateMachine::unexpired_opt_at(None::<SeqV<Vec<u8>>>, 0), None);
    let never = SeqV { seq: 1, meta: Some(KVMeta { expire_at: None }), data: b"x".to_vec() };
    assert_eq!(StateMachine::unexpired_at(never.clone(), u64::MAX), Some(never));
    assert_eq!(StateMachine::unexpired_at(rec(1, "x"), u64::MAX), Some(rec(1, "x")));
}

#[test]
fn an_expired_record_counts_as_absent_for_a_write() {
    let mut sm = fresh();
    let meta = Some(KVMeta { expire_at: Some(100) });
    sm.apply_at(&normal(1, None, upsert("t", MatchSeq::Any, Operation::Update(b"x".to_vec()), meta)), 0);
    let r = sm.apply_at(
        &normal(2, None, upsert("t", MatchSeq::Eq(1), Operation::Update(b"y".to_vec()), None)),
        100,
    );
    assert_eq!(r, AppliedState::KV(Change { prev: None, result: None }));
    assert_eq!(sm.kvs().get(b"t"), Some(&SeqV { seq: 1, meta, data: b"x".to_vec() }));
    let kept = sm.apply_at(&normal(3, None, upsert("t", MatchSeq::Any, Operation::AsIs, None)), 100);
    assert_eq!(kept, AppliedState::KV(Change { prev: None, result: None }));
}

#[test]
fn as_is_replaces_only_the_meta_and_takes_a_sequence_number() {
    let mut sm = fresh();
    sm.apply_at(&normal(1, None, put("a", "1")), 0);
    let meta = Some(KVMeta { expire_at: Some(500) });
    let r = sm.apply_at(&normal(2, None, upsert("a", MatchSeq::Any, Operation::AsIs, meta)), 0);
    let after = SeqV { seq: 2, meta, data: b"1".to_vec() };
    assert_eq!(r, AppliedState::KV(Change { prev: Some(rec(1, "1")), result: Some(after.clone()) }));
    assert_eq!(sm.get_kv("a", 0), Some(after));
}

#[test]
fn update_without_meta_erases_the_meta() {
    let mut sm = fresh();
    let meta = Some(KVMeta { expire_at: Some(500) });
    sm.apply_at(&normal(1, None, upsert("a", MatchSeq::Any, Operation::Update(b"1".to_vec()), meta)), 0);
    sm.apply_at(&normal(2, None, put("a", "2")), 0);
    assert_eq!(sm.get_kv("a", 1000), Some(rec(2, "2")));
}

#[test]
fn exhausted_counter_answers_with_an_error_and_changes_nothing() {
    let mut sm = with_counter(u64::MAX);
    let r = sm.apply_at(&normal(1, Some(("c", 1)), put("a", "1")), 0);
    assert_eq!(r, AppliedState::AppError(AppError::SequenceExhausted));
    assert_eq!(sm.get_kv("a", 0), None);
    assert_eq!(sm.sequences().get(b"generic-kv"), Some(&u64::MAX));
    assert_eq!(sm.get_last_applied(), Some(LogId { term: 1, index: 1 }));
    assert_eq!(
        sm.get_client_last_resp("c"),
        Some((1, AppliedState::AppError(AppError::SequenceExhausted)))
    );
    let incr = sm.apply_at(&normal(2, None, Cmd::IncrSeq { key: "generic-kv".to_string() }), 0);
    assert_eq!(incr, AppliedState::AppError(AppError::SequenceExhausted));
    let del = sm.apply_at(&normal(3, None, upsert("a", MatchSeq::Any, Operation::Delete, None)), 0);
    assert_eq!(del, AppliedState::KV(Change { prev: None, result: None }));
    assert_eq!(
        sm.apply_cmd_at(&put("a", "1"), 0),
        Err(AppError::SequenceExhausted)
    );
}

#[test]
fn last_sequence_number_can_still_be_taken() {
    let mut sm = with_counter(u64::MAX - 1);
    let r = sm.apply_at(&normal(1, None, put("a", "1")), 0);
    assert_eq!(written_seq(&r), u64::MAX);
}

#[test]
fn remove_node_reports_what_was_there() {
    let mut sm = fresh();
    let n = Node { name: "n".to_string(), endpoint: Endpoint { addr: "h".to_string(), port: 1 } };
    let none = sm.apply_at(&normal(1, None, Cmd::RemoveNode { node_id: 4 }), 0);
    assert_eq!(none, AppliedState::Node { prev: None, result: None });
    sm.apply_at(&normal(2, None, Cmd::AddNode { node_id: 4, node: n.clone() }), 0);
    let some = sm.apply_at(&normal(3, None, Cmd::RemoveNode { node_id: 4 }), 0);
    assert_eq!(some, AppliedState::Node { prev: Some(n), result: None });
    assert_eq!(sm.get_node(&4), None);
}

#[test]
fn nodes_are_listed_in_the_order_of_their_ids() {
    let mut sm = fresh();
    let mk = |name: &str| Node {
        name: name.to_string(),
        endpoint: Endpoint { addr: "h".to_string(), port: 1 },
    };
    sm.apply_at(&normal(1, None, Cmd::AddNode { node_id: 256, node: mk("c") }), 0);
    sm.apply_at(&normal(2, None, Cmd::AddNode { node_id: 1, node: mk("a") }), 0);
    sm.apply_at(&normal(3, None, Cmd::AddNode { node_id: 2, node: mk("b") }), 0);
    assert_eq!(sm.list_node_ids(), vec![1, 2, 256]);
    assert_eq!(sm.get_nodes(), vec![mk("a"), mk("b"), mk("c")]);
    assert_eq!(sm.nodes().len(), 3);
}

struct Recorder {
    seen: Arc<Mutex<Vec<(String, Option<SeqV<Vec<u8>>>, Option<SeqV<Vec<u8>>>)>>>,
}

impl StateMachineSubscriber for Recorder {
    fn kv_changed(&self, key: &str, prev: Option<SeqV<Vec<u8>>>, current: Option<SeqV<Vec<u8>>>) {
        self.seen.lock().unwrap().push((key.to_string(), prev, current));
    }
}

#[test]
fn subscriber_is_told_of_upserts_that_were_applied() {
    let seen = Arc::new(Mutex::new(Vec::new()));
    let mut sm = fresh();
    sm.set_subscriber(Box::new(Recorder { seen: seen.clone() }));
    sm.apply_at(&normal(1, Some(("c", 1)), put("a", "1")), 0);
    sm.apply_at(&normal(2, Some(("c", 1)), put("a", "1")), 0);
    sm.apply_at(&normal(3, None, Cmd::IncrSeq { key: "s".to_string() }), 0);
    sm.apply_at(
        &normal(4, None, upsert("a", MatchSeq::Eq(9), Operation::Update(b"x".to_vec()), None)),
        0,
    );
    let got = seen.lock().unwrap().clone();
    assert_eq!(
        got,
        vec![
            ("a".to_string(), None, Some(rec(1, "1"))),
            ("a".to_string(), Some(rec(1, "1")), Some(rec(1, "1"))),
        ]
    );
}

#[test]
fn apply_entry_returns_the_change_without_telling_the_subscriber() {
    let seen = Arc::new(Mutex::new(Vec::new()));
    let mut sm = fresh();
    sm.set_subscriber(Box::new(Recorder { seen: seen.clone() }));
    let (r, change) = sm.apply_entry(&normal(1, None, put("a", "1")), 0);
    assert_eq!(written_seq(&r), 1);
    let change = change.unwrap();
    assert_eq!(change.key, "a");
    assert_eq!(change.prev, None);
    assert_eq!(change.current, Some(rec(1, "1")));
    assert!(seen.lock().unwrap().is_empty());
    let (_, none) = sm.apply_entry(&normal(2, None, Cmd::IncrSeq { key: "s".to_string() }), 0);
    assert_eq!(none, None);
}

#[test]
fn a_later_subscriber_takes_the_place_of_an_earlier_one() {
    let first = Arc::new(Mutex::new(Vec::new()));
    let second = Arc::new(Mutex::new(Vec::new()));
    let mut sm = fresh();
    sm.apply_at(&normal(1, None, put("before", "0")), 0);
    sm.set_subscriber(Box::new(Recorder { seen: first.clone() }));
    sm.apply_at(&normal(2, None, put("a", "1")), 0);
    sm.set_subscriber(Box::new(Recorder { seen: second.clone() }));
    sm.apply_at(&normal(3, None, put("b", "2")), 0);
    assert_eq!(first.lock().unwrap().clone(), vec![("a".to_string(), None, Some(rec(2, "1")))]);
    assert_eq!(second.lock().unwrap().clone(), vec![("b".to_string(), None, Some(rec(3, "2")))]);
    assert_eq!(sm.get_kv("before", 0), Some(rec(1, "0")));
    assert_eq!(sm.get_last_applied(), Some(LogId { term: 1, index: 3 }));
}
