use meta_raft_store::cmd::{
    AppliedState, Change, Cmd, Entry, EntryPayload, LogEntry, MatchSeq, Operation, Txid,
};
use meta_raft_store::snapshot::SerializableSnapshot;
use meta_raft_store::state_machine::StateMachine;
use meta_raft_store::txn::{Target, TxnCondition, TxnOp, TxnOpResponse, TxnReply, TxnRequest};
use meta_raft_store::types::{Endpoint, KVMeta, LogId, Node, SeqV};

fn fresh() -> StateMachine {
    StateMachine::open(&SerializableSnapshot::default()).unwrap()
}

fn entry(term: u64, index: u64, txid: Option<(&str, u64)>, cmd: Cmd) -> Entry {
    Entry {
        log_id: LogId { term, index },
        payload: EntryPayload::Normal(LogEntry {
            txid: txid.map(|(client, serial)| Txid { client: client.to_string(), serial }),
            cmd,
        }),
    }
}

fn upsert(key: &str, seq: MatchSeq, value: Operation<Vec<u8>>, meta: Option<KVMeta>) -> Cmd {
    Cmd::UpsertKV { key: key.to_string(), seq, value, value_meta: meta }
}

fn rec(seq: u64, data: &str) -> SeqV<Vec<u8>> {
    SeqV { seq, meta: None, data: data.as_bytes().to_vec() }
}

fn node(name: &str) -> Node {
    Node { name: name.to_string(), endpoint: Endpoint { addr: "127.0.0.1".to_string(), port: 9191 } }
}

#[test]
fn idempotent_write() {
    let mut sm = fresh();
    let cmd = upsert("a", MatchSeq::Any, Operation::Update(b"v1".to_vec()), None);
    let first = sm.apply_at(&entry(1, 1, Some(("c1", 7)), cmd.clone()), 0);
    assert_eq!(first, AppliedState::KV(Change { prev: None, result: Some(rec(1, "v1")) }));
    let second = sm.apply_at(&entry(1, 2, Some(("c1", 7)), cmd), 0);
    assert_eq!(second, first);
    assert_eq!(sm.get_kv("a", 0), Some(rec(1, "v1")));
    assert_eq!(sm.get_last_applied(), Some(LogId { term: 1, index: 2 }));
    assert_eq!(sm.sequences().get(b"generic-kv"), Some(&1));
}

#[test]
fn conditional_update_rejected() {
    let mut sm = fresh();
    let cmd = upsert("a", MatchSeq::Any, Operation::Update(b"v1".to_vec()), None);
    sm.apply_at(&entry(1, 1, Some(("c1", 7)), cmd), 0);
    let rejected = sm.apply_at(
        &entry(1, 2, None, upsert("a", MatchSeq::Eq(99), Operation::Update(b"v2".to_vec()), None)),
        0,
    );
    assert_eq!(
        rejected,
        AppliedState::KV(Change { prev: Some(rec(1, "v1")), result: Some(rec(1, "v1")) })
    );
    assert_eq!(sm.sequences().get(b"generic-kv"), Some(&1));
    assert_eq!(sm.get_kv("a", 0), Some(rec(1, "v1")));
    let next = sm.apply_at(
        &entry(1, 3, None, upsert("z", MatchSeq::Any, Operation::Update(b"w".to_vec()), None)),
        0,
    );
    assert_eq!(next, AppliedState::KV(Change { prev: None, result: Some(rec(2, "w")) }));
}

#[test]
fn transaction_branch() {
    let mut sm = fresh();
    sm.apply_at(
        &entry(1, 1, None, upsert("a", MatchSeq::Any, Operation::Update(b"v1".to_vec()), None)),
        0,
    );
    let txn = TxnRequest {
        condition: vec![TxnCondition {
            key: "a".to_string(),
            target: Target::Value(b"v1".to_vec()),
            expected: 0,
        }],
        if_then: vec![TxnOp::Put { key: "b".to_string(), value: b"x".to_vec(), prev_value: true }],
        else_then: vec![TxnOp::Put { key: "b".to_string(), value: b"y".to_vec(), prev_value: true }],
    };
    let reply = sm.apply_at(&entry(1, 2, None, Cmd::Transaction(txn)), 0);
    assert_eq!(
        reply,
        AppliedState::TxnReply(TxnReply {
            success: true,
            error: String::new(),
            responses: vec![TxnOpResponse::Put { key: "b".to_string(), prev_value: None }],
        })
    );
    assert_eq!(sm.get_kv("b", 0), Some(rec(2, "x")));
}

#[test]
fn transaction_condition_on_missing_key() {
    let mut sm = fresh();
    let txn = TxnRequest {
        condition: vec![TxnCondition { key: "k".to_string(), target: Target::SeqNum(0), expected: 0 }],
        if_then: vec![TxnOp::Put { key: "k".to_string(), value: b"v".to_vec(), prev_value: false }],
        else_then: vec![],
    };
    let reply = sm.apply_at(&entry(1, 1, None, Cmd::Transaction(txn)), 0);
    match reply {
        AppliedState::TxnReply(r) => assert!(r.success),
        other => panic!("unexpected response {:?}", other),
    }
    assert_eq!(sm.get_kv("k", 0), Some(rec(1, "v")));
}

#[test]
fn ttl_hides_value() {
    let mut sm = fresh();
    let meta = Some(KVMeta { expire_at: Some(100) });
    sm.apply_at(
        &entry(1, 1, None, upsert("t", MatchSeq::Any, Operation::Update(b"x".to_vec()), meta)),
        10,
    );
    let stored = SeqV { seq: 1, meta, data: b"x".to_vec() };
    assert_eq!(sm.get_kv("t", 50), Some(stored.clone()));
    assert_eq!(sm.get_kv("t", 150), None);
    let (snapshot, _, _) = sm.build_snapshot_at(150);
    let key = vec![4u8, b't'];
    assert!(snapshot.kvs.iter().any(|pair| pair[0] == key));
    assert_eq!(sm.kvs().get(b"t"), Some(&stored));
}

#[test]
fn add_node_idempotence() {
    let mut sm = fresh();
    let first = sm.apply_at(&entry(1, 1, None, Cmd::AddNode { node_id: 1, node: node("n") }), 0);
    assert_eq!(first, AppliedState::Node { prev: None, result: Some(node("n")) });
    let second = sm.apply_at(&entry(1, 2, None, Cmd::AddNode { node_id: 1, node: node("other") }), 0);
    assert_eq!(second, AppliedState::Node { prev: Some(node("n")), result: None });
    assert_eq!(sm.get_node(&1), Some(node("n")));
}
