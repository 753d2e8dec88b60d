use meta_raft_store::cmd::{Cmd, Entry, EntryPayload, LogEntry, MatchSeq, Membership, Operation, Txid};
use meta_raft_store::journal::Write;
use meta_raft_store::snapshot::SerializableSnapshot;
use meta_raft_store::state_machine::StateMachine;
use meta_raft_store::txn::{TxnOp, TxnRequest};
use meta_raft_store::types::{Endpoint, LogId, Node};
use std::collections::BTreeMap;

fn normal(index: u64, txid: Option<(&str, u64)>, cmd: Cmd) -> Entry {
    Entry {
        log_id: LogId { term: 1, index },
        payload: EntryPayload::Normal(LogEntry {
            txid: txid.map(|(client, serial)| Txid { client: client.to_string(), serial }),
            cmd,
        }),
    }
}

fn put(key: &str, value: &str) -> Cmd {
    Cmd::UpsertKV {
        key: key.to_string(),
        seq: MatchSeq::Any,
        value: Operation::Update(value.as_bytes().to_vec()),
        value_meta: None,
    }
}

fn commit(tree: &mut BTreeMap<Vec<u8>, Vec<u8>>, batch: Vec<Write>) {
    for w in batch {
        match w.value {
            Some(v) => {
                tree.insert(w.key, v);
            }
            None => {
                tree.remove(&w.key);
            }
        }
    }
}

fn pairs(tree: &BTreeMap<Vec<u8>, Vec<u8>>) -> Vec<Vec<Vec<u8>>> {
    tree.iter().map(|(k, v)| vec![k.clone(), v.clone()]).collect()
}

#[test]
fn opening_on_nothing_writes_the_initialized_mark() {
    let mut sm = StateMachine::open(&SerializableSnapshot::default()).unwrap();
    assert_eq!(sm.take_batch(), vec![Write { key: vec![2, 2], value: Some(vec![1]) }]);
    assert_eq!(sm.take_batch(), vec![]);
}

#[test]
fn opening_on_an_initialized_store_writes_nothing() {
    let stored = SerializableSnapshot { kvs: vec![vec![vec![2, 2], vec![1]]] };
    let mut sm = StateMachine::open(&stored).unwrap();
    assert_eq!(sm.take_batch(), vec![]);
}

#[test]
fn one_upsert_is_one_batch_of_four_writes() {
    let mut sm = StateMachine::open(&SerializableSnapshot::default()).unwrap();
    sm.take_batch();
    sm.apply_at(&normal(5, Some(("c", 1)), put("k", "v")), 0);
    let batch = sm.take_batch();
    let keys: Vec<Vec<u8>> = batch.iter().map(|w| w.key.clone()).collect();
    let mut counter = vec![1u8];
    counter.extend_from_slice(b"generic-kv");
    assert_eq!(keys, vec![vec![2, 1], counter, vec![4, b'k'], vec![5, b'c']]);
    assert!(batch.iter().all(|w| w.value.is_some()));
    assert_eq!(batch[1].value, Some(1u64.to_be_bytes().to_vec()));
}

#[test]
fn a_repeated_request_writes_only_the_last_applied_position() {
    let mut sm = StateMachine::open(&SerializableSnapshot::default()).unwrap();
    sm.apply_at(&normal(1, Some(("c", 1)), put("k", "v")), 0);
    sm.take_batch();
    sm.apply_at(&normal(2, Some(("c", 1)), put("k", "v")), 0);
    let batch = sm.take_batch();
    assert_eq!(batch.len(), 1);
    assert_eq!(batch[0].key, vec![2, 1]);
}

#[test]
fn committed_batches_keep_a_tree_equal_to_the_snapshot() {
    let mut tree = BTreeMap::new();
    let mut sm = StateMachine::open(&SerializableSnapshot::default()).unwrap();
    commit(&mut tree, sm.take_batch());
    let node = Node { name: "n".to_string(), endpoint: Endpoint { addr: "a".to_string(), port: 2 } };
    let txn = TxnRequest {
        condition: vec![],
        if_then: vec![
            TxnOp::Put { key: "t".to_string(), value: b"1".to_vec(), prev_value: false },
            TxnOp::Delete { key: "a".to_string(), prev_value: true },
            TxnOp::Delete { key: "never".to_string(), prev_value: true },
        ],
        else_then: vec![],
    };
    let log = vec![
        normal(1, Some(("c1", 1)), put("a", "1")),
        normal(2, None, put("b", "2")),
        normal(3, Some(("c1", 2)), Cmd::AddNode { node_id: 9, node: node.clone() }),
        normal(4, None, Cmd::AddNode { node_id: 10, node }),
        normal(5, None, Cmd::RemoveNode { node_id: 9 }),
        normal(6, None, Cmd::RemoveNode { node_id: 77 }),
        normal(7, None, Cmd::IncrSeq { key: "ids".to_string() }),
        normal(8, Some(("c2", 1)), Cmd::Transaction(txn)),
        Entry {
            log_id: LogId { term: 1, index: 9 },
            payload: EntryPayload::Membership(Membership { configs: vec![vec![1, 2, 3]] }),
        },
        Entry { log_id: LogId { term: 2, index: 10 }, payload: EntryPayload::Blank },
        normal(11, None, Cmd::UpsertKV {
            key: "b".to_string(),
            seq: MatchSeq::Any,
            value: Operation::Delete,
            value_meta: None,
        }),
    ];
    for entry in &log {
        sm.apply_at(entry, 0);
        commit(&mut tree, sm.take_batch());
        assert_eq!(pairs(&tree), sm.build_snapshot_at(0).0.kvs);
    }
    let reopened = StateMachine::open(&SerializableSnapshot { kvs: pairs(&tree) }).unwrap();
    assert_eq!(reopened.build_snapshot_at(0).0.kvs, pairs(&tree));
}
