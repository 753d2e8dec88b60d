use meta_raft_store::bytes::{compare_bytes, u64_from_be_bytes, u64_to_be_bytes, Order};
use meta_raft_store::cmd::{
    AppliedState, Cmd, Entry, EntryPayload, LogEntry, MatchSeq, Membership, Operation, Txid,
};
use meta_raft_store::codec::{read_list, put_list, Codec, Reader};
use meta_raft_store::export::ExportStream;
use meta_raft_store::keyspace::KeySpace;
use meta_raft_store::snapshot::{read_whole, MetaStorageError, SerializableSnapshot};
use meta_raft_store::state_machine::StateMachine;
use meta_raft_store::text::u64_to_decimal;
use meta_raft_store::txn::{TxnOp, TxnRequest};
use meta_raft_store::types::{Endpoint, KVMeta, LogId, Node, SeqV};

fn fresh() -> StateMachine {
    StateMachine::open(&SerializableSnapshot::default()).unwrap()
}

fn normal(index: u64, txid: Option<(&str, u64)>, cmd: Cmd) -> Entry {
    Entry {
        log_id: LogId { term: 3, index },
        payload: EntryPayload::Normal(LogEntry {
            txid: txid.map(|(client, serial)| Txid { client: client.to_string(), serial }),
            cmd,
        }),
    }
}

fn put(key: &str, value: &str, meta: Option<KVMeta>) -> Cmd {
    Cmd::UpsertKV {
        key: key.to_string(),
        seq: MatchSeq::Any,
        value: Operation::Update(value.as_bytes().to_vec()),
        value_meta: meta,
    }
}

fn node(name: &str, port: u32) -> Node {
    Node { name: name.to_string(), endpoint: Endpoint { addr: "höst".to_string(), port } }
}

fn busy() -> StateMachine {
    let mut sm = fresh();
    sm.apply_at(&normal(1, Some(("c1", 1)), put("a", "1", None)), 0);
    sm.apply_at(&normal(2, Some(("c2", 9)), put("b", "2", Some(KVMeta { expire_at: Some(50) }))), 0);
    sm.apply_at(&normal(3, None, put("", "empty key", Some(KVMeta { expire_at: None }))), 0);
    sm.apply_at(&normal(4, Some(("c3", 2)), Cmd::AddNode { node_id: 7, node: node("nœud", 80) }), 0);
    sm.apply_at(&normal(5, Some(("c4", 2)), Cmd::AddNode { node_id: 7, node: node("x", 1) }), 0);
    sm.apply_at(&normal(6, Some(("c5", 3)), Cmd::IncrSeq { key: "ids".to_string() }), 0);
    let txn = TxnRequest {
        condition: vec![],
        if_then: vec![
            TxnOp::Get { key: "a".to_string() },
            TxnOp::Put { key: "a".to_string(), value: b"3".to_vec(), prev_value: true },
            TxnOp::Delete { key: "b".to_string(), prev_value: true },
        ],
        else_then: vec![],
    };
    sm.apply_at(&normal(7, Some(("c6", 4)), Cmd::Transaction(txn)), 0);
    sm.apply_at(
        &Entry {
            log_id: LogId { term: 3, index: 8 },
            payload: EntryPayload::Membership(Membership { configs: vec![vec![1, 2], vec![]] }),
        },
        0,
    );
    sm.apply_at(&Entry { log_id: LogId { term: 3, index: 9 }, payload: EntryPayload::Blank }, 0);
    sm
}

#[test]
fn fresh_machine_is_initialized_and_empty() {
    let sm = fresh();
    assert!(sm.sm_meta().initialized);
    assert_eq!(sm.get_last_applied(), None);
    assert_eq!(sm.get_membership(), None);
    assert_eq!(sm.kvs().len(), 0);
    assert_eq!(sm.nodes().len(), 0);
    assert_eq!(sm.sequences().len(), 0);
    assert_eq!(sm.client_last_resps().len(), 0);
}

#[test]
fn snapshot_round_trips_through_open() {
    let sm = busy();
    let (snapshot, last_applied, id) = sm.build_snapshot_at(1234);
    assert_eq!(last_applied, LogId { term: 3, index: 9 });
    assert_eq!(id, "3-9-1234");
    let back = StateMachine::open(&snapshot).unwrap();
    assert_eq!(back.build_snapshot_at(1234).0, snapshot);
    assert_eq!(back.get_last_applied(), Some(last_applied));
    assert_eq!(back.get_node(&7), Some(node("nœud", 80)));
    assert_eq!(back.get_kv("a", 0), sm.get_kv("a", 0));
    assert_eq!(back.get_kv("", 0), sm.get_kv("", 0));
    assert_eq!(back.get_membership(), sm.get_membership());
    assert_eq!(back.sm_meta(), sm.sm_meta());
    for c in ["c1", "c2", "c3", "c4", "c5", "c6"] {
        assert_eq!(back.get_client_last_resp(c), sm.get_client_last_resp(c));
    }
    assert_eq!(back.sequences().get(b"ids"), Some(&1));
    assert_eq!(back.sequences().get(b"generic-kv"), Some(&4));
}

#[test]
fn opening_twice_changes_nothing() {
    let sm = busy();
    let first = sm.build_snapshot_at(0).0;
    let second = StateMachine::open(&first).unwrap().build_snapshot_at(0).0;
    let third = StateMachine::open(&second).unwrap().build_snapshot_at(0).0;
    assert_eq!(first, second);
    assert_eq!(second, third);
}

#[test]
fn snapshot_layout_is_prefix_then_key() {
    let mut sm = fresh();
    sm.apply_at(&normal(1, None, put("k", "v", None)), 0);
    sm.apply_at(&normal(2, None, Cmd::AddNode { node_id: 258, node: node("n", 5) }), 0);
    let (snapshot, _, _) = sm.build_snapshot_at(0);
    let keys: Vec<Vec<u8>> = snapshot.kvs.iter().map(|p| p[0].clone()).collect();
    let mut counter = vec![1u8];
    counter.extend_from_slice(b"generic-kv");
    assert_eq!(
        keys,
        vec![
            counter,
            vec![2, 1],
            vec![2, 2],
            vec![3, 0, 0, 0, 0, 0, 0, 1, 2],
            vec![4, b'k'],
        ]
    );
    assert!(snapshot.kvs.iter().all(|p| p.len() == 2));
    assert_eq!(snapshot.kvs[0][1], vec![0, 0, 0, 0, 0, 0, 0, 1]);
    let mut log_id = vec![0u8; 16];
    log_id[7] = 3;
    log_id[15] = 2;
    assert_eq!(snapshot.kvs[1][1], log_id);
    assert_eq!(snapshot.kvs[2][1], vec![1]);
    let mut record = vec![0, 0, 0, 0, 0, 0, 0, 1, 0];
    record.extend_from_slice(&[0, 0, 0, 0, 0, 0, 0, 1, b'v']);
    assert_eq!(snapshot.kvs[4][1], record);
}

#[test]
fn corrupt_pairs_are_refused() {
    let bad = |kvs: Vec<Vec<Vec<u8>>>| {
        assert_eq!(
            StateMachine::open(&SerializableSnapshot { kvs }).err(),
            Some(MetaStorageError::Corruption)
        );
    };
    bad(vec![vec![vec![1, b'a']]]);
    bad(vec![vec![vec![1, b'a'], vec![0; 8], vec![]]]);
    bad(vec![vec![vec![], vec![0; 8]]]);
    bad(vec![vec![vec![9, b'a'], vec![0; 8]]]);
    bad(vec![vec![vec![0], vec![0; 8]]]);
    bad(vec![vec![vec![1, b'a'], vec![0; 7]]]);
    bad(vec![vec![vec![1, b'a'], vec![0; 9]]]);
    bad(vec![vec![vec![2, 4], vec![1]]]);
    bad(vec![vec![vec![2], vec![1]]]);
    bad(vec![vec![vec![2, 2, 2], vec![1]]]);
    bad(vec![vec![vec![2, 2], vec![2]]]);
    bad(vec![vec![vec![2, 1], vec![0; 15]]]);
    let mut good_node = Vec::new();
    node("n", 1).put(&mut good_node);
    bad(vec![vec![vec![3, 0, 0, 0, 0, 0, 0, 1], good_node.clone()]]);
    let mut bad_text = vec![0, 0, 0, 0, 0, 0, 0, 1, 0xff];
    bad_text.extend_from_slice(&good_node[9..]);
    bad(vec![vec![vec![3, 0, 0, 0, 0, 0, 0, 0, 1], bad_text]]);
    bad(vec![vec![vec![4, b'k'], vec![0, 0, 0, 0, 0, 0, 0, 1, 3, 0, 0, 0, 0, 0, 0, 0, 0]]]);
    bad(vec![vec![vec![4, b'k'], vec![0, 0, 0, 0, 0, 0, 0, 1, 0, 0, 0, 0, 0, 0, 0, 0, 5, b'v']]]);
    bad(vec![vec![vec![5, b'c'], vec![0, 0, 0, 0, 0, 0, 0, 1, 6]]]);
    bad(vec![vec![vec![5, b'c'], vec![0, 0, 0, 0, 0, 0, 0, 1, 4, 1]]]);
    let ok = StateMachine::open(&SerializableSnapshot {
        kvs: vec![vec![vec![3, 0, 0, 0, 0, 0, 0, 0, 1], good_node]],
    })
    .unwrap();
    assert_eq!(ok.get_node(&1), Some(node("n", 1)));
}

#[test]
fn a_later_pair_replaces_an_earlier_one() {
    let stored = SerializableSnapshot {
        kvs: vec![
            vec![vec![1, b's'], 5u64.to_be_bytes().to_vec()],
            vec![vec![1, b's'], 6u64.to_be_bytes().to_vec()],
            vec![vec![2, 2], vec![0]],
        ],
    };
    let sm = StateMachine::open(&stored).unwrap();
    assert_eq!(sm.sequences().get(b"s"), Some(&6));
    assert!(sm.sm_meta().initialized);
}

#[test]
fn tree_name_joins_prefix_kind_and_id() {
    assert_eq!(StateMachine::tree_name("meta", 7), "meta/state_machine/7");
    assert_eq!(StateMachine::tree_name("", 0), "/state_machine/0");
    assert_eq!(
        StateMachine::tree_name("a/b", u64::MAX),
        "a/b/state_machine/18446744073709551615"
    );
}

#[test]
fn decimal_text_of_numbers() {
    assert_eq!(u64_to_decimal(0), "0");
    assert_eq!(u64_to_decimal(9), "9");
    assert_eq!(u64_to_decimal(10), "10");
    assert_eq!(u64_to_decimal(1234567890), "1234567890");
    assert_eq!(u64_to_decimal(u64::MAX), "18446744073709551615");
}

#[test]
fn importable_shape_names_the_tree() {
    let snapshot = SerializableSnapshot { kvs: vec![vec![vec![1], vec![2]]] };
    let shape = snapshot.clone().sled_importable();
    assert_eq!(shape.len(), 1);
    assert_eq!(shape[0].0, b"tree".to_vec());
    assert_eq!(shape[0].1, b"state_machine".to_vec());
    assert_eq!(shape[0].2, snapshot.kvs);
}

#[test]
fn bytes_compare_lexicographically() {
    assert_eq!(compare_bytes(b"", b""), Order::Equal);
    assert_eq!(compare_bytes(b"", b"a"), Order::Less);
    assert_eq!(compare_bytes(b"a", b""), Order::Greater);
    assert_eq!(compare_bytes(b"ab", b"b"), Order::Less);
    assert_eq!(compare_bytes(b"ab", b"aa"), Order::Greater);
    assert_eq!(compare_bytes(b"ab", b"abc"), Order::Less);
    assert_eq!(compare_bytes(&[255], &[1, 2]), Order::Greater);
    assert_eq!(compare_bytes(b"same", b"same"), Order::Equal);
}

#[test]
fn numbers_are_written_most_significant_byte_first() {
    assert_eq!(u64_to_be_bytes(0x0102030405060708), vec![1, 2, 3, 4, 5, 6, 7, 8]);
    assert_eq!(u64_from_be_bytes(&[1, 2, 3, 4, 5, 6, 7, 8]), 0x0102030405060708);
    assert_eq!(u64_from_be_bytes(&u64_to_be_bytes(u64::MAX)), u64::MAX);
    assert_eq!(u64_to_be_bytes(0), vec![0; 8]);
}

#[test]
fn keyspace_keeps_keys_in_order() {
    let mut ks: KeySpace<u64> = KeySpace::new();
    ks.insert(b"b".to_vec(), 2);
    ks.insert(b"a".to_vec(), 1);
    ks.insert(b"c".to_vec(), 3);
    ks.insert(b"b".to_vec(), 20);
    assert_eq!(ks.len(), 3);
    assert_eq!(ks.key_at(0), &b"a".to_vec());
    assert_eq!(ks.key_at(1), &b"b".to_vec());
    assert_eq!(ks.value_at(1), &20);
    assert_eq!(ks.get(b"b"), Some(&20));
    assert_eq!(ks.get(b"x"), None);
    assert!(ks.contains_key(b"c"));
    assert_eq!(ks.remove(b"a"), Some(1));
    assert_eq!(ks.remove(b"a"), None);
    assert_eq!(ks.len(), 2);
    assert_eq!(ks.key_at(0), &b"b".to_vec());
}

#[test]
fn values_decode_only_when_nothing_is_left_over() {
    assert_eq!(read_whole::<u64>(&[0, 0, 0, 0, 0, 0, 1, 0]), Some(256));
    assert_eq!(read_whole::<u64>(&[0, 0, 0, 0, 0, 0, 1, 0, 0]), None);
    assert_eq!(read_whole::<bool>(&[1]), Some(true));
    assert_eq!(read_whole::<bool>(&[0]), Some(false));
    assert_eq!(read_whole::<bool>(&[2]), None);
    assert_eq!(read_whole::<LogId>(&[0; 16]), Some(LogId { term: 0, index: 0 }));
    let sv = SeqV { seq: 9, meta: Some(KVMeta { expire_at: Some(77) }), data: b"xyz".to_vec() };
    let mut out = vec![0xaa];
    sv.put(&mut out);
    assert_eq!(out[0], 0xaa);
    assert_eq!(read_whole::<SeqV<Vec<u8>>>(&out[1..]), Some(sv));
    let port_too_big = {
        let mut b = Vec::new();
        node("n", 0).put(&mut b);
        let n = b.len();
        b[n - 5] = 1;
        b
    };
    assert_eq!(read_whole::<Node>(&port_too_big), None);
}

#[test]
fn lists_are_written_with_their_length() {
    let mut out = Vec::new();
    put_list::<u64>(&mut out, &vec![1, 2]);
    let mut expected = 2u64.to_be_bytes().to_vec();
    expected.extend_from_slice(&1u64.to_be_bytes());
    expected.extend_from_slice(&2u64.to_be_bytes());
    assert_eq!(out, expected);
    let mut r = Reader::new(&out);
    assert_eq!(read_list::<u64>(&mut r), Some(vec![1, 2]));
    assert!(r.at_end());
    let mut short = Reader::new(&out[..out.len() - 1]);
    assert_eq!(read_list::<u64>(&mut short), None);
    let huge = u64::MAX.to_be_bytes();
    let mut r = Reader::new(&huge);
    assert_eq!(read_list::<u64>(&mut r), None);
}

#[test]
fn responses_of_every_kind_are_stored_and_read_back() {
    let sm = busy();
    let snapshot = sm.build_snapshot_at(0).0;
    let back = StateMachine::open(&snapshot).unwrap();
    let kinds: Vec<AppliedState> = ["c1", "c3", "c4", "c5", "c6"]
        .iter()
        .map(|c| back.get_client_last_resp(c).unwrap().1)
        .collect();
    assert!(matches!(kinds[0], AppliedState::KV(_)));
    assert!(matches!(kinds[1], AppliedState::Node { prev: None, result: Some(_) }));
    assert!(matches!(kinds[2], AppliedState::Node { prev: Some(_), result: None }));
    assert_eq!(kinds[3], AppliedState::SeqNum { seq: 1 });
    match &kinds[4] {
        AppliedState::TxnReply(t) => assert_eq!(t.responses.len(), 3),
        other => panic!("not a reply: {:?}", other),
    }
}

#[test]
fn export_hands_out_sixteen_lines_at_a_time() {
    let lines: Vec<String> = (0..40).map(|i| format!("line {}", i)).collect();
    let mut stream = ExportStream { data: lines.clone() };
    assert_eq!(stream.next_chunk(), Some(lines[0..16].to_vec()));
    assert_eq!(stream.next_chunk(), Some(lines[16..32].to_vec()));
    assert_eq!(stream.next_chunk(), Some(lines[32..40].to_vec()));
    assert_eq!(stream.next_chunk(), None);
    assert_eq!(stream.next_chunk(), None);
    let mut exact = ExportStream { data: lines[0..16].to_vec() };
    assert_eq!(exact.next_chunk().map(|c| c.len()), Some(16));
    assert_eq!(exact.next_chunk(), None);
}
