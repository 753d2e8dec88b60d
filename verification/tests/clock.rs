use meta_raft_store::clock::unix_seconds;
use meta_raft_store::cmd::{
    AppliedState, Change, Cmd, Entry, EntryPayload, LogEntry, MatchSeq, Operation,
};
use meta_raft_store::snapshot::SerializableSnapshot;
use meta_raft_store::state_machine::StateMachine;
use meta_raft_store::types::{KVMeta, LogId, SeqV};

fn upsert(key: &str, value: &str, expire_at: Option<u64>) -> Cmd {
    Cmd::UpsertKV {
        key: key.to_string(),
        seq: MatchSeq::Any,
        value: Operation::Update(value.as_bytes().to_vec()),
        value_meta: Some(KVMeta { expire_at }),
    }
}

fn normal(index: u64, cmd: Cmd) -> Entry {
    Entry {
        log_id: LogId { term: 4, index },
        payload: EntryPayload::Normal(LogEntry { txid: None, cmd }),
    }
}

#[test]
fn the_clock_reads_a_time_of_this_century() {
    let now = unix_seconds();
    assert!(now > 1_600_000_000);
    assert!(now < 4_102_444_800);
}

#[test]
fn unexpired_hides_what_expired_long_ago() {
    let gone = SeqV { seq: 1, meta: Some(KVMeta { expire_at: Some(1) }), data: b"x".to_vec() };
    let kept = SeqV { seq: 1, meta: Some(KVMeta { expire_at: Some(u64::MAX) }), data: b"x".to_vec() };
    let plain = SeqV { seq: 1, meta: None, data: b"x".to_vec() };
    assert_eq!(StateMachine::unexpired(gone.clone()), None);
    assert_eq!(StateMachine::unexpired(kept.clone()), Some(kept.clone()));
    assert_eq!(StateMachine::unexpired(plain.clone()), Some(plain));
    assert_eq!(StateMachine::unexpired_opt(Some(gone)), None);
    assert_eq!(StateMachine::unexpired_opt(Some(kept.clone())), Some(kept));
    assert_eq!(StateMachine::unexpired_opt(None::<SeqV<Vec<u8>>>), None);
}

#[test]
fn apply_sees_records_as_the_clock_has_them() {
    let mut sm = StateMachine::open(&SerializableSnapshot::default()).unwrap();
    sm.apply(&normal(1, upsert("gone", "1", Some(1))));
    sm.apply(&normal(2, upsert("kept", "2", Some(u64::MAX))));
    let gone = sm.apply(&normal(3, upsert("gone", "3", None)));
    let kept = sm.apply_cmd(&upsert("kept", "4", None)).unwrap();
    let meta = Some(KVMeta { expire_at: None });
    assert_eq!(
        gone,
        AppliedState::KV(Change {
            prev: None,
            result: Some(SeqV { seq: 3, meta, data: b"3".to_vec() }),
        })
    );
    assert_eq!(
        kept,
        AppliedState::KV(Change {
            prev: Some(SeqV {
                seq: 2,
                meta: Some(KVMeta { expire_at: Some(u64::MAX) }),
                data: b"2".to_vec(),
            }),
            result: Some(SeqV { seq: 4, meta, data: b"4".to_vec() }),
        })
    );
    assert_eq!(sm.get_last_applied(), Some(LogId { term: 4, index: 3 }));
}

#[test]
fn snapshot_id_ends_with_the_time_of_taking() {
    let mut sm = StateMachine::open(&SerializableSnapshot::default()).unwrap();
    sm.apply(&normal(7, upsert("a", "1", None)));
    let before = unix_seconds();
    let (snapshot, last_applied, id) = sm.build_snapshot();
    let after = unix_seconds();
    assert_eq!(last_applied, LogId { term: 4, index: 7 });
    assert_eq!(snapshot, sm.build_snapshot_at(0).0);
    let taken: u64 = id.strip_prefix("4-7-").unwrap().parse().unwrap();
    assert!(before <= taken && taken <= after);
}
