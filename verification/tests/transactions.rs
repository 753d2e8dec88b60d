use meta_raft_store::cmd::{AppError, AppliedState, Cmd, Entry, EntryPayload, LogEntry, MatchSeq, Operation};
use meta_raft_store::snapshot::SerializableSnapshot;
use meta_raft_store::state_machine::StateMachine;
use meta_raft_store::txn::{
    ConditionResult, PbSeqV, Target, TxnCondition, TxnOp, TxnOpResponse, TxnReply, TxnRequest,
};
use meta_raft_store::types::{KVMeta, LogId, SeqV};

fn fresh() -> StateMachine {
    StateMachine::open(&SerializableSnapshot::default()).unwrap()
}

fn normal(index: u64, cmd: Cmd) -> Entry {
    Entry {
        log_id: LogId { term: 1, index },
        payload: EntryPayload::Normal(LogEntry { txid: None, cmd }),
    }
}

fn put(key: &str, value: &str) -> Cmd {
    Cmd::UpsertKV {
        key: key.to_string(),
        seq: MatchSeq::Any,
        value: Operation::Update(value.as_bytes().to_vec()),
        value_meta: None,
    }
}

fn txn(condition: Vec<TxnCondition>, if_then: Vec<TxnOp>, else_then: Vec<TxnOp>) -> Cmd {
    Cmd::Transaction(TxnRequest { condition, if_then, else_then })
}

fn seq_cond(key: &str, expected: ConditionResult, n: u64) -> TxnCondition {
    TxnCondition { key: key.to_string(), target: Target::SeqNum(n), expected: expected.to_i32() }
}

fn value_cond(key: &str, expected: ConditionResult, v: &str) -> TxnCondition {
    TxnCondition {
        key: key.to_string(),
        target: Target::Value(v.as_bytes().to_vec()),
        expected: expected.to_i32(),
    }
}

fn reply(r: AppliedState) -> TxnReply {
    match r {
        AppliedState::TxnReply(t) => t,
        other => panic!("not a reply: {:?}", other),
    }
}

fn holds(sm: &mut StateMachine, index: u64, cond: TxnCondition) -> bool {
    reply(sm.apply_at(&normal(index, txn(vec![cond], vec![], vec![])), 0)).success
}

#[test]
fn condition_codes_are_the_wire_codes() {
    assert_eq!(ConditionResult::from_i32(0), Some(ConditionResult::Eq));
    assert_eq!(ConditionResult::from_i32(1), Some(ConditionResult::Gt));
    assert_eq!(ConditionResult::from_i32(2), Some(ConditionResult::Ge));
    assert_eq!(ConditionResult::from_i32(3), Some(ConditionResult::Lt));
    assert_eq!(ConditionResult::from_i32(4), Some(ConditionResult::Le));
    assert_eq!(ConditionResult::from_i32(5), Some(ConditionResult::Ne));
    assert_eq!(ConditionResult::from_i32(6), None);
    assert_eq!(ConditionResult::from_i32(-1), None);
    assert_eq!(ConditionResult::Ne.to_i32(), 5);
}

#[test]
fn seq_conditions_compare_numbers() {
    let sm = fresh();
    let v = SeqV { seq: 5, meta: None, data: vec![] };
    assert!(sm.return_seq_condition_result(0, &5, &v));
    assert!(!sm.return_seq_condition_result(0, &4, &v));
    assert!(sm.return_seq_condition_result(1, &4, &v));
    assert!(!sm.return_seq_condition_result(1, &5, &v));
    assert!(sm.return_seq_condition_result(2, &5, &v));
    assert!(!sm.return_seq_condition_result(2, &6, &v));
    assert!(sm.return_seq_condition_result(3, &6, &v));
    assert!(!sm.return_seq_condition_result(3, &5, &v));
    assert!(sm.return_seq_condition_result(4, &5, &v));
    assert!(!sm.return_seq_condition_result(4, &4, &v));
    assert!(sm.return_seq_condition_result(5, &4, &v));
    assert!(!sm.return_seq_condition_result(5, &5, &v));
    assert!(!sm.return_seq_condition_result(6, &5, &v));
    assert!(!sm.return_seq_condition_result(-3, &5, &v));
}

#[test]
fn value_conditions_compare_bytes_not_numbers() {
    let mut sm = fresh();
    sm.apply_at(&normal(1, put("k", "10")), 0);
    assert!(holds(&mut sm, 2, value_cond("k", ConditionResult::Lt, "9")));
    assert!(!holds(&mut sm, 3, value_cond("k", ConditionResult::Gt, "9")));
    assert!(holds(&mut sm, 4, value_cond("k", ConditionResult::Gt, "1")));
    assert!(holds(&mut sm, 5, value_cond("k", ConditionResult::Ge, "10")));
    assert!(holds(&mut sm, 6, value_cond("k", ConditionResult::Le, "10")));
    assert!(holds(&mut sm, 7, value_cond("k", ConditionResult::Eq, "10")));
    assert!(holds(&mut sm, 8, value_cond("k", ConditionResult::Ne, "1")));
    assert!(!holds(&mut sm, 9, value_cond("k", ConditionResult::Ne, "10")));
    assert!(!holds(&mut sm, 10, value_cond("k", ConditionResult::Le, "1")));
    assert!(holds(&mut sm, 11, value_cond("k", ConditionResult::Lt, "100")));
}

#[test]
fn value_condition_on_a_missing_key_fails_whatever_is_asked() {
    let mut sm = fresh();
    assert!(!holds(&mut sm, 1, value_cond("k", ConditionResult::Ne, "x")));
    assert!(!holds(&mut sm, 2, value_cond("k", ConditionResult::Eq, "")));
}

#[test]
fn seq_condition_on_a_missing_key_sees_zero() {
    let mut sm = fresh();
    assert!(holds(&mut sm, 1, seq_cond("k", ConditionResult::Eq, 0)));
    assert!(holds(&mut sm, 2, seq_cond("k", ConditionResult::Lt, 1)));
    assert!(!holds(&mut sm, 3, seq_cond("k", ConditionResult::Gt, 0)));
}

#[test]
fn unknown_condition_code_never_holds() {
    let mut sm = fresh();
    sm.apply_at(&normal(1, put("k", "v")), 0);
    let cond = TxnCondition { key: "k".to_string(), target: Target::SeqNum(1), expected: 17 };
    assert!(!holds(&mut sm, 2, cond));
}

#[test]
fn conditions_see_expired_records_as_absent() {
    let mut sm = fresh();
    let cmd = Cmd::UpsertKV {
        key: "k".to_string(),
        seq: MatchSeq::Any,
        value: Operation::Update(b"v".to_vec()),
        value_meta: Some(KVMeta { expire_at: Some(10) }),
    };
    sm.apply_at(&normal(1, cmd), 0);
    let at = |sm: &mut StateMachine, index: u64, now: u64| {
        reply(sm.apply_at(
            &normal(index, txn(vec![seq_cond("k", ConditionResult::Eq, 1)], vec![], vec![])),
            now,
        ))
        .success
    };
    assert!(at(&mut sm, 2, 9));
    assert!(!at(&mut sm, 3, 10));
}

#[test]
fn all_conditions_must_hold() {
    let mut sm = fresh();
    sm.apply_at(&normal(1, put("a", "1")), 0);
    let r = reply(sm.apply_at(
        &normal(
            2,
            txn(
                vec![
                    seq_cond("a", ConditionResult::Eq, 1),
                    seq_cond("b", ConditionResult::Eq, 1),
                ],
                vec![TxnOp::Put { key: "c".to_string(), value: b"then".to_vec(), prev_value: false }],
                vec![TxnOp::Put { key: "c".to_string(), value: b"else".to_vec(), prev_value: false }],
            ),
        ),
        0,
    ));
    assert!(!r.success);
    assert_eq!(sm.get_kv("c", 0).unwrap().data, b"else".to_vec());
}

#[test]
fn no_condition_means_the_first_branch() {
    let mut sm = fresh();
    let r = reply(sm.apply_at(
        &normal(1, txn(vec![], vec![TxnOp::Get { key: "a".to_string() }], vec![])),
        0,
    ));
    assert!(r.success);
    assert_eq!(r.error, "");
    assert_eq!(r.responses, vec![TxnOpResponse::Get { key: "a".to_string(), value: None }]);
}

#[test]
fn operations_run_in_order_and_each_reports() {
    let mut sm = fresh();
    sm.apply_at(&normal(1, put("a", "old")), 0);
    let ops = vec![
        TxnOp::Get { key: "a".to_string() },
        TxnOp::Put { key: "a".to_string(), value: b"new".to_vec(), prev_value: true },
        TxnOp::Put { key: "a".to_string(), value: b"newer".to_vec(), prev_value: false },
        TxnOp::Get { key: "a".to_string() },
        TxnOp::Delete { key: "a".to_string(), prev_value: true },
        TxnOp::Delete { key: "a".to_string(), prev_value: true },
        TxnOp::Delete { key: "b".to_string(), prev_value: false },
        TxnOp::Get { key: "a".to_string() },
    ];
    let r = reply(sm.apply_at(&normal(2, txn(vec![], ops, vec![])), 0));
    let pb = |seq: u64, data: &str| Some(PbSeqV { seq, data: data.as_bytes().to_vec() });
    assert_eq!(
        r.responses,
        vec![
            TxnOpResponse::Get { key: "a".to_string(), value: pb(1, "old") },
            TxnOpResponse::Put { key: "a".to_string(), prev_value: pb(1, "old") },
            TxnOpResponse::Put { key: "a".to_string(), prev_value: None },
            TxnOpResponse::Get { key: "a".to_string(), value: pb(3, "newer") },
            TxnOpResponse::Delete { key: "a".to_string(), success: true, prev_value: pb(3, "newer") },
            TxnOpResponse::Delete { key: "a".to_string(), success: false, prev_value: None },
            TxnOpResponse::Delete { key: "b".to_string(), success: false, prev_value: None },
            TxnOpResponse::Get { key: "a".to_string(), value: None },
        ]
    );
    assert_eq!(sm.sequences().get(b"generic-kv"), Some(&3));
}

#[test]
fn transaction_that_needs_more_numbers_than_are_left_changes_nothing() {
    let mut key = vec![1u8];
    key.extend_from_slice(b"generic-kv");
    let stored = SerializableSnapshot { kvs: vec![vec![key, (u64::MAX - 1).to_be_bytes().to_vec()]] };
    let mut sm = StateMachine::open(&stored).unwrap();
    let two = vec![
        TxnOp::Put { key: "a".to_string(), value: b"1".to_vec(), prev_value: false },
        TxnOp::Delete { key: "zz".to_string(), prev_value: false },
        TxnOp::Put { key: "b".to_string(), value: b"2".to_vec(), prev_value: false },
    ];
    let r = sm.apply_at(&normal(1, txn(vec![], two, vec![])), 0);
    assert_eq!(r, AppliedState::AppError(AppError::SequenceExhausted));
    assert_eq!(sm.get_kv("a", 0), None);
    assert_eq!(sm.sequences().get(b"generic-kv"), Some(&(u64::MAX - 1)));
    let one = vec![
        TxnOp::Get { key: "a".to_string() },
        TxnOp::Put { key: "a".to_string(), value: b"1".to_vec(), prev_value: false },
    ];
    let ok = reply(sm.apply_at(&normal(2, txn(vec![], one, vec![])), 0));
    assert!(ok.success);
    assert_eq!(sm.get_kv("a", 0).unwrap().seq, u64::MAX);
}

#[test]
fn reported_records_drop_the_meta() {
    let sv = SeqV { seq: 3, meta: Some(KVMeta { expire_at: Some(1) }), data: b"d".to_vec() };
    assert_eq!(PbSeqV::from_seqv(sv.clone()), PbSeqV { seq: 3, data: b"d".to_vec() });
    assert_eq!(PbSeqV::from_opt(Some(sv)), Some(PbSeqV { seq: 3, data: b"d".to_vec() }));
    assert_eq!(PbSeqV::from_opt(None), None);
}
