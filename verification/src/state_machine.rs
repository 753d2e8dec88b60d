//! The state machine: five keyspaces and the meta records, changed only by
//! applying log entries.

use vstd::prelude::*;
use vstd::string::StringSliceAdditionalSpecFns;
use crate::bytes::{
    clone_bytes, compare_bytes, u64_from_be_bytes, u64_to_be_bytes, Order,
};
use crate::clock::unix_seconds;
use crate::cmd::{
    clone_seqv_opt, result_view, AppError, AppliedState, Change, ClientLastRespValue, Cmd,
    EffectiveMembership, Entry, EntryPayload, LogEntry, MatchSeq, Operation,
};
use crate::codec::Codec;
use crate::journal::{
    lemma_physical_client, lemma_physical_initialized, lemma_physical_kv,
    lemma_physical_kv_removed, lemma_physical_last_applied, lemma_physical_membership,
    lemma_physical_node, lemma_physical_node_removed, lemma_physical_sequence,
    lemma_replay_push, note_put, note_remove, physical, replay, write_to, Stored, Write,
    WriteView,
};
use crate::keyspace::{sorted_keys, sorted_values, KeySpace};
use crate::model;
use crate::model::{generic_kv, node_key, op_view, str_key, StateView};
use crate::snapshot::{
    key_tail, put_pair, read_whole, META_INITIALIZED, META_LAST_APPLIED, META_LAST_MEMBERSHIP,
    PREFIX_CLIENT_LAST_RESPS, PREFIX_GENERIC_KV, PREFIX_META, PREFIX_NODES, PREFIX_SEQUENCES,
};
use crate::txn::{
    ConditionResult, PbSeqV, Target, TxnCondition, TxnOp, TxnOpResponse, TxnOpResponseView,
    TxnReply, TxnReplyView, TxnRequest,
};
use crate::types::{KVMeta, LogId, Node, SeqV};

verus! {

/// Is told of each change that an `UpsertKV` command makes to a key-value
/// record, after the entry that carried the command was applied.
pub trait StateMachineSubscriber: Send + Sync {
    fn kv_changed(&self, key: &str, prev: Option<SeqV<Vec<u8>>>, current: Option<SeqV<Vec<u8>>>);
}

/// A change of a key-value record that the subscriber is told of.
#[derive(Debug, PartialEq, Eq)]
pub struct KvChange {
    pub key: String,
    pub prev: Option<SeqV<Vec<u8>>>,
    pub current: Option<SeqV<Vec<u8>>>,
}

impl DeepView for KvChange {
    type V = model::KvChangeView;

    open spec fn deep_view(&self) -> model::KvChangeView {
        model::KvChangeView {
            key: self.key@,
            prev: self.prev.deep_view(),
            result: self.current.deep_view(),
        }
    }
}

impl View for KvChange {
    type V = model::KvChangeView;

    open spec fn view(&self) -> model::KvChangeView {
        self.deep_view()
    }
}

/// The records that the state machine keeps about itself.
#[derive(Debug, PartialEq, Eq)]
pub struct StateMachineMeta {
    /// Whether the machine has been opened before.
    pub initialized: bool,
    /// The position of the last applied log entry.
    pub last_applied: Option<LogId>,
    /// The last membership that the log introduced.
    pub last_membership: Option<EffectiveMembership>,
}

/// The replicated state machine.
pub struct StateMachine {
    meta: StateMachineMeta,
    sequences: KeySpace<u64>,
    nodes: KeySpace<Node>,
    kvs: KeySpace<SeqV<Vec<u8>>>,
    client_last_resps: KeySpace<ClientLastRespValue>,
    subscriber: Option<Box<dyn StateMachineSubscriber>>,
    /// The writes noted since the last batch was handed over.
    journal: Vec<Write>,
    /// The stored form of the state when the last batch was handed over.
    committed: Ghost<Stored>,
}

/// A change of the state that is one write to its stored form, noted after
/// the writes before it, keeps the writes in step with the state.
proof fn lemma_noted(
    committed: Stored,
    before: StateView,
    after: StateView,
    noted: Seq<WriteView>,
    w: WriteView,
)
    requires
        physical(before) == replay(committed, noted),
        physical(after) == write_to(physical(before), w),
    ensures
        physical(after) == replay(committed, noted.push(w)),
{
    lemma_replay_push(committed, noted, w);
}

impl View for StateMachine {
    type V = StateView;

    closed spec fn view(&self) -> StateView {
        StateView {
            initialized: self.meta.initialized,
            last_applied: self.meta.last_applied,
            last_membership: self.meta.last_membership.deep_view(),
            sequences: self.sequences@,
            nodes: self.nodes@,
            kvs: self.kvs@,
            client_last_resps: self.client_last_resps@,
        }
    }
}

impl StateMachine {
    /// Every keyspace is in order, and every key of a node is eight bytes long.
    pub closed spec fn ordered(&self) -> bool {
        &&& self.sequences.wf()
        &&& self.nodes.wf()
        &&& self.kvs.wf()
        &&& self.client_last_resps.wf()
        &&& forall|k: Seq<u8>| #[trigger] self.nodes@.contains_key(k) ==> k.len() == 8
    }

    /// The stored form of the state when the last batch was handed over.
    pub closed spec fn committed(&self) -> Stored {
        self.committed@
    }

    /// The writes noted since the last batch was handed over.
    pub closed spec fn pending(&self) -> Seq<WriteView> {
        self.journal.deep_view()
    }

    /// The subscriber that is told of changes, if one was set.
    pub closed spec fn subscriber(&self) -> Option<Box<dyn StateMachineSubscriber>> {
        self.subscriber
    }

    /// The keyspaces are in order, and the writes noted since the last batch
    /// was handed over lead from the stored form of then to that of now.
    pub closed spec fn wf(&self) -> bool {
        &&& self.ordered()
        &&& physical(self@) == replay(self.committed@, self.journal.deep_view())
    }

    /// The pending writes lead from the committed stored form to the stored
    /// form of the state.
    pub proof fn law_pending_writes(&self)
        requires
            self.wf(),
        ensures
            replay(self.committed(), self.pending()) == physical(self@),
    {
    }

    /// Hands over the writes noted since the last call: the batch that, once
    /// committed to the stored mapping, brings it in step with the state.
    pub fn take_batch(&mut self) -> (r: Vec<Write>)
        requires
            old(self).wf(),
        ensures
            final(self).wf(),
            final(self)@ == old(self)@,
            final(self).subscriber() == old(self).subscriber(),
            r.deep_view() == old(self).pending(),
            replay(old(self).committed(), r.deep_view()) == physical(old(self)@),
            final(self).committed() == physical(final(self)@),
            final(self).pending() == Seq::<WriteView>::empty(),
    {
        let mut batch: Vec<Write> = Vec::new();
        proof {
            assert(batch.deep_view() =~= Seq::<WriteView>::empty());
        }
        std::mem::swap(&mut self.journal, &mut batch);
        self.committed = Ghost(physical(self@));
        batch
    }

    /// The state of a well-formed machine is a valid state.
    pub proof fn lemma_valid(&self)
        requires
            self.wf(),
        ensures
            self@.valid(),
    {
        self.sequences.lemma_pairs();
        self.nodes.lemma_pairs();
        self.kvs.lemma_pairs();
        self.client_last_resps.lemma_pairs();
    }

    /// The record, unless it is hidden at time `now`: from the second at which
    /// it expires on, a record is not seen.
    pub fn unexpired_at<V>(seq_value: SeqV<V>, now: u64) -> (r: Option<SeqV<V>>)
        ensures
            r == model::unexpired(seq_value, now),
    {
        match seq_value.get_expire_at() {
            Some(t) => if now >= t {
                None
            } else {
                Some(seq_value)
            },
            None => Some(seq_value),
        }
    }

    /// [`StateMachine::unexpired_at`] of a record that may be absent.
    pub fn unexpired_opt_at<V>(seq_value: Option<SeqV<V>>, now: u64) -> (r: Option<SeqV<V>>)
        ensures
            r == model::unexpired_opt(seq_value, now),
    {
        match seq_value {
            Some(v) => Self::unexpired_at(v, now),
            None => None,
        }
    }

    /// The record, unless it is hidden at the time that the clock reads.
    pub fn unexpired<V>(seq_value: SeqV<V>) -> (r: Option<SeqV<V>>)
        ensures
            exists|now: u64| r == #[trigger] model::unexpired(seq_value, now),
    {
        let now = unix_seconds();
        let r = Self::unexpired_at(seq_value, now);
        assert(r == model::unexpired(seq_value, now));
        r
    }

    /// [`StateMachine::unexpired`] of a record that may be absent.
    pub fn unexpired_opt<V>(seq_value: Option<SeqV<V>>) -> (r: Option<SeqV<V>>)
        ensures
            exists|now: u64| r == #[trigger] model::unexpired_opt(seq_value, now),
    {
        let now = unix_seconds();
        let r = Self::unexpired_opt_at(seq_value, now);
        assert(r == model::unexpired_opt(seq_value, now));
        r
    }

    /// The record that a read of `key` at time `now` sees.
    pub fn get_kv(&self, key: &str, now: u64) -> (r: Option<SeqV<Vec<u8>>>)
        requires
            self.wf(),
        ensures
            r.deep_view() == self@.kv(str_key(key@), now),
    {
        let stored = match self.kvs.get(key.as_bytes()) {
            Some(v) => Some(v.clone()),
            None => None,
        };
        Self::unexpired_opt_at(stored, now)
    }

    /// Increments the counter `key` and returns its new value. A counter at
    /// `u64::MAX` stays as it is, and the call fails.
    fn txn_incr_seq(&mut self, key: &str) -> (r: Result<u64, AppError>)
        requires
            old(self).wf(),
        ensures
            final(self).wf(),
            final(self).committed() == old(self).committed(),
            final(self).subscriber() == old(self).subscriber(),
            match r {
                Ok(v) => {
                    &&& old(self)@.seq(str_key(key@)) < u64::MAX
                    &&& v == old(self)@.seq(str_key(key@)) + 1
                    &&& final(self)@ == old(self)@.incr_seq(str_key(key@))
                },
                Err(e) => {
                    &&& old(self)@.seq(str_key(key@)) == u64::MAX
                    &&& e == AppError::SequenceExhausted
                    &&& final(self)@ == old(self)@
                },
            },
    {
        let curr: u64 = match self.sequences.get(key.as_bytes()) {
            Some(v) => *v,
            None => 0,
        };
        if curr == u64::MAX {
            return Err(AppError::SequenceExhausted);
        }
        let next: u64 = curr + 1;
        let ghost before = self@;
        let ghost noted = self.journal.deep_view();
        self.sequences.insert(clone_bytes(key.as_bytes()), next);
        note_put::<u64>(&mut self.journal, PREFIX_SEQUENCES, key.as_bytes(), &next);
        proof {
            lemma_physical_sequence(before, str_key(key@), next);
            lemma_noted(
                self.committed@,
                before,
                self@,
                noted,
                WriteView { key: seq![PREFIX_SEQUENCES] + str_key(key@), value: Some(u64::enc(next)) },
            );
        }
        Ok(next)
    }

    /// Writes `value_op` to `key` without looking at the sequence number of the
    /// record that is there; `prev` is the record seen at the key.
    fn txn_sub_tree_do_update(
        &mut self,
        key: &str,
        prev: Option<SeqV<Vec<u8>>>,
        value_meta: Option<KVMeta>,
        value_op: Operation<Vec<u8>>,
    ) -> (r: Result<Option<SeqV<Vec<u8>>>, AppError>)
        requires
            old(self).wf(),
        ensures
            final(self).wf(),
            final(self).committed() == old(self).committed(),
            final(self).subscriber() == old(self).subscriber(),
            match r {
                Ok(result) => {
                    let u = model::upsert_matched(
                        old(self)@,
                        str_key(key@),
                        prev.deep_view(),
                        op_view(value_op),
                        value_meta,
                    );
                    &&& !model::update_exhausted(old(self)@, prev.deep_view(), op_view(value_op))
                    &&& final(self)@ == u.state
                    &&& result.deep_view() == u.result
                },
                Err(e) => {
                    &&& model::update_exhausted(old(self)@, prev.deep_view(), op_view(value_op))
                    &&& e == AppError::SequenceExhausted
                    &&& final(self)@ == old(self)@
                },
            },
    {
        let mut seq_kv_value = match value_op {
            Operation::Update(v) => SeqV::with_meta(0, value_meta, v),
            Operation::Delete => {
                let ghost before = self@;
                let ghost noted = self.journal.deep_view();
                self.kvs.remove(key.as_bytes());
                note_remove(&mut self.journal, PREFIX_GENERIC_KV, key.as_bytes());
                proof {
                    lemma_physical_kv_removed(before, str_key(key@));
                    lemma_noted(
                        self.committed@,
                        before,
                        self@,
                        noted,
                        WriteView { key: seq![PREFIX_GENERIC_KV] + str_key(key@), value: None },
                    );
                }
                return Ok(None);
            },
            Operation::AsIs => match prev {
                None => {
                    return Ok(None);
                },
                Some(prev_kv_value) => prev_kv_value.set_meta(value_meta),
            },
        };
        seq_kv_value.seq = self.txn_incr_seq("generic-kv")?;
        let ghost before = self@;
        let ghost noted = self.journal.deep_view();
        self.kvs.insert(clone_bytes(key.as_bytes()), seq_kv_value.clone());
        note_put::<SeqV<Vec<u8>>>(
            &mut self.journal,
            PREFIX_GENERIC_KV,
            key.as_bytes(),
            &seq_kv_value,
        );
        proof {
            lemma_physical_kv(before, str_key(key@), seq_kv_value@);
            lemma_noted(
                self.committed@,
                before,
                self@,
                noted,
                WriteView {
                    key: seq![PREFIX_GENERIC_KV] + str_key(key@),
                    value: Some(<SeqV<Vec<u8>>>::enc(seq_kv_value@)),
                },
            );
        }
        Ok(Some(seq_kv_value))
    }

    /// A write to the key-value records: see [`model::upsert`]. Returns the
    /// record seen before and the record after. A write that would take a
    /// sequence number when none is left fails and changes nothing.
    fn txn_sub_tree_upsert(
        &mut self,
        key: &str,
        seq: &MatchSeq,
        value_op: Operation<Vec<u8>>,
        value_meta: Option<KVMeta>,
        now: u64,
    ) -> (r: Result<(Option<SeqV<Vec<u8>>>, Option<SeqV<Vec<u8>>>), AppError>)
        requires
            old(self).wf(),
        ensures
            final(self).wf(),
            final(self).committed() == old(self).committed(),
            final(self).subscriber() == old(self).subscriber(),
            match r {
                Ok(pair) => {
                    let u = model::upsert(
                        old(self)@,
                        str_key(key@),
                        *seq,
                        op_view(value_op),
                        value_meta,
                        now,
                    );
                    &&& !model::upsert_exhausted(
                        old(self)@,
                        str_key(key@),
                        *seq,
                        op_view(value_op),
                        now,
                    )
                    &&& final(self)@ == u.state
                    &&& pair.0.deep_view() == u.prev
                    &&& pair.1.deep_view() == u.result
                },
                Err(e) => {
                    &&& model::upsert_exhausted(
                        old(self)@,
                        str_key(key@),
                        *seq,
                        op_view(value_op),
                        now,
                    )
                    &&& e == AppError::SequenceExhausted
                    &&& final(self)@ == old(self)@
                },
            },
    {
        let prev = self.get_kv(key, now);
        if !seq.match_seq(&prev) {
            let same = clone_seqv_opt(&prev);
            return Ok((prev, same));
        }
        let result = self.txn_sub_tree_do_update(
            key,
            clone_seqv_opt(&prev),
            value_meta,
            value_op,
        )?;
        Ok((prev, result))
    }
}

/// Node commands.
impl StateMachine {
    /// The node registered under `node_id`.
    pub fn get_node(&self, node_id: &u64) -> (r: Option<Node>)
        requires
            self.wf(),
        ensures
            r.deep_view() == self@.node(*node_id),
    {
        let key = u64_to_be_bytes(*node_id);
        match self.nodes.get(key.as_slice()) {
            Some(n) => Some(n.clone()),
            None => None,
        }
    }

    /// Registers `node` under `node_id` unless a node is registered there
    /// already; then nothing changes, and the response shows the node that is
    /// there and no result.
    fn apply_add_node_cmd(&mut self, node_id: &u64, node: &Node) -> (r: Result<
        AppliedState,
        AppError,
    >)
        requires
            old(self).wf(),
        ensures
            final(self).wf(),
            final(self).committed() == old(self).committed(),
            final(self).subscriber() == old(self).subscriber(),
            r matches Ok(a) && {
                let o = model::add_node(old(self)@, *node_id, node@);
                final(self)@ == o.state && a@ == o.response
            },
    {
        let prev = self.get_node(node_id);
        if prev.is_some() {
            Ok(AppliedState::Node { prev, result: None })
        } else {
            let ghost before = self@;
            let ghost noted = self.journal.deep_view();
            let key = u64_to_be_bytes(*node_id);
            note_put::<Node>(&mut self.journal, PREFIX_NODES, key.as_slice(), node);
            self.nodes.insert(key, node.clone());
            proof {
                lemma_physical_node(before, node_key(*node_id), node@);
                lemma_noted(
                    self.committed@,
                    before,
                    self@,
                    noted,
                    WriteView {
                        key: seq![PREFIX_NODES] + node_key(*node_id),
                        value: Some(Node::enc(node@)),
                    },
                );
            }
            Ok(AppliedState::Node { prev, result: Some(node.clone()) })
        }
    }

    /// Takes the node registered under `node_id` out, if there is one.
    fn apply_remove_node_cmd(&mut self, node_id: &u64) -> (r: Result<AppliedState, AppError>)
        requires
            old(self).wf(),
        ensures
            final(self).wf(),
            final(self).committed() == old(self).committed(),
            final(self).subscriber() == old(self).subscriber(),
            r matches Ok(a) && {
                let o = model::remove_node(old(self)@, *node_id);
                final(self)@ == o.state && a@ == o.response
            },
    {
        let prev = self.get_node(node_id);
        if prev.is_some() {
            let ghost before = self@;
            let ghost noted = self.journal.deep_view();
            let key = u64_to_be_bytes(*node_id);
            self.nodes.remove(key.as_slice());
            note_remove(&mut self.journal, PREFIX_NODES, key.as_slice());
            proof {
                lemma_physical_node_removed(before, node_key(*node_id));
                lemma_noted(
                    self.committed@,
                    before,
                    self@,
                    noted,
                    WriteView { key: seq![PREFIX_NODES] + node_key(*node_id), value: None },
                );
            }
        } else {
            proof {
                assert(self@.nodes.remove(node_key(*node_id)) =~= self@.nodes);
            }
        }
        Ok(AppliedState::Node { prev, result: None })
    }

    /// Increments the counter `key` and answers with its new value.
    fn apply_incr_seq_cmd(&mut self, key: &str) -> (r: Result<AppliedState, AppError>)
        requires
            old(self).wf(),
        ensures
            final(self).wf(),
            final(self).committed() == old(self).committed(),
            final(self).subscriber() == old(self).subscriber(),
            match r {
                Ok(a) => {
                    &&& old(self)@.seq(str_key(key@)) < u64::MAX
                    &&& final(self)@ == old(self)@.incr_seq(str_key(key@))
                    &&& a@ == (crate::cmd::AppliedStateView::SeqNum {
                        seq: (old(self)@.seq(str_key(key@)) + 1) as u64,
                    })
                },
                Err(e) => {
                    &&& old(self)@.seq(str_key(key@)) == u64::MAX
                    &&& e == AppError::SequenceExhausted
                    &&& final(self)@ == old(self)@
                },
            },
    {
        let r = self.txn_incr_seq(key)?;
        Ok(AppliedState::SeqNum { seq: r })
    }

    /// Writes to one key-value record and answers with the record seen before
    /// and the record after.
    fn apply_update_kv_cmd(
        &mut self,
        key: &str,
        seq: &MatchSeq,
        value_op: &Operation<Vec<u8>>,
        value_meta: &Option<KVMeta>,
        now: u64,
    ) -> (r: Result<AppliedState, AppError>)
        requires
            old(self).wf(),
        ensures
            final(self).wf(),
            final(self).committed() == old(self).committed(),
            final(self).subscriber() == old(self).subscriber(),
            match r {
                Ok(a) => {
                    let u = model::upsert(
                        old(self)@,
                        str_key(key@),
                        *seq,
                        op_view(*value_op),
                        *value_meta,
                        now,
                    );
                    &&& !model::upsert_exhausted(
                        old(self)@,
                        str_key(key@),
                        *seq,
                        op_view(*value_op),
                        now,
                    )
                    &&& final(self)@ == u.state
                    &&& a@ == crate::cmd::AppliedStateView::KV(
                        Change { prev: u.prev, result: u.result },
                    )
                },
                Err(e) => {
                    &&& model::upsert_exhausted(
                        old(self)@,
                        str_key(key@),
                        *seq,
                        op_view(*value_op),
                        now,
                    )
                    &&& e == AppError::SequenceExhausted
                    &&& final(self)@ == old(self)@
                },
            },
    {
        let op = match value_op {
            Operation::Update(v) => Operation::Update(v.clone()),
            Operation::Delete => Operation::Delete,
            Operation::AsIs => Operation::AsIs,
        };
        let (prev, result) = self.txn_sub_tree_upsert(key, seq, op, *value_meta, now)?;
        Ok(AppliedState::KV(Change::new(prev, result)))
    }
}

/// The number of `Put` operations in a list.
fn count_puts(ops: &Vec<TxnOp>) -> (n: usize)
    ensures
        n == model::count_puts(ops@),
{
    let mut n: usize = 0;
    let mut i: usize = 0;
    while i < ops.len()
        invariant
            i <= ops.len(),
            n <= i,
            n == model::count_puts(ops@.subrange(0, i as int)),
        decreases ops.len() - i,
    {
        proof {
            model::lemma_count_puts_step(ops@, i as int);
        }
        match &ops[i] {
            TxnOp::Put { .. } => {
                n += 1;
            },
            _ => {},
        }
        i += 1;
    }
    proof {
        assert(ops@.subrange(0, i as int) =~= ops@);
    }
    n
}

/// Transactions.
impl StateMachine {
    /// Whether the bytes of `value` relate to `target_value` as `expected`
    /// asks, in the lexicographic order of bytes.
    fn return_value_condition_result(
        &self,
        expected: i32,
        target_value: &Vec<u8>,
        value: &SeqV<Vec<u8>>,
    ) -> (r: bool)
        ensures
            r == model::value_condition(expected, target_value@, value.data@),
    {
        let order = compare_bytes(value.data.as_slice(), target_value.as_slice());
        match ConditionResult::from_i32(expected) {
            Some(ConditionResult::Eq) => matches!(order, Order::Equal),
            Some(ConditionResult::Gt) => matches!(order, Order::Greater),
            Some(ConditionResult::Lt) => matches!(order, Order::Less),
            Some(ConditionResult::Ne) => !matches!(order, Order::Equal),
            Some(ConditionResult::Ge) => !matches!(order, Order::Less),
            Some(ConditionResult::Le) => !matches!(order, Order::Greater),
            None => false,
        }
    }

    /// Whether the sequence number of `value` relates to `target_seq` as
    /// `expected` asks.
    pub fn return_seq_condition_result(
        &self,
        expected: i32,
        target_seq: &u64,
        value: &SeqV<Vec<u8>>,
    ) -> (r: bool)
        ensures
            r == model::seq_condition(expected, *target_seq, value.seq),
    {
        match ConditionResult::from_i32(expected) {
            Some(ConditionResult::Eq) => value.seq == *target_seq,
            Some(ConditionResult::Gt) => value.seq > *target_seq,
            Some(ConditionResult::Lt) => value.seq < *target_seq,
            Some(ConditionResult::Ne) => value.seq != *target_seq,
            Some(ConditionResult::Ge) => value.seq >= *target_seq,
            Some(ConditionResult::Le) => value.seq <= *target_seq,
            None => false,
        }
    }

    /// Whether one condition holds of the record seen at its key.
    fn txn_execute_one_condition(&self, cond: &TxnCondition, now: u64) -> (r: bool)
        requires
            self.wf(),
        ensures
            r == model::condition_holds(self@, *cond, now),
    {
        let sv = self.get_kv(cond.key.as_str(), now);
        match &cond.target {
            Target::SeqNum(target_seq) => {
                let seen = match sv {
                    Some(v) => v,
                    None => SeqV::with_meta(0, None, Vec::new()),
                };
                self.return_seq_condition_result(cond.expected, target_seq, &seen)
            },
            Target::Value(target_value) => match sv {
                Some(v) => self.return_value_condition_result(cond.expected, target_value, &v),
                None => false,
            },
        }
    }

    /// Whether every condition holds.
    fn txn_execute_condition(&self, condition: &Vec<TxnCondition>, now: u64) -> (r: bool)
        requires
            self.wf(),
        ensures
            r == model::conditions_hold(self@, condition@, now),
    {
        let mut i: usize = 0;
        while i < condition.len()
            invariant
                self.wf(),
                i <= condition.len(),
                forall|j: int| 0 <= j < i ==> model::condition_holds(self@, #[trigger] condition@[j], now),
            decreases condition.len() - i,
        {
            if !self.txn_execute_one_condition(&condition[i], now) {
                return false;
            }
            i += 1;
        }
        true
    }

    /// Reads the record seen at `key` and reports it.
    fn txn_execute_get_operation(&self, key: &String, resp: &mut TxnReply, now: u64)
        requires
            self.wf(),
        ensures
            final(resp)@ == model::with_response(
                old(resp)@,
                model::op_response(self@, TxnOp::Get { key: *key }, now),
            ),
    {
        let sv = self.get_kv(key.as_str(), now);
        let value = PbSeqV::from_opt(sv);
        let ghost before = resp.responses.deep_view();
        resp.responses.push(TxnOpResponse::Get { key: key.clone(), value });
        proof {
            assert(resp.responses.deep_view() =~= before.push(
                model::op_response(self@, TxnOp::Get { key: *key }, now),
            ));
        }
    }

    /// Stores `value` under `key`, whatever is there, and reports the record
    /// seen before if `prev_value` asks for it.
    fn txn_execute_put_operation(
        &mut self,
        key: &String,
        value: &Vec<u8>,
        prev_value: bool,
        resp: &mut TxnReply,
        now: u64,
    ) -> (r: Result<(), AppError>)
        requires
            old(self).wf(),
        ensures
            final(self).wf(),
            final(self).committed() == old(self).committed(),
            final(self).subscriber() == old(self).subscriber(),
            match r {
                Ok(_) => {
                    let op = TxnOp::Put { key: *key, value: *value, prev_value };
                    &&& old(self)@.seq(generic_kv()) < u64::MAX
                    &&& final(self)@ == model::op_state(old(self)@, op, now)
                    &&& final(resp)@ == model::with_response(
                        old(resp)@,
                        model::op_response(old(self)@, op, now),
                    )
                },
                Err(e) => {
                    &&& old(self)@.seq(generic_kv()) == u64::MAX
                    &&& e == AppError::SequenceExhausted
                    &&& final(self)@ == old(self)@
                    &&& final(resp)@ == old(resp)@
                },
            },
    {
        let ghost op = TxnOp::Put { key: *key, value: *value, prev_value };
        let (prev, _result) = self.txn_sub_tree_upsert(
            key.as_str(),
            &MatchSeq::Any,
            Operation::Update(value.clone()),
            None,
            now,
        )?;
        let reported = if prev_value {
            PbSeqV::from_opt(prev)
        } else {
            None
        };
        let ghost before = resp.responses.deep_view();
        resp.responses.push(TxnOpResponse::Put { key: key.clone(), prev_value: reported });
        proof {
            assert(resp.responses.deep_view() =~= before.push(
                model::op_response(old(self)@, op, now),
            ));
        }
        Ok(())
    }

    /// Removes what is stored under `key` and reports whether a record was seen
    /// there, and the record itself if `prev_value` asks for it.
    fn txn_execute_delete_operation(
        &mut self,
        key: &String,
        prev_value: bool,
        resp: &mut TxnReply,
        now: u64,
    ) -> (r: Result<(), AppError>)
        requires
            old(self).wf(),
        ensures
            final(self).wf(),
            final(self).committed() == old(self).committed(),
            final(self).subscriber() == old(self).subscriber(),
            r is Ok,
            final(self)@ == model::op_state(old(self)@, TxnOp::Delete { key: *key, prev_value }, now),
            final(resp)@ == model::with_response(
                old(resp)@,
                model::op_response(old(self)@, TxnOp::Delete { key: *key, prev_value }, now),
            ),
    {
        let ghost op = TxnOp::Delete { key: *key, prev_value };
        let (prev, _result) = self.txn_sub_tree_upsert(
            key.as_str(),
            &MatchSeq::Any,
            Operation::Delete,
            None,
            now,
        )?;
        let success = prev.is_some();
        let reported = if prev_value {
            PbSeqV::from_opt(prev)
        } else {
            None
        };
        let ghost before = resp.responses.deep_view();
        resp.responses.push(
            TxnOpResponse::Delete { key: key.clone(), success, prev_value: reported },
        );
        proof {
            assert(resp.responses.deep_view() =~= before.push(
                model::op_response(old(self)@, op, now),
            ));
        }
        Ok(())
    }

    /// Runs one operation of a transaction and appends its outcome to `resp`.
    /// Only a `Put` can fail, when no sequence number is left; then nothing
    /// changes.
    fn txn_execute_operation(&mut self, op: &TxnOp, resp: &mut TxnReply, now: u64) -> (r: Result<
        (),
        AppError,
    >)
        requires
            old(self).wf(),
        ensures
            final(self).wf(),
            final(self).committed() == old(self).committed(),
            final(self).subscriber() == old(self).subscriber(),
            match r {
                Ok(_) => {
                    &&& op is Put ==> old(self)@.seq(generic_kv()) < u64::MAX
                    &&& final(self)@ == model::op_state(old(self)@, *op, now)
                    &&& final(resp)@ == model::with_response(
                        old(resp)@,
                        model::op_response(old(self)@, *op, now),
                    )
                },
                Err(e) => {
                    &&& op is Put
                    &&& old(self)@.seq(generic_kv()) == u64::MAX
                    &&& e == AppError::SequenceExhausted
                    &&& final(self)@ == old(self)@
                    &&& final(resp)@ == old(resp)@
                },
            },
    {
        match op {
            TxnOp::Get { key } => {
                self.txn_execute_get_operation(key, resp, now);
                Ok(())
            },
            TxnOp::Put { key, value, prev_value } => self.txn_execute_put_operation(
                key,
                value,
                *prev_value,
                resp,
                now,
            ),
            TxnOp::Delete { key, prev_value } => self.txn_execute_delete_operation(
                key,
                *prev_value,
                resp,
                now,
            ),
        }
    }

    /// Runs a transaction: the first list of operations if every condition
    /// holds, the second otherwise. A transaction whose branch holds more
    /// `Put` operations than sequence numbers are left fails as a whole and
    /// changes nothing.
    fn apply_txn_cmd(&mut self, req: &TxnRequest, now: u64) -> (r: Result<AppliedState, AppError>)
        requires
            old(self).wf(),
        ensures
            final(self).wf(),
            final(self).committed() == old(self).committed(),
            final(self).subscriber() == old(self).subscriber(),
            match r {
                Ok(a) => {
                    let o = model::cmd_effect(old(self)@, Cmd::Transaction(*req), now);
                    &&& !model::txn_exhausted(old(self)@, *req, now)
                    &&& final(self)@ == o.state
                    &&& a@ == o.response
                },
                Err(e) => {
                    &&& model::txn_exhausted(old(self)@, *req, now)
                    &&& e == AppError::SequenceExhausted
                    &&& final(self)@ == old(self)@
                },
            },
    {
        let success = self.txn_execute_condition(&req.condition, now);
        let ops: &Vec<TxnOp> = if success {
            &req.if_then
        } else {
            &req.else_then
        };
        let counter: u64 = match self.sequences.get("generic-kv".as_bytes()) {
            Some(v) => *v,
            None => 0,
        };
        let needed = count_puts(ops);
        if needed as u64 > u64::MAX - counter {
            return Err(AppError::SequenceExhausted);
        }
        let mut resp = TxnReply { success, error: String::new(), responses: Vec::new() };
        let ghost s0 = self@;
        proof {
            assert(resp.responses.deep_view() =~= Seq::<TxnOpResponseView>::empty());
            assert(ops@.subrange(0, 0) =~= Seq::<TxnOp>::empty());
        }
        let mut i: usize = 0;
        while i < ops.len()
            invariant
                self.wf(),
                self.committed() == old(self).committed(),
                self.subscriber() == old(self).subscriber(),
                i <= ops.len(),
                self@ == model::run_ops(s0, ops@.subrange(0, i as int), now).state,
                resp@ == (TxnReplyView {
                    success,
                    error: Seq::<char>::empty(),
                    responses: model::run_ops(s0, ops@.subrange(0, i as int), now).responses,
                }),
                self@.seq(generic_kv()) == s0.seq(generic_kv()) + model::count_puts(
                    ops@.subrange(0, i as int),
                ),
                s0.seq(generic_kv()) + model::count_puts(ops@) <= u64::MAX,
            decreases ops.len() - i,
        {
            proof {
                model::lemma_run_ops_step(s0, ops@, i as int, now);
                model::lemma_count_puts_step(ops@, i as int);
                model::lemma_count_puts_prefix(ops@, i + 1);
                model::lemma_op_state_seq(self@, ops@[i as int], now);
            }
            match self.txn_execute_operation(&ops[i], &mut resp, now) {
                Ok(_) => {},
                Err(e) => {
                    return Err(e);
                },
            }
            i += 1;
        }
        proof {
            assert(ops@.subrange(0, i as int) =~= ops@);
        }
        Ok(AppliedState::TxnReply(resp))
    }

    /// Applies a command at the time that the clock reads: see
    /// [`StateMachine::apply_cmd_at`].
    pub fn apply_cmd(&mut self, cmd: &Cmd) -> (r: Result<AppliedState, AppError>)
        requires
            old(self).wf(),
        ensures
            final(self).wf(),
            final(self).committed() == old(self).committed(),
            final(self).subscriber() == old(self).subscriber(),
            exists|now: u64| #[trigger]
                model::cmd_applied_at(old(self)@, *cmd, now, final(self)@, result_view(r)),
    {
        let now = unix_seconds();
        let r = self.apply_cmd_at(cmd, now);
        assert(model::cmd_applied_at(old(self)@, *cmd, now, self@, result_view(r)));
        r
    }

    /// Applies a command at time `now`. A command that needs a sequence number
    /// when none is left fails and changes nothing.
    pub fn apply_cmd_at(&mut self, cmd: &Cmd, now: u64) -> (r: Result<AppliedState, AppError>)
        requires
            old(self).wf(),
        ensures
            final(self).wf(),
            final(self).committed() == old(self).committed(),
            final(self).subscriber() == old(self).subscriber(),
            match r {
                Ok(a) => {
                    let o = model::cmd_effect(old(self)@, *cmd, now);
                    &&& !model::cmd_exhausted(old(self)@, *cmd, now)
                    &&& final(self)@ == o.state
                    &&& a@ == o.response
                },
                Err(e) => {
                    &&& model::cmd_exhausted(old(self)@, *cmd, now)
                    &&& e == AppError::SequenceExhausted
                    &&& final(self)@ == old(self)@
                },
            },
    {
        match cmd {
            Cmd::IncrSeq { key } => self.apply_incr_seq_cmd(key.as_str()),
            Cmd::AddNode { node_id, node } => self.apply_add_node_cmd(node_id, node),
            Cmd::RemoveNode { node_id } => self.apply_remove_node_cmd(node_id),
            Cmd::UpsertKV { key, seq, value, value_meta } => self.apply_update_kv_cmd(
                key.as_str(),
                seq,
                value,
                value_meta,
                now,
            ),
            Cmd::Transaction(txn) => self.apply_txn_cmd(txn, now),
        }
    }
}

/// Applying log entries.
impl StateMachine {
    /// The last response recorded for the client `key`: its serial and the
    /// response. For a client never seen, serial 0 and an empty response.
    pub fn txn_get_client_last_resp(&self, key: &str) -> (r: (u64, AppliedState))
        requires
            self.wf(),
        ensures
            (r.0, r.1@) == model::last_resp_or_default(self@, key@),
    {
        match self.client_last_resps.get(key.as_bytes()) {
            Some(resp) => (resp.req_serial_num, resp.res.clone()),
            None => (0, AppliedState::Empty),
        }
    }

    /// As [`StateMachine::txn_get_client_last_resp`]; the answer is never `None`.
    pub fn get_client_last_resp(&self, key: &str) -> (r: Option<(u64, AppliedState)>)
        requires
            self.wf(),
        ensures
            r matches Some(p) && (p.0, p.1@) == model::last_resp_or_default(self@, key@),
    {
        Some(self.txn_get_client_last_resp(key))
    }

    /// Records `value` as the last serial and response of the client `key`,
    /// and hands the response back.
    fn txn_client_last_resp_update(&mut self, key: &str, value: (u64, AppliedState)) -> (r:
        AppliedState)
        requires
            old(self).wf(),
        ensures
            final(self).wf(),
            final(self).committed() == old(self).committed(),
            final(self).subscriber() == old(self).subscriber(),
            r@ == value.1@,
            final(self)@ == (StateView {
                client_last_resps: old(self)@.client_last_resps.insert(
                    str_key(key@),
                    crate::cmd::ClientLastRespView { req_serial_num: value.0, res: value.1@ },
                ),
                ..old(self)@
            }),
    {
        let v = ClientLastRespValue { req_serial_num: value.0, res: value.1.clone() };
        let ghost before = self@;
        let ghost noted = self.journal.deep_view();
        note_put::<ClientLastRespValue>(
            &mut self.journal,
            PREFIX_CLIENT_LAST_RESPS,
            key.as_bytes(),
            &v,
        );
        proof {
            lemma_physical_client(before, str_key(key@), v@);
        }
        self.client_last_resps.insert(clone_bytes(key.as_bytes()), v);
        proof {
            lemma_noted(
                self.committed@,
                before,
                self@,
                noted,
                WriteView {
                    key: seq![PREFIX_CLIENT_LAST_RESPS] + str_key(key@),
                    value: Some(
                        ClientLastRespValue::enc(
                            crate::cmd::ClientLastRespView {
                                req_serial_num: value.0,
                                res: value.1@,
                            },
                        ),
                    ),
                },
            );
        }
        value.1
    }

    /// The change that the subscriber is to be told of after `cmd` was answered
    /// with `applied`.
    fn change_of(cmd: &Cmd, applied: &AppliedState) -> (r: Option<KvChange>)
        ensures
            r.deep_view() == match (*cmd, applied@) {
                (Cmd::UpsertKV { key, seq, value, value_meta }, crate::cmd::AppliedStateView::KV(c)) => Some(
                    model::KvChangeView { key: key@, prev: c.prev, result: c.result },
                ),
                _ => None,
            },
    {
        match cmd {
            Cmd::UpsertKV { key, .. } => match applied {
                AppliedState::KV(c) => Some(
                    KvChange {
                        key: key.clone(),
                        prev: clone_seqv_opt(&c.prev),
                        current: clone_seqv_opt(&c.result),
                    },
                ),
                _ => None,
            },
            _ => None,
        }
    }

    /// Applies what a normal entry carries: see [`model::apply_normal`].
    fn apply_normal(&mut self, data: &LogEntry, now: u64) -> (r: (AppliedState, Option<KvChange>))
        requires
            old(self).wf(),
        ensures
            final(self).wf(),
            final(self).committed() == old(self).committed(),
            final(self).subscriber() == old(self).subscriber(),
            final(self)@ == model::apply_normal(old(self)@, *data, now).state,
            r.0@ == model::apply_normal(old(self)@, *data, now).response,
            r.1.deep_view() == model::normal_notice(old(self)@, *data, now),
    {
        match &data.txid {
            Some(txid) => match self.client_last_resps.get(txid.client.as_str().as_bytes()) {
                Some(last) => {
                    if last.req_serial_num == txid.serial {
                        return (last.res.clone(), None);
                    }
                },
                None => {},
            },
            None => {},
        }
        let (applied_state, change) = match self.apply_cmd_at(&data.cmd, now) {
            Ok(a) => {
                let change = Self::change_of(&data.cmd, &a);
                (a, change)
            },
            Err(e) => (AppliedState::AppError(e), None),
        };
        match &data.txid {
            Some(txid) => {
                let kept = applied_state.clone();
                self.txn_client_last_resp_update(txid.client.as_str(), (txid.serial, kept));
            },
            None => {},
        }
        (applied_state, change)
    }

    /// Records the position of the last applied entry.
    fn set_last_applied(&mut self, log_id: LogId)
        requires
            old(self).wf(),
        ensures
            final(self).wf(),
            final(self).committed() == old(self).committed(),
            final(self).subscriber() == old(self).subscriber(),
            final(self)@ == (StateView { last_applied: Some(log_id), ..old(self)@ }),
    {
        let ghost before = self@;
        let ghost noted = self.journal.deep_view();
        let mut tag: Vec<u8> = Vec::new();
        tag.push(META_LAST_APPLIED);
        self.meta.last_applied = Some(log_id);
        note_put::<LogId>(&mut self.journal, PREFIX_META, tag.as_slice(), &log_id);
        proof {
            assert(tag@ =~= seq![META_LAST_APPLIED]);
            lemma_physical_last_applied(before, log_id);
            lemma_noted(
                self.committed@,
                before,
                self@,
                noted,
                WriteView {
                    key: seq![PREFIX_META] + seq![META_LAST_APPLIED],
                    value: Some(LogId::enc(log_id)),
                },
            );
        }
    }

    /// Records the last membership.
    fn set_last_membership(&mut self, membership: EffectiveMembership)
        requires
            old(self).wf(),
        ensures
            final(self).wf(),
            final(self).committed() == old(self).committed(),
            final(self).subscriber() == old(self).subscriber(),
            final(self)@ == (StateView { last_membership: Some(membership@), ..old(self)@ }),
    {
        let ghost before = self@;
        let ghost noted = self.journal.deep_view();
        let mut tag: Vec<u8> = Vec::new();
        tag.push(META_LAST_MEMBERSHIP);
        note_put::<EffectiveMembership>(&mut self.journal, PREFIX_META, tag.as_slice(), &membership);
        self.meta.last_membership = Some(membership);
        proof {
            assert(tag@ =~= seq![META_LAST_MEMBERSHIP]);
            lemma_physical_membership(before, membership@);
            lemma_noted(
                self.committed@,
                before,
                self@,
                noted,
                WriteView {
                    key: seq![PREFIX_META] + seq![META_LAST_MEMBERSHIP],
                    value: Some(EffectiveMembership::enc(membership@)),
                },
            );
        }
    }

    /// Applies one log entry at time `now` and returns the response together
    /// with the change that the subscriber is to be told of, without telling it.
    pub fn apply_entry(&mut self, entry: &Entry, now: u64) -> (r: (AppliedState, Option<KvChange>))
        requires
            old(self).wf(),
        ensures
            final(self).wf(),
            final(self).committed() == old(self).committed(),
            final(self).subscriber() == old(self).subscriber(),
            final(self)@ == model::apply(old(self)@, *entry, now).state,
            r.0@ == model::apply(old(self)@, *entry, now).response,
            r.1.deep_view() == model::notice(old(self)@, *entry, now),
    {
        self.set_last_applied(entry.log_id);
        match &entry.payload {
            EntryPayload::Blank => (AppliedState::Empty, None),
            EntryPayload::Normal(data) => self.apply_normal(data, now),
            EntryPayload::Membership(mem) => {
                self.set_last_membership(
                    EffectiveMembership { log_id: entry.log_id, membership: mem.clone() },
                );
                (AppliedState::Empty, None)
            },
        }
    }

    /// Applies one log entry at the time that the clock reads: see
    /// [`StateMachine::apply_at`].
    pub fn apply(&mut self, entry: &Entry) -> (r: AppliedState)
        requires
            old(self).wf(),
        ensures
            final(self).wf(),
            final(self).committed() == old(self).committed(),
            final(self).subscriber() == old(self).subscriber(),
            exists|now: u64| #[trigger] model::applied_at(old(self)@, *entry, now, final(self)@, r@),
    {
        let now = unix_seconds();
        let r = self.apply_at(entry, now);
        assert(model::applied_at(old(self)@, *entry, now, self@, r@));
        r
    }

    /// Applies one log entry at time `now`.
    ///
    /// The entry's position becomes the last applied one. A request that was
    /// answered before is answered again from the record and changes nothing
    /// else. After the state has changed, the subscriber, if there is one, is
    /// told of the change that an `UpsertKV` command made.
    pub fn apply_at(&mut self, entry: &Entry, now: u64) -> (r: AppliedState)
        requires
            old(self).wf(),
        ensures
            final(self).wf(),
            final(self).committed() == old(self).committed(),
            final(self).subscriber() == old(self).subscriber(),
            final(self)@ == model::apply(old(self)@, *entry, now).state,
            r@ == model::apply(old(self)@, *entry, now).response,
    {
        let (applied_state, change) = self.apply_entry(entry, now);
        match change {
            Some(c) => match &self.subscriber {
                Some(subscriber) => {
                    subscriber.kv_changed(c.key.as_str(), c.prev, c.current);
                },
                None => {},
            },
            None => {},
        }
        applied_state
    }

    /// Makes `subscriber` the one that is told of changes, in place of the one
    /// that was told before, if there was one. Nothing else changes.
    pub fn set_subscriber(&mut self, subscriber: Box<dyn StateMachineSubscriber>)
        ensures
            final(self).subscriber() == Some(subscriber),
            final(self)@ == old(self)@,
            final(self).wf() == old(self).wf(),
            final(self).committed() == old(self).committed(),
            final(self).pending() == old(self).pending(),
    {
        let kept = Some(subscriber);
        self.subscriber = kept;
    }

    /// The last membership that the log introduced.
    pub fn get_membership(&self) -> (r: Option<EffectiveMembership>)
        ensures
            r.deep_view() == self@.last_membership,
    {
        match &self.meta.last_membership {
            Some(m) => Some(m.clone()),
            None => None,
        }
    }

    /// The position of the last applied log entry.
    pub fn get_last_applied(&self) -> (r: Option<LogId>)
        ensures
            r == self@.last_applied,
    {
        self.meta.last_applied
    }
}

/// The keyspaces.
impl StateMachine {
    /// The records that the machine keeps about itself.
    pub fn sm_meta(&self) -> (r: &StateMachineMeta)
        ensures
            r.initialized == self@.initialized,
            r.last_applied == self@.last_applied,
            r.last_membership.deep_view() == self@.last_membership,
    {
        &self.meta
    }

    /// The nodes of the cluster, keyed by the eight bytes of their ids.
    pub fn nodes(&self) -> (r: &KeySpace<Node>)
        ensures
            r@ == self@.nodes,
            self.wf() ==> r.wf() && forall|k: Seq<u8>| #[trigger]
                r@.contains_key(k) ==> k.len() == 8,
    {
        &self.nodes
    }

    /// The key-value records: every other kind of general-purpose data. The
    /// sequence number of a record goes up each time the record is written.
    pub fn kvs(&self) -> (r: &KeySpace<SeqV<Vec<u8>>>)
        ensures
            r@ == self@.kvs,
            self.wf() ==> r.wf(),
    {
        &self.kvs
    }

    /// The named counters.
    pub fn sequences(&self) -> (r: &KeySpace<u64>)
        ensures
            r@ == self@.sequences,
            self.wf() ==> r.wf(),
    {
        &self.sequences
    }

    /// The last response to each client, kept to answer a repeated request.
    pub fn client_last_resps(&self) -> (r: &KeySpace<ClientLastRespValue>)
        ensures
            r@ == self@.client_last_resps,
            self.wf() ==> r.wf(),
    {
        &self.client_last_resps
    }
}

/// Taking in stored data.
impl StateMachine {
    /// A machine that holds nothing and was never opened: nothing is stored
    /// for it, no write is pending, and it has no subscriber.
    pub(crate) fn empty() -> (r: StateMachine)
        ensures
            r.ordered(),
            r.wf(),
            r@ == StateView::empty(),
            r.committed() == Map::<Seq<u8>, Seq<u8>>::empty(),
            r.pending() == Seq::<WriteView>::empty(),
            r.subscriber() is None,
    {
        let r = StateMachine {
            meta: StateMachineMeta {
                initialized: false,
                last_applied: None,
                last_membership: None,
            },
            sequences: KeySpace::new(),
            nodes: KeySpace::new(),
            kvs: KeySpace::new(),
            client_last_resps: KeySpace::new(),
            subscriber: None,
            journal: Vec::new(),
            committed: Ghost(Map::empty()),
        };
        proof {
            crate::journal::lemma_physical_empty();
            assert(r.journal.deep_view() =~= Seq::<WriteView>::empty());
        }
        r
    }

    /// Takes the state as it is for the stored one: nothing is pending.
    pub(crate) fn rebase(&mut self)
        requires
            old(self).ordered(),
        ensures
            final(self).wf(),
            final(self)@ == old(self)@,
            final(self).subscriber() == old(self).subscriber(),
            final(self).committed() == physical(final(self)@),
            final(self).pending() == Seq::<WriteView>::empty(),
    {
        self.journal = Vec::new();
        self.committed = Ghost(physical(self@));
        proof {
            assert(self.journal.deep_view() =~= Seq::<WriteView>::empty());
        }
    }

    /// Marks the machine as opened.
    pub(crate) fn mark_initialized(&mut self)
        requires
            old(self).wf(),
        ensures
            final(self).wf(),
            final(self).committed() == old(self).committed(),
            final(self).subscriber() == old(self).subscriber(),
            final(self)@ == (StateView { initialized: true, ..old(self)@ }),
    {
        if !self.meta.initialized {
            let ghost before = self@;
            let ghost noted = self.journal.deep_view();
            let mut tag: Vec<u8> = Vec::new();
            tag.push(META_INITIALIZED);
            self.meta.initialized = true;
            note_put::<bool>(&mut self.journal, PREFIX_META, tag.as_slice(), &true);
            proof {
                assert(tag@ =~= seq![META_INITIALIZED]);
                lemma_physical_initialized(before);
                lemma_noted(
                    self.committed@,
                    before,
                    self@,
                    noted,
                    WriteView {
                        key: seq![PREFIX_META] + seq![META_INITIALIZED],
                        value: Some(bool::enc(true)),
                    },
                );
            }
        }
    }

    /// Takes in one stored meta record; `tag` is its key after the prefix.
    fn import_meta_pair(&mut self, tag: &[u8], value: &[u8]) -> (ok: bool)
        requires
            old(self).ordered(),
        ensures
            final(self).ordered(),
            final(self).subscriber() == old(self).subscriber(),
            match crate::snapshot::put_meta_pair(old(self)@, tag@, value@) {
                Some(s) => ok && final(self)@ == s,
                None => !ok && final(self)@ == old(self)@,
            },
    {
        if tag.len() != 1 {
            proof {
                assert(tag@ != seq![META_LAST_APPLIED]);
                assert(tag@ != seq![META_INITIALIZED]);
                assert(tag@ != seq![META_LAST_MEMBERSHIP]);
            }
            return false;
        }
        proof {
            assert(tag@ =~= seq![tag@[0]]);
            assert(seq![META_LAST_APPLIED][0] == META_LAST_APPLIED);
            assert(seq![META_INITIALIZED][0] == META_INITIALIZED);
            assert(seq![META_LAST_MEMBERSHIP][0] == META_LAST_MEMBERSHIP);
        }
        if tag[0] == META_LAST_APPLIED {
            match read_whole::<LogId>(value) {
                Some(l) => {
                    self.meta.last_applied = Some(l);
                    true
                },
                None => false,
            }
        } else if tag[0] == META_INITIALIZED {
            match read_whole::<bool>(value) {
                Some(b) => {
                    self.meta.initialized = b;
                    true
                },
                None => false,
            }
        } else if tag[0] == META_LAST_MEMBERSHIP {
            match read_whole::<EffectiveMembership>(value) {
                Some(m) => {
                    self.meta.last_membership = Some(m);
                    true
                },
                None => false,
            }
        } else {
            false
        }
    }

    /// Takes in one stored pair: see [`put_pair`]. A pair that cannot be
    /// taken in changes nothing.
    pub(crate) fn import_pair(&mut self, key: &[u8], value: &[u8]) -> (ok: bool)
        requires
            old(self).ordered(),
        ensures
            final(self).ordered(),
            final(self).subscriber() == old(self).subscriber(),
            match put_pair(old(self)@, key@, value@) {
                Some(s) => ok && final(self)@ == s,
                None => !ok && final(self)@ == old(self)@,
            },
    {
        proof {
            reveal(put_pair);
        }
        if key.len() == 0 {
            return false;
        }
        let k = key_tail(key);
        let prefix = key[0];
        if prefix == PREFIX_SEQUENCES {
            match read_whole::<u64>(value) {
                Some(v) => {
                    self.sequences.insert(k, v);
                    true
                },
                None => false,
            }
        } else if prefix == PREFIX_META {
            self.import_meta_pair(k.as_slice(), value)
        } else if prefix == PREFIX_NODES {
            match read_whole::<Node>(value) {
                Some(v) => {
                    if k.len() == 8 {
                        self.nodes.insert(k, v);
                        true
                    } else {
                        false
                    }
                },
                None => false,
            }
        } else if prefix == PREFIX_GENERIC_KV {
            match read_whole::<SeqV<Vec<u8>>>(value) {
                Some(v) => {
                    self.kvs.insert(k, v);
                    true
                },
                None => false,
            }
        } else if prefix == PREFIX_CLIENT_LAST_RESPS {
            match read_whole::<ClientLastRespValue>(value) {
                Some(v) => {
                    self.client_last_resps.insert(k, v);
                    true
                },
                None => false,
            }
        } else {
            false
        }
    }
}

/// Walking the nodes.
impl StateMachine {
    /// The ids of the registered nodes, in the order of their keys.
    pub fn list_node_ids(&self) -> (r: Vec<u64>)
        requires
            self.wf(),
        ensures
            r@.len() == sorted_keys(self@.nodes).len(),
            forall|i: int| 0 <= i < r@.len() ==> node_key(#[trigger] r@[i]) == sorted_keys(
                self@.nodes,
            )[i],
            forall|id: u64| r@.contains(id) <==> self@.node(id) is Some,
            forall|i: int, j: int| 0 <= i < j < r@.len() ==> r@[i] < r@[j],
    {
        proof {
            self.nodes.lemma_pairs();
        }
        let ghost ps = self.nodes.pairs();
        let mut ids: Vec<u64> = Vec::new();
        let mut i: usize = 0;
        while i < self.nodes.len()
            invariant
                self.wf(),
                ps == self.nodes.pairs(),
                i <= ps.len(),
                ids@.len() == i,
                forall|j: int| 0 <= j < i ==> node_key(#[trigger] ids@[j]) == ps[j].0,
            decreases ps.len() - i,
        {
            let key = self.nodes.key_at(i);
            proof {
                crate::keyspace::lemma_map_at(ps, i as int);
                assert(self.nodes@.contains_key(key@));
                assert(key@.len() == 8);
                crate::bytes::lemma_u64_from_be_roundtrip(key@);
            }
            ids.push(u64_from_be_bytes(key.as_slice()));
            i += 1;
        }
        proof {
            assert forall|a: int, b: int| 0 <= a < b < ids@.len() implies ids@[a] < ids@[b] by {
                assert(crate::bytes::bytes_lt(ps[a].0, ps[b].0));
                crate::bytes::lemma_u64_be_order(ids@[a], ids@[b]);
            }
            assert forall|id: u64| ids@.contains(id) <==> self@.node(id) is Some by {
                if ids@.contains(id) {
                    let a = choose|a: int| 0 <= a < ids@.len() && ids@[a] == id;
                    crate::keyspace::lemma_map_at(ps, a);
                }
                if self@.node(id) is Some {
                    assert(crate::keyspace::has_key(ps, node_key(id)));
                    let a = crate::keyspace::index_of(ps, node_key(id));
                    crate::bytes::lemma_u64_be_roundtrip(id);
                    crate::bytes::lemma_u64_be_roundtrip(ids@[a]);
                    assert(ids@[a] == id);
                }
            }
        }
        ids
    }

    /// The registered nodes, in the order of their keys.
    pub fn get_nodes(&self) -> (r: Vec<Node>)
        requires
            self.wf(),
        ensures
            r.deep_view() == sorted_values(self@.nodes),
    {
        proof {
            self.nodes.lemma_pairs();
        }
        let ghost ps = self.nodes.pairs();
        let mut nodes: Vec<Node> = Vec::new();
        let mut i: usize = 0;
        while i < self.nodes.len()
            invariant
                self.wf(),
                ps == self.nodes.pairs(),
                i <= ps.len(),
                nodes@.len() == i,
                forall|j: int| 0 <= j < i ==> (#[trigger] nodes@[j])@ == ps[j].1,
            decreases ps.len() - i,
        {
            nodes.push(self.nodes.value_at(i).clone());
            i += 1;
        }
        proof {
            assert(nodes.deep_view() =~= sorted_values(self@.nodes));
        }
        nodes
    }
}

} // verus!
