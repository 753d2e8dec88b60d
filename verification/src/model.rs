//! The state machine as mathematics: its state as a record of maps, and each
//! command as a function from state to state and response.

use vstd::prelude::*;
use vstd::utf8::encode_utf8;
use crate::bytes::bytes_lt;
use crate::cmd::{
    seq_of, AppError, AppliedStateView, Change, ClientLastRespView, Cmd, EffectiveMembershipView,
    Entry, EntryPayload, LogEntry, MatchSeq, Operation,
};
use crate::txn::{
    pb_of_opt, ConditionResult, Target, TxnCondition, TxnOp, TxnOpResponseView, TxnReplyView,
    TxnRequest,
};
use crate::types::{KVMeta, LogId, NodeView, SeqV};

verus! {

/// A key-value record as the model sees it.
pub type Record = SeqV<Seq<u8>>;

/// The bytes under which a string key is stored: its UTF-8 encoding.
pub open spec fn str_key(s: Seq<char>) -> Seq<u8> {
    encode_utf8(s)
}

/// The bytes under which a node id is stored: its eight bytes, most significant first.
pub open spec fn node_key(id: u64) -> Seq<u8> {
    crate::bytes::u64_be(id)
}

/// The name of the counter from which key-value records take their sequence numbers.
pub open spec fn generic_kv() -> Seq<u8> {
    str_key("generic-kv"@)
}

/// The record, unless it is hidden at time `now`.
pub open spec fn unexpired<T>(sv: SeqV<T>, now: u64) -> Option<SeqV<T>> {
    if sv.expired(now) {
        None
    } else {
        Some(sv)
    }
}

/// [`unexpired`] of a record that may be absent.
pub open spec fn unexpired_opt<T>(sv: Option<SeqV<T>>, now: u64) -> Option<SeqV<T>> {
    match sv {
        Some(v) => unexpired(v, now),
        None => None,
    }
}

/// The abstract value of an [`Operation`] on bytes.
pub open spec fn op_view(op: Operation<Vec<u8>>) -> Operation<Seq<u8>> {
    match op {
        Operation::Update(v) => Operation::Update(v@),
        Operation::Delete => Operation::Delete,
        Operation::AsIs => Operation::AsIs,
    }
}

/// Everything the state machine holds.
pub struct StateView {
    /// Whether the machine has been opened before.
    pub initialized: bool,
    /// The position of the last applied log entry.
    pub last_applied: Option<LogId>,
    /// The last membership that the log introduced.
    pub last_membership: Option<EffectiveMembershipView>,
    /// Named counters.
    pub sequences: Map<Seq<u8>, u64>,
    /// The nodes of the cluster, by [`node_key`].
    pub nodes: Map<Seq<u8>, NodeView>,
    /// Key-value records, by [`str_key`].
    pub kvs: Map<Seq<u8>, Record>,
    /// The last response to each client, by [`str_key`] of the client's id.
    pub client_last_resps: Map<Seq<u8>, ClientLastRespView>,
}

/// What a write to the key-value records comes to.
pub struct Upserted {
    /// The state after it.
    pub state: StateView,
    /// The record seen at the key before it.
    pub prev: Option<Record>,
    /// The record at the key after it.
    pub result: Option<Record>,
}

/// What running a list of operations comes to.
pub struct Executed {
    /// The state after them.
    pub state: StateView,
    /// The outcome of each, in order.
    pub responses: Seq<TxnOpResponseView>,
}

/// What applying a command or an entry comes to.
pub struct Outcome {
    /// The state after it.
    pub state: StateView,
    /// The response to it.
    pub response: AppliedStateView,
}

/// A change of a key-value record that watchers are told of.
pub struct KvChangeView {
    pub key: Seq<char>,
    pub prev: Option<Record>,
    pub result: Option<Record>,
}

impl StateView {
    /// The state of a machine that has never been opened.
    pub open spec fn empty() -> StateView {
        StateView {
            initialized: false,
            last_applied: None,
            last_membership: None,
            sequences: Map::empty(),
            nodes: Map::empty(),
            kvs: Map::empty(),
            client_last_resps: Map::empty(),
        }
    }

    /// The value of the counter `name`; a counter that was never incremented is 0.
    pub open spec fn seq(self, name: Seq<u8>) -> u64 {
        if self.sequences.contains_key(name) {
            self.sequences[name]
        } else {
            0
        }
    }

    /// The state after the counter `name` went up by one.
    pub open spec fn incr_seq(self, name: Seq<u8>) -> StateView
        recommends
            self.seq(name) < u64::MAX,
    {
        StateView { sequences: self.sequences.insert(name, (self.seq(name) + 1) as u64), ..self }
    }

    /// The record stored under `key`, hidden or not.
    pub open spec fn stored_kv(self, key: Seq<u8>) -> Option<Record> {
        if self.kvs.contains_key(key) {
            Some(self.kvs[key])
        } else {
            None
        }
    }

    /// The record that a read of `key` at time `now` sees.
    pub open spec fn kv(self, key: Seq<u8>, now: u64) -> Option<Record> {
        unexpired_opt(self.stored_kv(key), now)
    }

    /// The node registered under `id`.
    pub open spec fn node(self, id: u64) -> Option<NodeView> {
        if self.nodes.contains_key(node_key(id)) {
            Some(self.nodes[node_key(id)])
        } else {
            None
        }
    }

    /// The last response recorded for `client`.
    pub open spec fn client_last_resp(self, client: Seq<char>) -> Option<ClientLastRespView> {
        if self.client_last_resps.contains_key(str_key(client)) {
            Some(self.client_last_resps[str_key(client)])
        } else {
            None
        }
    }

    /// Every keyspace has finitely many keys, and every key of a node is the
    /// eight bytes of an id.
    pub open spec fn valid(self) -> bool {
        &&& crate::keyspace::representable(self.sequences)
        &&& crate::keyspace::representable(self.nodes)
        &&& crate::keyspace::representable(self.kvs)
        &&& crate::keyspace::representable(self.client_last_resps)
        &&& forall|k: Seq<u8>| #[trigger] self.nodes.contains_key(k) ==> k.len() == 8
    }

    /// No stored record has a sequence number beyond the counter that issues them.
    pub open spec fn seqs_issued(self) -> bool {
        forall|k: Seq<u8>| #[trigger]
            self.kvs.contains_key(k) ==> self.kvs[k].seq <= self.seq(generic_kv())
    }
}

/// Whether an operation, once the condition on the sequence number is met,
/// stores a record and so takes a new sequence number; `prev` is the record
/// seen at the key.
pub open spec fn op_writes(prev: Option<Record>, op: Operation<Seq<u8>>) -> bool {
    match op {
        Operation::Update(_) => true,
        Operation::Delete => false,
        Operation::AsIs => prev is Some,
    }
}

/// Whether an operation needs a sequence number that the counter cannot give.
pub open spec fn update_exhausted(
    s: StateView,
    prev: Option<Record>,
    op: Operation<Seq<u8>>,
) -> bool {
    op_writes(prev, op) && s.seq(generic_kv()) == u64::MAX
}

/// What an operation does once the condition on the sequence number is met:
/// `Update` stores the value with `meta` under the next sequence number,
/// `Delete` removes what is stored, and `AsIs` stores the seen value again with
/// `meta` under the next sequence number, or does nothing if none is seen.
pub open spec fn upsert_matched(
    s: StateView,
    key: Seq<u8>,
    prev: Option<Record>,
    op: Operation<Seq<u8>>,
    meta: Option<KVMeta>,
) -> Upserted {
    let seq = (s.seq(generic_kv()) + 1) as u64;
    match op {
        Operation::Update(v) => {
            let rec = SeqV { seq, meta, data: v };
            Upserted {
                state: StateView { kvs: s.kvs.insert(key, rec), ..s.incr_seq(generic_kv()) },
                prev,
                result: Some(rec),
            }
        },
        Operation::Delete => Upserted {
            state: StateView { kvs: s.kvs.remove(key), ..s },
            prev,
            result: None,
        },
        Operation::AsIs => match prev {
            Some(p) => {
                let rec = SeqV { seq, meta, data: p.data };
                Upserted {
                    state: StateView { kvs: s.kvs.insert(key, rec), ..s.incr_seq(generic_kv()) },
                    prev,
                    result: Some(rec),
                }
            },
            None => Upserted { state: s, prev, result: None },
        },
    }
}

/// Whether a write would take a new sequence number: the condition on the
/// sequence number is met, and the operation stores a record.
pub open spec fn upsert_writes(
    s: StateView,
    key: Seq<u8>,
    m: MatchSeq,
    op: Operation<Seq<u8>>,
    now: u64,
) -> bool {
    let prev = s.kv(key, now);
    m.matches_seq(seq_of(prev)) && op_writes(prev, op)
}

/// Whether a write needs a sequence number that the counter cannot give.
pub open spec fn upsert_exhausted(
    s: StateView,
    key: Seq<u8>,
    m: MatchSeq,
    op: Operation<Seq<u8>>,
    now: u64,
) -> bool {
    upsert_writes(s, key, m, op, now) && s.seq(generic_kv()) == u64::MAX
}

/// A write to the key-value records.
///
/// The record seen at the key is the stored one unless it is hidden at `now`.
/// If `m` is not met, nothing changes and the result is the record seen.
/// Else the operation takes effect as [`upsert_matched`] says.
pub open spec fn upsert(
    s: StateView,
    key: Seq<u8>,
    m: MatchSeq,
    op: Operation<Seq<u8>>,
    meta: Option<KVMeta>,
    now: u64,
) -> Upserted {
    let prev = s.kv(key, now);
    if !m.matches_seq(seq_of(prev)) {
        Upserted { state: s, prev, result: prev }
    } else {
        upsert_matched(s, key, prev, op, meta)
    }
}

/// Whether `seq` relates to `target` as the wire code `expected` asks. An
/// unknown code asks for what never holds.
pub open spec fn seq_condition(expected: i32, target: u64, seq: u64) -> bool {
    match ConditionResult::spec_from_i32(expected) {
        Some(ConditionResult::Eq) => seq == target,
        Some(ConditionResult::Gt) => seq > target,
        Some(ConditionResult::Lt) => seq < target,
        Some(ConditionResult::Ne) => seq != target,
        Some(ConditionResult::Ge) => seq >= target,
        Some(ConditionResult::Le) => seq <= target,
        None => false,
    }
}

/// Whether `data` relates to `target` as the wire code `expected` asks, in
/// the lexicographic order of bytes. An unknown code asks for what never holds.
pub open spec fn value_condition(expected: i32, target: Seq<u8>, data: Seq<u8>) -> bool {
    match ConditionResult::spec_from_i32(expected) {
        Some(ConditionResult::Eq) => data == target,
        Some(ConditionResult::Gt) => bytes_lt(target, data),
        Some(ConditionResult::Lt) => bytes_lt(data, target),
        Some(ConditionResult::Ne) => data != target,
        Some(ConditionResult::Ge) => !bytes_lt(data, target),
        Some(ConditionResult::Le) => !bytes_lt(target, data),
        None => false,
    }
}

/// Whether one condition of a transaction holds. An absent record has the
/// sequence number 0 and no value that could meet a condition.
pub open spec fn condition_holds(s: StateView, cond: TxnCondition, now: u64) -> bool {
    let sv = s.kv(str_key(cond.key@), now);
    match cond.target {
        Target::SeqNum(n) => seq_condition(
            cond.expected,
            n,
            match sv {
                Some(v) => v.seq,
                None => 0,
            },
        ),
        Target::Value(t) => match sv {
            Some(v) => value_condition(cond.expected, t@, v.data),
            None => false,
        },
    }
}

/// Whether every condition holds.
pub open spec fn conditions_hold(s: StateView, conds: Seq<TxnCondition>, now: u64) -> bool {
    forall|i: int| 0 <= i < conds.len() ==> condition_holds(s, #[trigger] conds[i], now)
}

/// What a transaction reports of the record seen before a write, if asked.
pub open spec fn reported(prev: Option<Record>, asked: bool) -> Option<crate::txn::PbSeqVView> {
    if asked {
        pb_of_opt(prev)
    } else {
        None
    }
}

/// A reply with one more outcome at its end.
pub open spec fn with_response(reply: TxnReplyView, r: TxnOpResponseView) -> TxnReplyView {
    TxnReplyView { responses: reply.responses.push(r), ..reply }
}

/// The state after one operation of a transaction. Writes are unconditional:
/// they go through [`upsert`] with [`MatchSeq::Any`] and no meta.
pub open spec fn op_state(s: StateView, op: TxnOp, now: u64) -> StateView {
    match op {
        TxnOp::Get { key } => s,
        TxnOp::Put { key, value, prev_value } => upsert(
            s,
            str_key(key@),
            MatchSeq::Any,
            Operation::Update(value@),
            None,
            now,
        ).state,
        TxnOp::Delete { key, prev_value } => upsert(
            s,
            str_key(key@),
            MatchSeq::Any,
            Operation::Delete,
            None,
            now,
        ).state,
    }
}

/// The outcome that one operation of a transaction reports.
pub open spec fn op_response(s: StateView, op: TxnOp, now: u64) -> TxnOpResponseView {
    match op {
        TxnOp::Get { key } => TxnOpResponseView::Get {
            key: key@,
            value: pb_of_opt(s.kv(str_key(key@), now)),
        },
        TxnOp::Put { key, value, prev_value } => TxnOpResponseView::Put {
            key: key@,
            prev_value: reported(s.kv(str_key(key@), now), prev_value),
        },
        TxnOp::Delete { key, prev_value } => TxnOpResponseView::Delete {
            key: key@,
            success: s.kv(str_key(key@), now) is Some,
            prev_value: reported(s.kv(str_key(key@), now), prev_value),
        },
    }
}

/// Running a list of operations in order, each on the state that the one
/// before it left.
pub open spec fn run_ops(s: StateView, ops: Seq<TxnOp>, now: u64) -> Executed
    decreases ops.len(),
{
    if ops.len() == 0 {
        Executed { state: s, responses: Seq::empty() }
    } else {
        let before = run_ops(s, ops.drop_last(), now);
        Executed {
            state: op_state(before.state, ops.last(), now),
            responses: before.responses.push(op_response(before.state, ops.last(), now)),
        }
    }
}

/// The number of `Put` operations in a list: the sequence numbers that running
/// it takes.
pub open spec fn count_puts(ops: Seq<TxnOp>) -> nat
    decreases ops.len(),
{
    if ops.len() == 0 {
        0
    } else {
        count_puts(ops.drop_last()) + if ops.last() is Put {
            1nat
        } else {
            0nat
        }
    }
}

/// The branch of a transaction that runs in state `s`.
pub open spec fn branch(s: StateView, req: TxnRequest, now: u64) -> Seq<TxnOp> {
    if conditions_hold(s, req.condition@, now) {
        req.if_then@
    } else {
        req.else_then@
    }
}

/// Whether the branch that would run needs more sequence numbers than are left.
pub open spec fn txn_exhausted(s: StateView, req: TxnRequest, now: u64) -> bool {
    s.seq(generic_kv()) + count_puts(branch(s, req, now)) > u64::MAX
}

/// Whether a command cannot be applied because a counter is exhausted.
pub open spec fn cmd_exhausted(s: StateView, cmd: Cmd, now: u64) -> bool {
    match cmd {
        Cmd::IncrSeq { key } => s.seq(str_key(key@)) == u64::MAX,
        Cmd::AddNode { node_id, node } => false,
        Cmd::RemoveNode { node_id } => false,
        Cmd::UpsertKV { key, seq, value, value_meta } => upsert_exhausted(
            s,
            str_key(key@),
            seq,
            op_view(value),
            now,
        ),
        Cmd::Transaction(req) => txn_exhausted(s, req, now),
    }
}

/// Registering a node: where the id is taken nothing changes and the response
/// has no result; else the node is stored and is the result.
pub open spec fn add_node(s: StateView, id: u64, node: NodeView) -> Outcome {
    if s.node(id) is Some {
        Outcome { state: s, response: AppliedStateView::Node { prev: s.node(id), result: None } }
    } else {
        Outcome {
            state: StateView { nodes: s.nodes.insert(node_key(id), node), ..s },
            response: AppliedStateView::Node { prev: None, result: Some(node) },
        }
    }
}

/// Taking a node out: the response shows the node that was there, if any.
pub open spec fn remove_node(s: StateView, id: u64) -> Outcome {
    Outcome {
        state: StateView { nodes: s.nodes.remove(node_key(id)), ..s },
        response: AppliedStateView::Node { prev: s.node(id), result: None },
    }
}

/// Applying a command whose counters are not exhausted.
pub open spec fn cmd_effect(s: StateView, cmd: Cmd, now: u64) -> Outcome {
    match cmd {
        Cmd::IncrSeq { key } => Outcome {
            state: s.incr_seq(str_key(key@)),
            response: AppliedStateView::SeqNum { seq: (s.seq(str_key(key@)) + 1) as u64 },
        },
        Cmd::AddNode { node_id, node } => add_node(s, node_id, node@),
        Cmd::RemoveNode { node_id } => remove_node(s, node_id),
        Cmd::UpsertKV { key, seq, value, value_meta } => {
            let u = upsert(s, str_key(key@), seq, op_view(value), value_meta, now);
            Outcome {
                state: u.state,
                response: AppliedStateView::KV(Change { prev: u.prev, result: u.result }),
            }
        },
        Cmd::Transaction(req) => {
            let e = run_ops(s, branch(s, req, now), now);
            Outcome {
                state: e.state,
                response: AppliedStateView::TxnReply(
                    TxnReplyView {
                        success: conditions_hold(s, req.condition@, now),
                        error: Seq::empty(),
                        responses: e.responses,
                    },
                ),
            }
        },
    }
}

/// Applying a command. A command that would take a sequence number that is
/// not there changes nothing and is answered with an error.
pub open spec fn apply_cmd(s: StateView, cmd: Cmd, now: u64) -> Outcome {
    if cmd_exhausted(s, cmd, now) {
        Outcome { state: s, response: AppliedStateView::AppError(AppError::SequenceExhausted) }
    } else {
        cmd_effect(s, cmd, now)
    }
}

/// Whether the request was answered before: the client's last recorded
/// response is to this serial.
pub open spec fn is_duplicate(s: StateView, data: LogEntry) -> bool {
    data.txid matches Some(txid) && s.client_last_resp(txid.client@) matches Some(last)
        && last.req_serial_num == txid.serial
}

/// Applying what a normal entry carries. A request that was answered before is
/// answered again with the recorded response and changes nothing. Any other
/// command is applied, and if it names its client, the response is recorded as
/// that client's last.
pub open spec fn apply_normal(s: StateView, data: LogEntry, now: u64) -> Outcome {
    if is_duplicate(s, data) {
        Outcome { state: s, response: s.client_last_resp(data.txid->0.client@)->0.res }
    } else {
        let o = apply_cmd(s, data.cmd, now);
        match data.txid {
            Some(txid) => Outcome {
                state: StateView {
                    client_last_resps: o.state.client_last_resps.insert(
                        str_key(txid.client@),
                        ClientLastRespView { req_serial_num: txid.serial, res: o.response },
                    ),
                    ..o.state
                },
                response: o.response,
            },
            None => o,
        }
    }
}

/// Applying one log entry at time `now`: the entry's position becomes the last
/// applied one, then the payload takes effect.
pub open spec fn apply(s: StateView, entry: Entry, now: u64) -> Outcome {
    let s1 = StateView { last_applied: Some(entry.log_id), ..s };
    match entry.payload {
        EntryPayload::Blank => Outcome { state: s1, response: AppliedStateView::Empty },
        EntryPayload::Normal(data) => apply_normal(s1, data, now),
        EntryPayload::Membership(m) => Outcome {
            state: StateView {
                last_membership: Some(
                    EffectiveMembershipView { log_id: entry.log_id, membership: m@ },
                ),
                ..s1
            },
            response: AppliedStateView::Empty,
        },
    }
}

/// Applying `entry` at time `now` to the state `s` leaves the state `after`
/// and is answered with `response`.
pub open spec fn applied_at(
    s: StateView,
    entry: Entry,
    now: u64,
    after: StateView,
    response: AppliedStateView,
) -> bool {
    apply(s, entry, now) == (Outcome { state: after, response })
}

/// Applying `cmd` at time `now` to the state `s` leaves the state `after` and
/// gives `r`: the response, or an error where a counter is exhausted.
pub open spec fn cmd_applied_at(
    s: StateView,
    cmd: Cmd,
    now: u64,
    after: StateView,
    r: Result<AppliedStateView, AppError>,
) -> bool {
    match r {
        Ok(a) => !cmd_exhausted(s, cmd, now) && cmd_effect(s, cmd, now) == (Outcome {
            state: after,
            response: a,
        }),
        Err(e) => cmd_exhausted(s, cmd, now) && e == AppError::SequenceExhausted && after == s,
    }
}

/// The change that watchers are told of after a normal entry was applied:
/// that of an `UpsertKV` command that was not answered from the record of
/// responses.
pub open spec fn normal_notice(s: StateView, data: LogEntry, now: u64) -> Option<KvChangeView> {
    match data.cmd {
        Cmd::UpsertKV { key, seq, value, value_meta } => if is_duplicate(s, data) || cmd_exhausted(
            s,
            data.cmd,
            now,
        ) {
            None
        } else {
            let u = upsert(s, str_key(key@), seq, op_view(value), value_meta, now);
            Some(KvChangeView { key: key@, prev: u.prev, result: u.result })
        },
        _ => None,
    }
}

/// The change that watchers are told of after an entry was applied.
pub open spec fn notice(s: StateView, entry: Entry, now: u64) -> Option<KvChangeView> {
    match entry.payload {
        EntryPayload::Normal(data) => normal_notice(
            StateView { last_applied: Some(entry.log_id), ..s },
            data,
            now,
        ),
        _ => None,
    }
}

/// What a lookup of a client's last response answers: the recorded serial and
/// response, or serial 0 and an empty response for a client never seen.
pub open spec fn last_resp_or_default(s: StateView, client: Seq<char>) -> (u64, AppliedStateView) {
    match s.client_last_resp(client) {
        Some(last) => (last.req_serial_num, last.res),
        None => (0, AppliedStateView::Empty),
    }
}

/// Running one operation more extends the run by that operation's effect.
pub proof fn lemma_run_ops_step(s: StateView, ops: Seq<TxnOp>, i: int, now: u64)
    requires
        0 <= i < ops.len(),
    ensures
        run_ops(s, ops.subrange(0, i + 1), now).state == op_state(
            run_ops(s, ops.subrange(0, i), now).state,
            ops[i],
            now,
        ),
        run_ops(s, ops.subrange(0, i + 1), now).responses == run_ops(
            s,
            ops.subrange(0, i),
            now,
        ).responses.push(op_response(run_ops(s, ops.subrange(0, i), now).state, ops[i], now)),
{
    assert(ops.subrange(0, i + 1).drop_last() =~= ops.subrange(0, i));
}

/// One operation more adds one to the count if it is a `Put`.
pub proof fn lemma_count_puts_step(ops: Seq<TxnOp>, i: int)
    requires
        0 <= i < ops.len(),
    ensures
        count_puts(ops.subrange(0, i + 1)) == count_puts(ops.subrange(0, i)) + if ops[i] is Put {
            1nat
        } else {
            0nat
        },
{
    assert(ops.subrange(0, i + 1).drop_last() =~= ops.subrange(0, i));
}

/// A prefix of a list holds no more `Put` operations than the list.
pub proof fn lemma_count_puts_prefix(ops: Seq<TxnOp>, i: int)
    requires
        0 <= i <= ops.len(),
    ensures
        count_puts(ops.subrange(0, i)) <= count_puts(ops),
    decreases ops.len() - i,
{
    if i == ops.len() {
        assert(ops.subrange(0, i) =~= ops);
    } else {
        lemma_count_puts_step(ops, i);
        lemma_count_puts_prefix(ops, i + 1);
    }
}

/// An operation of a transaction takes one sequence number if it is a `Put`,
/// and none otherwise.
pub proof fn lemma_op_state_seq(s: StateView, op: TxnOp, now: u64)
    requires
        op is Put ==> s.seq(generic_kv()) < u64::MAX,
    ensures
        op_state(s, op, now).seq(generic_kv()) == s.seq(generic_kv()) + if op is Put {
            1nat
        } else {
            0nat
        },
{
}

/// The state after a list of entries was applied in order, the entry at
/// position `i` at the time `times[i]`.
pub open spec fn run(s: StateView, entries: Seq<Entry>, times: Seq<u64>) -> StateView
    recommends
        entries.len() == times.len(),
    decreases entries.len(),
{
    if entries.len() == 0 {
        s
    } else {
        apply(run(s, entries.drop_last(), times.drop_last()), entries.last(), times.last()).state
    }
}

/// The state in which the entry at position `i` of a run is applied.
pub open spec fn state_before(s: StateView, entries: Seq<Entry>, times: Seq<u64>, i: int) -> StateView {
    run(s, entries.take(i), times.take(i))
}

/// The record that a change wrote: the result, where there is one and it is
/// not the record seen before.
pub open spec fn written(c: KvChangeView) -> Option<Record> {
    if c.result is Some && c.result != c.prev {
        c.result
    } else {
        None
    }
}

} // verus!
