//! Log entries, the commands they carry, and the responses to them.

use vstd::prelude::*;
use crate::txn::{TxnReply, TxnReplyView, TxnRequest};
use crate::types::{KVMeta, LogId, Node, NodeView, SeqV};

verus! {

/// A condition on the sequence number of the record that a write replaces.
#[derive(Debug, Clone, Copy, PartialEq, Eq, Structural)]
pub enum MatchSeq {
    /// Any record, or none.
    Any,
    /// A record with exactly this sequence number.
    Eq(u64),
    /// A sequence number of at least this; an absent record counts as 0.
    GE(u64),
}

impl MatchSeq {
    /// Whether a record with sequence number `seq` at the key (`None`: no
    /// record) meets the condition.
    pub open spec fn matches_seq(self, seq: Option<u64>) -> bool {
        match self {
            MatchSeq::Any => true,
            MatchSeq::Eq(n) => seq == Some(n),
            MatchSeq::GE(n) => match seq {
                Some(s) => s >= n,
                None => n == 0,
            },
        }
    }

    /// Whether the record `sv` (`None`: no record) meets the condition.
    pub fn match_seq<T>(&self, sv: &Option<SeqV<T>>) -> (r: bool)
        ensures
            r == self.matches_seq(seq_of(*sv)),
    {
        match self {
            MatchSeq::Any => true,
            MatchSeq::Eq(n) => match sv {
                Some(v) => v.seq == *n,
                None => false,
            },
            MatchSeq::GE(n) => match sv {
                Some(v) => v.seq >= *n,
                None => *n == 0,
            },
        }
    }
}

/// The sequence number of a record that may be absent.
pub open spec fn seq_of<T>(sv: Option<SeqV<T>>) -> Option<u64> {
    match sv {
        Some(v) => Some(v.seq),
        None => None,
    }
}

/// What a write does to the value under a key.
#[derive(Debug, Clone, PartialEq, Eq)]
pub enum Operation<T> {
    /// Store this value.
    Update(T),
    /// Remove the record.
    Delete,
    /// Keep the value and replace only the meta.
    AsIs,
}

/// Identifies one request of one client, so that a repeated submission is
/// answered without being applied again.
#[derive(Debug, Clone, PartialEq, Eq)]
pub struct Txid {
    pub client: String,
    pub serial: u64,
}

/// A command that changes the state machine.
#[derive(Debug, Clone, PartialEq, Eq)]
pub enum Cmd {
    IncrSeq { key: String },
    AddNode { node_id: u64, node: Node },
    RemoveNode { node_id: u64 },
    UpsertKV { key: String, seq: MatchSeq, value: Operation<Vec<u8>>, value_meta: Option<KVMeta> },
    Transaction(TxnRequest),
}

/// What a normal log entry carries.
#[derive(Debug, Clone, PartialEq, Eq)]
pub struct LogEntry {
    pub txid: Option<Txid>,
    pub cmd: Cmd,
}

/// The voting configuration of the cluster: one set of node ids, or two while
/// the cluster moves from one to the other.
#[derive(Debug, PartialEq, Eq)]
pub struct Membership {
    pub configs: Vec<Vec<u64>>,
}

impl DeepView for Membership {
    type V = Seq<Seq<u64>>;

    open spec fn deep_view(&self) -> Seq<Seq<u64>> {
        self.configs.deep_view()
    }
}

impl View for Membership {
    type V = Seq<Seq<u64>>;

    open spec fn view(&self) -> Seq<Seq<u64>> {
        self.deep_view()
    }
}

impl Clone for Membership {
    fn clone(&self) -> (r: Self)
        ensures
            r@ == self@,
    {
        let mut configs: Vec<Vec<u64>> = Vec::new();
        let mut i: usize = 0;
        while i < self.configs.len()
            invariant
                i <= self.configs.len(),
                configs.len() == i,
                forall|j: int| 0 <= j < i ==> configs@[j].deep_view() == self.configs@[j].deep_view(),
            decreases self.configs.len() - i,
        {
            let c = self.configs[i].clone();
            proof {
                assert(c.deep_view() =~= self.configs@[i as int].deep_view());
            }
            configs.push(c);
            i += 1;
        }
        let r = Membership { configs };
        proof {
            assert(r@ =~= self@);
        }
        r
    }
}

/// A membership together with the log position that introduced it.
#[derive(Debug, PartialEq, Eq)]
pub struct EffectiveMembership {
    pub log_id: LogId,
    pub membership: Membership,
}

/// The abstract value of an [`EffectiveMembership`].
pub struct EffectiveMembershipView {
    pub log_id: LogId,
    pub membership: Seq<Seq<u64>>,
}

impl DeepView for EffectiveMembership {
    type V = EffectiveMembershipView;

    open spec fn deep_view(&self) -> EffectiveMembershipView {
        EffectiveMembershipView { log_id: self.log_id, membership: self.membership@ }
    }
}

impl View for EffectiveMembership {
    type V = EffectiveMembershipView;

    open spec fn view(&self) -> EffectiveMembershipView {
        self.deep_view()
    }
}

impl Clone for EffectiveMembership {
    fn clone(&self) -> (r: Self)
        ensures
            r@ == self@,
    {
        EffectiveMembership { log_id: self.log_id, membership: self.membership.clone() }
    }
}

/// What a log entry holds.
#[derive(Debug, Clone, PartialEq, Eq)]
pub enum EntryPayload {
    /// Nothing: the entry only marks a position.
    Blank,
    /// A command.
    Normal(LogEntry),
    /// A change of the cluster's membership.
    Membership(Membership),
}

/// One committed entry of the replicated log.
#[derive(Debug, Clone, PartialEq, Eq)]
pub struct Entry {
    pub log_id: LogId,
    pub payload: EntryPayload,
}

/// A rule of the state machine that a command broke.
#[derive(Debug, Clone, Copy, PartialEq, Eq, Structural)]
pub enum AppError {
    /// A sequence counter stands at `u64::MAX` and cannot be incremented.
    SequenceExhausted,
}

/// A record before and after a write.
#[derive(Debug, PartialEq, Eq)]
pub struct Change<T> {
    pub prev: Option<SeqV<T>>,
    pub result: Option<SeqV<T>>,
}

impl<T: View> DeepView for Change<T> {
    type V = Change<T::V>;

    open spec fn deep_view(&self) -> Change<T::V> {
        Change { prev: self.prev.deep_view(), result: self.result.deep_view() }
    }
}

impl<T: View> View for Change<T> {
    type V = Change<T::V>;

    open spec fn view(&self) -> Change<T::V> {
        self.deep_view()
    }
}

impl<T> Change<T> {
    /// The change from `prev` to `result`.
    pub fn new(prev: Option<SeqV<T>>, result: Option<SeqV<T>>) -> (r: Self)
        ensures
            r == (Change { prev, result }),
    {
        Change { prev, result }
    }
}

/// Copies a record that may be absent.
pub fn clone_seqv_opt(v: &Option<SeqV<Vec<u8>>>) -> (r: Option<SeqV<Vec<u8>>>)
    ensures
        r.deep_view() == v.deep_view(),
{
    match v {
        Some(sv) => Some(sv.clone()),
        None => None,
    }
}

/// Copies a node that may be absent.
pub fn clone_node_opt(v: &Option<Node>) -> (r: Option<Node>)
    ensures
        r.deep_view() == v.deep_view(),
{
    match v {
        Some(n) => Some(n.clone()),
        None => None,
    }
}

impl Clone for Change<Vec<u8>> {
    fn clone(&self) -> (r: Self)
        ensures
            r@ == self@,
    {
        Change { prev: clone_seqv_opt(&self.prev), result: clone_seqv_opt(&self.result) }
    }
}

/// The response to an applied log entry.
#[derive(Debug, PartialEq, Eq)]
pub enum AppliedState {
    /// The new value of a sequence counter.
    SeqNum { seq: u64 },
    /// A node before and after the command; `result` is `None` where nothing
    /// was added.
    Node { prev: Option<Node>, result: Option<Node> },
    /// A key-value record before and after the command.
    KV(Change<Vec<u8>>),
    /// The reply of a transaction.
    TxnReply(TxnReply),
    /// The command broke a rule of the state machine and changed nothing.
    AppError(AppError),
    /// Nothing to report.
    Empty,
}

/// The abstract value of an [`AppliedState`].
pub enum AppliedStateView {
    SeqNum { seq: u64 },
    Node { prev: Option<NodeView>, result: Option<NodeView> },
    KV(Change<Seq<u8>>),
    TxnReply(TxnReplyView),
    AppError(AppError),
    Empty,
}

impl DeepView for AppliedState {
    type V = AppliedStateView;

    open spec fn deep_view(&self) -> AppliedStateView {
        match self {
            AppliedState::SeqNum { seq } => AppliedStateView::SeqNum { seq: *seq },
            AppliedState::Node { prev, result } => AppliedStateView::Node {
                prev: prev.deep_view(),
                result: result.deep_view(),
            },
            AppliedState::KV(c) => AppliedStateView::KV(c@),
            AppliedState::TxnReply(t) => AppliedStateView::TxnReply(t@),
            AppliedState::AppError(e) => AppliedStateView::AppError(*e),
            AppliedState::Empty => AppliedStateView::Empty,
        }
    }
}

impl View for AppliedState {
    type V = AppliedStateView;

    open spec fn view(&self) -> AppliedStateView {
        self.deep_view()
    }
}

impl Clone for AppliedState {
    fn clone(&self) -> (r: Self)
        ensures
            r@ == self@,
    {
        match self {
            AppliedState::SeqNum { seq } => AppliedState::SeqNum { seq: *seq },
            AppliedState::Node { prev, result } => AppliedState::Node {
                prev: clone_node_opt(prev),
                result: clone_node_opt(result),
            },
            AppliedState::KV(c) => AppliedState::KV(c.clone()),
            AppliedState::TxnReply(t) => AppliedState::TxnReply(t.clone()),
            AppliedState::AppError(e) => AppliedState::AppError(*e),
            AppliedState::Empty => AppliedState::Empty,
        }
    }
}

/// The abstract value of what applying a command gives.
pub open spec fn result_view(r: Result<AppliedState, AppError>) -> Result<
    AppliedStateView,
    AppError,
> {
    match r {
        Ok(a) => Ok(a@),
        Err(e) => Err(e),
    }
}

/// The last response given to a client, kept so that a repeated request is
/// answered without being applied again.
#[derive(Debug, PartialEq, Eq)]
pub struct ClientLastRespValue {
    pub req_serial_num: u64,
    pub res: AppliedState,
}

/// The abstract value of a [`ClientLastRespValue`].
pub struct ClientLastRespView {
    pub req_serial_num: u64,
    pub res: AppliedStateView,
}

impl DeepView for ClientLastRespValue {
    type V = ClientLastRespView;

    open spec fn deep_view(&self) -> ClientLastRespView {
        ClientLastRespView { req_serial_num: self.req_serial_num, res: self.res@ }
    }
}

impl View for ClientLastRespValue {
    type V = ClientLastRespView;

    open spec fn view(&self) -> ClientLastRespView {
        self.deep_view()
    }
}

} // verus!
