//! Transactions: a list of conditions on keys, and two lists of operations of
//! which one is run, depending on whether every condition holds.

use vstd::prelude::*;
use crate::types::SeqV;

verus! {

/// How the value found under a key is to relate to the target of a condition.
#[derive(Debug, Clone, Copy, PartialEq, Eq, Structural)]
pub enum ConditionResult {
    Eq,
    Gt,
    Ge,
    Lt,
    Le,
    Ne,
}

impl ConditionResult {
    /// The relation that a wire code stands for.
    pub open spec fn spec_from_i32(code: i32) -> Option<ConditionResult> {
        if code == 0 {
            Some(ConditionResult::Eq)
        } else if code == 1 {
            Some(ConditionResult::Gt)
        } else if code == 2 {
            Some(ConditionResult::Ge)
        } else if code == 3 {
            Some(ConditionResult::Lt)
        } else if code == 4 {
            Some(ConditionResult::Le)
        } else if code == 5 {
            Some(ConditionResult::Ne)
        } else {
            None
        }
    }

    /// Decodes a wire code; codes outside `0..=5` stand for no relation.
    pub fn from_i32(code: i32) -> (r: Option<ConditionResult>)
        ensures
            r == Self::spec_from_i32(code),
    {
        match code {
            0 => Some(ConditionResult::Eq),
            1 => Some(ConditionResult::Gt),
            2 => Some(ConditionResult::Ge),
            3 => Some(ConditionResult::Lt),
            4 => Some(ConditionResult::Le),
            5 => Some(ConditionResult::Ne),
            _ => None,
        }
    }

    /// The wire code of this relation.
    pub fn to_i32(self) -> (code: i32)
        ensures
            Self::spec_from_i32(code) == Some(self),
    {
        match self {
            ConditionResult::Eq => 0,
            ConditionResult::Gt => 1,
            ConditionResult::Ge => 2,
            ConditionResult::Lt => 3,
            ConditionResult::Le => 4,
            ConditionResult::Ne => 5,
        }
    }
}

/// What a condition looks at: the sequence number of a record or its bytes.
#[derive(Debug, Clone, PartialEq, Eq)]
pub enum Target {
    Value(Vec<u8>),
    SeqNum(u64),
}

/// One condition of a transaction.
#[derive(Debug, Clone, PartialEq, Eq)]
pub struct TxnCondition {
    pub key: String,
    pub target: Target,
    /// The wire code of a [`ConditionResult`].
    pub expected: i32,
}

/// One operation of a transaction.
#[derive(Debug, Clone, PartialEq, Eq)]
pub enum TxnOp {
    Get { key: String },
    Put { key: String, value: Vec<u8>, prev_value: bool },
    Delete { key: String, prev_value: bool },
}

/// A transaction as it is submitted.
#[derive(Debug, Clone, PartialEq, Eq)]
pub struct TxnRequest {
    pub condition: Vec<TxnCondition>,
    pub if_then: Vec<TxnOp>,
    pub else_then: Vec<TxnOp>,
}

/// A record as a transaction reports it: its sequence number and bytes.
#[derive(Debug, PartialEq, Eq)]
pub struct PbSeqV {
    pub seq: u64,
    pub data: Vec<u8>,
}

/// The abstract value of a [`PbSeqV`].
pub struct PbSeqVView {
    pub seq: u64,
    pub data: Seq<u8>,
}

impl DeepView for PbSeqV {
    type V = PbSeqVView;

    open spec fn deep_view(&self) -> PbSeqVView {
        PbSeqVView { seq: self.seq, data: self.data@ }
    }
}

impl View for PbSeqV {
    type V = PbSeqVView;

    open spec fn view(&self) -> PbSeqVView {
        self.deep_view()
    }
}

impl Clone for PbSeqV {
    fn clone(&self) -> (r: Self)
        ensures
            r@ == self@,
    {
        PbSeqV { seq: self.seq, data: self.data.clone() }
    }
}

/// What a transaction reports of a record.
pub open spec fn pb_of(sv: SeqV<Seq<u8>>) -> PbSeqVView {
    PbSeqVView { seq: sv.seq, data: sv.data }
}

/// What a transaction reports of a record that may be absent.
pub open spec fn pb_of_opt(sv: Option<SeqV<Seq<u8>>>) -> Option<PbSeqVView> {
    match sv {
        Some(v) => Some(pb_of(v)),
        None => None,
    }
}

impl PbSeqV {
    /// Keeps the sequence number and the bytes of a record, and drops its meta.
    pub fn from_seqv(sv: SeqV<Vec<u8>>) -> (r: PbSeqV)
        ensures
            r@ == pb_of(sv@),
    {
        PbSeqV { seq: sv.seq, data: sv.data }
    }

    /// [`PbSeqV::from_seqv`] on a record that may be absent.
    pub fn from_opt(sv: Option<SeqV<Vec<u8>>>) -> (r: Option<PbSeqV>)
        ensures
            r.deep_view() == pb_of_opt(sv.deep_view()),
    {
        match sv {
            Some(v) => Some(PbSeqV::from_seqv(v)),
            None => None,
        }
    }
}

/// The outcome of one operation of a transaction.
#[derive(Debug, PartialEq, Eq)]
pub enum TxnOpResponse {
    Get { key: String, value: Option<PbSeqV> },
    Put { key: String, prev_value: Option<PbSeqV> },
    Delete { key: String, success: bool, prev_value: Option<PbSeqV> },
}

/// The abstract value of a [`TxnOpResponse`].
pub enum TxnOpResponseView {
    Get { key: Seq<char>, value: Option<PbSeqVView> },
    Put { key: Seq<char>, prev_value: Option<PbSeqVView> },
    Delete { key: Seq<char>, success: bool, prev_value: Option<PbSeqVView> },
}

impl DeepView for TxnOpResponse {
    type V = TxnOpResponseView;

    open spec fn deep_view(&self) -> TxnOpResponseView {
        match self {
            TxnOpResponse::Get { key, value } => TxnOpResponseView::Get {
                key: key@,
                value: value.deep_view(),
            },
            TxnOpResponse::Put { key, prev_value } => TxnOpResponseView::Put {
                key: key@,
                prev_value: prev_value.deep_view(),
            },
            TxnOpResponse::Delete { key, success, prev_value } => TxnOpResponseView::Delete {
                key: key@,
                success: *success,
                prev_value: prev_value.deep_view(),
            },
        }
    }
}

impl View for TxnOpResponse {
    type V = TxnOpResponseView;

    open spec fn view(&self) -> TxnOpResponseView {
        self.deep_view()
    }
}

/// Copies a reported record that may be absent.
pub fn clone_pb_opt(v: &Option<PbSeqV>) -> (r: Option<PbSeqV>)
    ensures
        r.deep_view() == v.deep_view(),
{
    match v {
        Some(p) => Some(p.clone()),
        None => None,
    }
}

impl Clone for TxnOpResponse {
    fn clone(&self) -> (r: Self)
        ensures
            r@ == self@,
    {
        match self {
            TxnOpResponse::Get { key, value } => TxnOpResponse::Get {
                key: key.clone(),
                value: clone_pb_opt(value),
            },
            TxnOpResponse::Put { key, prev_value } => TxnOpResponse::Put {
                key: key.clone(),
                prev_value: clone_pb_opt(prev_value),
            },
            TxnOpResponse::Delete { key, success, prev_value } => TxnOpResponse::Delete {
                key: key.clone(),
                success: *success,
                prev_value: clone_pb_opt(prev_value),
            },
        }
    }
}

/// What a transaction answers: which branch ran, and the outcome of each of
/// its operations in order.
#[derive(Debug, PartialEq, Eq)]
pub struct TxnReply {
    pub success: bool,
    pub error: String,
    pub responses: Vec<TxnOpResponse>,
}

/// The abstract value of a [`TxnReply`].
pub struct TxnReplyView {
    pub success: bool,
    pub error: Seq<char>,
    pub responses: Seq<TxnOpResponseView>,
}

impl DeepView for TxnReply {
    type V = TxnReplyView;

    open spec fn deep_view(&self) -> TxnReplyView {
        TxnReplyView {
            success: self.success,
            error: self.error@,
            responses: self.responses.deep_view(),
        }
    }
}

impl View for TxnReply {
    type V = TxnReplyView;

    open spec fn view(&self) -> TxnReplyView {
        self.deep_view()
    }
}

impl Clone for TxnReply {
    fn clone(&self) -> (r: Self)
        ensures
            r@ == self@,
    {
        let mut responses: Vec<TxnOpResponse> = Vec::new();
        let mut i: usize = 0;
        while i < self.responses.len()
            invariant
                i <= self.responses.len(),
                responses.len() == i,
                forall|j: int| 0 <= j < i ==> responses@[j]@ == self.responses@[j]@,
            decreases self.responses.len() - i,
        {
            responses.push(self.responses[i].clone());
            i += 1;
        }
        proof {
            assert(responses.deep_view() =~= self.responses.deep_view());
        }
        TxnReply { success: self.success, error: self.error.clone(), responses }
    }
}

} // verus!
