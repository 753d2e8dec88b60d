//! The records that the state machine stores and the commands it is given.

use vstd::prelude::*;

verus! {

/// The position of an entry in the replicated log.
#[derive(Debug, Clone, Copy, PartialEq, Eq, Structural)]
pub struct LogId {
    pub term: u64,
    pub index: u64,
}

impl DeepView for LogId {
    type V = LogId;

    open spec fn deep_view(&self) -> LogId {
        *self
    }
}

impl LogId {
    /// Log positions are ordered by term, then by index.
    pub open spec fn lt(self, other: LogId) -> bool {
        self.term < other.term || (self.term == other.term && self.index < other.index)
    }

    /// Whether this position comes strictly before `other`.
    pub fn is_before(&self, other: &LogId) -> (r: bool)
        ensures
            r == self.lt(*other),
    {
        self.term < other.term || (self.term == other.term && self.index < other.index)
    }
}

/// What is recorded about a value beside its bytes.
#[derive(Debug, Clone, Copy, PartialEq, Eq, Structural)]
pub struct KVMeta {
    /// The time, in seconds since the Unix epoch, from which the record is hidden.
    pub expire_at: Option<u64>,
}

/// A value with the sequence number of the write that produced it.
#[derive(Debug, PartialEq, Eq)]
pub struct SeqV<T> {
    pub seq: u64,
    pub meta: Option<KVMeta>,
    pub data: T,
}

impl<T: View> DeepView for SeqV<T> {
    type V = SeqV<T::V>;

    open spec fn deep_view(&self) -> SeqV<T::V> {
        SeqV { seq: self.seq, meta: self.meta, data: self.data@ }
    }
}

impl<T: View> View for SeqV<T> {
    type V = SeqV<T::V>;

    open spec fn view(&self) -> SeqV<T::V> {
        self.deep_view()
    }
}

impl<T> SeqV<T> {
    /// The time from which this record is hidden, if it has one.
    pub open spec fn expire_at(self) -> Option<u64> {
        match self.meta {
            Some(m) => m.expire_at,
            None => None,
        }
    }

    /// Whether the record is hidden at time `now`.
    pub open spec fn expired(self, now: u64) -> bool {
        self.expire_at() matches Some(t) && now >= t
    }

    /// A record with the given sequence number, meta and data.
    pub fn with_meta(seq: u64, meta: Option<KVMeta>, data: T) -> (r: Self)
        ensures
            r == (SeqV { seq, meta, data }),
    {
        SeqV { seq, meta, data }
    }

    /// The same record with another meta.
    pub fn set_meta(self, meta: Option<KVMeta>) -> (r: Self)
        ensures
            r == (SeqV { seq: self.seq, meta, data: self.data }),
    {
        SeqV { seq: self.seq, meta, data: self.data }
    }

    /// The time from which this record is hidden, if it has one.
    pub fn get_expire_at(&self) -> (r: Option<u64>)
        ensures
            r == self.expire_at(),
    {
        match self.meta {
            Some(m) => m.expire_at,
            None => None,
        }
    }
}

impl Clone for SeqV<Vec<u8>> {
    fn clone(&self) -> (r: Self)
        ensures
            r@ == self@,
    {
        SeqV { seq: self.seq, meta: self.meta, data: self.data.clone() }
    }
}

/// Where a node of the cluster can be reached.
#[derive(Debug, PartialEq, Eq)]
pub struct Endpoint {
    pub addr: String,
    pub port: u32,
}

/// The abstract value of an [`Endpoint`].
pub struct EndpointView {
    pub addr: Seq<char>,
    pub port: u32,
}

impl DeepView for Endpoint {
    type V = EndpointView;

    open spec fn deep_view(&self) -> EndpointView {
        EndpointView { addr: self.addr@, port: self.port }
    }
}

impl View for Endpoint {
    type V = EndpointView;

    open spec fn view(&self) -> EndpointView {
        self.deep_view()
    }
}

impl Clone for Endpoint {
    fn clone(&self) -> (r: Self)
        ensures
            r@ == self@,
    {
        Endpoint { addr: self.addr.clone(), port: self.port }
    }
}

/// A member of the cluster.
#[derive(Debug, PartialEq, Eq)]
pub struct Node {
    pub name: String,
    pub endpoint: Endpoint,
}

/// The abstract value of a [`Node`].
pub struct NodeView {
    pub name: Seq<char>,
    pub endpoint: EndpointView,
}

impl DeepView for Node {
    type V = NodeView;

    open spec fn deep_view(&self) -> NodeView {
        NodeView { name: self.name@, endpoint: self.endpoint@ }
    }
}

impl View for Node {
    type V = NodeView;

    open spec fn view(&self) -> NodeView {
        self.deep_view()
    }
}

impl Clone for Node {
    fn clone(&self) -> (r: Self)
        ensures
            r@ == self@,
    {
        Node { name: self.name.clone(), endpoint: self.endpoint.clone() }
    }
}

} // verus!
