//! The stored form of the state, and the writes that carry a change of the
//! state over to it.
//!
//! The state machine keeps its state in memory. What a durable tree has to
//! hold of it is a mapping from key bytes to value bytes; each change of the
//! state is also noted as a write to that mapping, and the writes noted since
//! the last hand-over are one batch, to be committed as a whole.

use vstd::prelude::*;
use crate::cmd::{ClientLastRespValue, ClientLastRespView, EffectiveMembership, EffectiveMembershipView};
use crate::codec::{put_raw, Codec};
use crate::model::{Record, StateView};
use crate::snapshot::{
    META_INITIALIZED, META_LAST_APPLIED, META_LAST_MEMBERSHIP, PREFIX_CLIENT_LAST_RESPS,
    PREFIX_GENERIC_KV, PREFIX_META, PREFIX_NODES, PREFIX_SEQUENCES,
};
use crate::types::{LogId, Node, NodeView, SeqV};

verus! {

/// One write to the stored mapping: a key and the value it is bound to from
/// now on, or no value where the key is unbound.
#[derive(Debug, Clone, PartialEq, Eq)]
pub struct Write {
    pub key: Vec<u8>,
    pub value: Option<Vec<u8>>,
}

/// The abstract value of a [`Write`].
pub struct WriteView {
    pub key: Seq<u8>,
    pub value: Option<Seq<u8>>,
}

impl DeepView for Write {
    type V = WriteView;

    open spec fn deep_view(&self) -> WriteView {
        WriteView {
            key: self.key@,
            value: match self.value {
                Some(v) => Some(v@),
                None => None,
            },
        }
    }
}

impl View for Write {
    type V = WriteView;

    open spec fn view(&self) -> WriteView {
        self.deep_view()
    }
}

/// A stored mapping: from key bytes to value bytes.
pub type Stored = Map<Seq<u8>, Seq<u8>>;

/// The mapping after one write.
pub open spec fn write_to(m: Stored, w: WriteView) -> Stored {
    match w.value {
        Some(v) => m.insert(w.key, v),
        None => m.remove(w.key),
    }
}

/// The mapping after a list of writes, made in order.
pub open spec fn replay(m: Stored, writes: Seq<WriteView>) -> Stored
    decreases writes.len(),
{
    if writes.len() == 0 {
        m
    } else {
        write_to(replay(m, writes.drop_last()), writes.last())
    }
}

/// One write more is made after the others.
pub proof fn lemma_replay_push(m: Stored, writes: Seq<WriteView>, w: WriteView)
    ensures
        replay(m, writes.push(w)) == write_to(replay(m, writes), w),
{
    assert(writes.push(w).drop_last() =~= writes);
}

/// The bytes stored for a meta record.
pub open spec fn stored_meta(s: StateView, tag: Seq<u8>) -> Option<Seq<u8>> {
    if tag == seq![META_LAST_APPLIED] {
        match s.last_applied {
            Some(l) => Some(LogId::enc(l)),
            None => None,
        }
    } else if tag == seq![META_INITIALIZED] {
        if s.initialized {
            Some(bool::enc(true))
        } else {
            None
        }
    } else if tag == seq![META_LAST_MEMBERSHIP] {
        match s.last_membership {
            Some(m) => Some(EffectiveMembership::enc(m)),
            None => None,
        }
    } else {
        None
    }
}

/// The bytes stored under a key: the first byte of the key names the
/// keyspace, the rest is the key within it.
#[verifier::opaque]
pub open spec fn stored_at(s: StateView, pk: Seq<u8>) -> Option<Seq<u8>> {
    if pk.len() == 0 {
        None
    } else {
        let k = pk.skip(1);
        if pk[0] == PREFIX_SEQUENCES {
            if s.sequences.contains_key(k) {
                Some(u64::enc(s.sequences[k]))
            } else {
                None
            }
        } else if pk[0] == PREFIX_META {
            stored_meta(s, k)
        } else if pk[0] == PREFIX_NODES {
            if s.nodes.contains_key(k) {
                Some(Node::enc(s.nodes[k]))
            } else {
                None
            }
        } else if pk[0] == PREFIX_GENERIC_KV {
            if s.kvs.contains_key(k) {
                Some(<SeqV<Vec<u8>>>::enc(s.kvs[k]))
            } else {
                None
            }
        } else if pk[0] == PREFIX_CLIENT_LAST_RESPS {
            if s.client_last_resps.contains_key(k) {
                Some(ClientLastRespValue::enc(s.client_last_resps[k]))
            } else {
                None
            }
        } else {
            None
        }
    }
}

/// The stored form of a state.
pub open spec fn physical(s: StateView) -> Stored {
    Map::new(|pk: Seq<u8>| stored_at(s, pk) is Some, |pk: Seq<u8>| stored_at(s, pk)->0)
}

/// Of a state that holds nothing, nothing is stored.
pub proof fn lemma_physical_empty()
    ensures
        physical(StateView::empty()) == Map::<Seq<u8>, Seq<u8>>::empty(),
{
    reveal(stored_at);
    assert(physical(StateView::empty()) =~= Map::<Seq<u8>, Seq<u8>>::empty());
}

/// A key is a prefix followed by `k` exactly if its first byte is the prefix
/// and the rest is `k`.
proof fn lemma_prefixed(p: u8, k: Seq<u8>, pk: Seq<u8>)
    ensures
        (pk.len() > 0 && pk[0] == p && pk.skip(1) == k) <==> pk == seq![p] + k,
{
    if pk.len() > 0 && pk[0] == p && pk.skip(1) == k {
        assert(pk =~= seq![p] + k);
    }
    if pk == seq![p] + k {
        assert(pk.skip(1) =~= k);
    }
}

/// Two states whose stored bytes differ at one key only: the stored form of
/// the second is that of the first after one write.
proof fn lemma_one_write(a: StateView, b: StateView, w: WriteView)
    requires
        stored_at(b, w.key) == w.value,
        forall|pk: Seq<u8>| pk != w.key ==> stored_at(b, pk) == stored_at(a, pk),
    ensures
        physical(b) == write_to(physical(a), w),
{
    assert(physical(b) =~= write_to(physical(a), w));
}

/// Binding a counter is one write to the stored form.
pub proof fn lemma_physical_sequence(s: StateView, k: Seq<u8>, v: u64)
    ensures
        physical(StateView { sequences: s.sequences.insert(k, v), ..s }) == write_to(
            physical(s),
            WriteView { key: seq![PREFIX_SEQUENCES] + k, value: Some(u64::enc(v)) },
        ),
{
    reveal(stored_at);
    let b = StateView { sequences: s.sequences.insert(k, v), ..s };
    let w = WriteView { key: seq![PREFIX_SEQUENCES] + k, value: Some(u64::enc(v)) };
    assert forall|pk: Seq<u8>| true implies (if pk == w.key {
        stored_at(b, pk) == w.value
    } else {
        stored_at(b, pk) == stored_at(s, pk)
    }) by {
        lemma_prefixed(PREFIX_SEQUENCES, k, pk);
    }
    assert(stored_at(b, w.key) == w.value);
    lemma_one_write(s, b, w);
}

/// Binding a node is one write to the stored form.
pub proof fn lemma_physical_node(s: StateView, k: Seq<u8>, v: NodeView)
    ensures
        physical(StateView { nodes: s.nodes.insert(k, v), ..s }) == write_to(
            physical(s),
            WriteView { key: seq![PREFIX_NODES] + k, value: Some(Node::enc(v)) },
        ),
{
    reveal(stored_at);
    let b = StateView { nodes: s.nodes.insert(k, v), ..s };
    let w = WriteView { key: seq![PREFIX_NODES] + k, value: Some(Node::enc(v)) };
    assert forall|pk: Seq<u8>| true implies (if pk == w.key {
        stored_at(b, pk) == w.value
    } else {
        stored_at(b, pk) == stored_at(s, pk)
    }) by {
        lemma_prefixed(PREFIX_NODES, k, pk);
    }
    assert(stored_at(b, w.key) == w.value);
    lemma_one_write(s, b, w);
}

/// Unbinding a node is one write to the stored form.
pub proof fn lemma_physical_node_removed(s: StateView, k: Seq<u8>)
    ensures
        physical(StateView { nodes: s.nodes.remove(k), ..s }) == write_to(
            physical(s),
            WriteView { key: seq![PREFIX_NODES] + k, value: None },
        ),
{
    reveal(stored_at);
    let b = StateView { nodes: s.nodes.remove(k), ..s };
    let w = WriteView { key: seq![PREFIX_NODES] + k, value: None };
    assert forall|pk: Seq<u8>| true implies (if pk == w.key {
        stored_at(b, pk) == w.value
    } else {
        stored_at(b, pk) == stored_at(s, pk)
    }) by {
        lemma_prefixed(PREFIX_NODES, k, pk);
    }
    assert(stored_at(b, w.key) == w.value);
    lemma_one_write(s, b, w);
}

/// Binding a key-value record is one write to the stored form.
pub proof fn lemma_physical_kv(s: StateView, k: Seq<u8>, v: Record)
    ensures
        physical(StateView { kvs: s.kvs.insert(k, v), ..s }) == write_to(
            physical(s),
            WriteView { key: seq![PREFIX_GENERIC_KV] + k, value: Some(<SeqV<Vec<u8>>>::enc(v)) },
        ),
{
    reveal(stored_at);
    let b = StateView { kvs: s.kvs.insert(k, v), ..s };
    let w = WriteView { key: seq![PREFIX_GENERIC_KV] + k, value: Some(<SeqV<Vec<u8>>>::enc(v)) };
    assert forall|pk: Seq<u8>| true implies (if pk == w.key {
        stored_at(b, pk) == w.value
    } else {
        stored_at(b, pk) == stored_at(s, pk)
    }) by {
        lemma_prefixed(PREFIX_GENERIC_KV, k, pk);
    }
    assert(stored_at(b, w.key) == w.value);
    lemma_one_write(s, b, w);
}

/// Unbinding a key-value record is one write to the stored form.
pub proof fn lemma_physical_kv_removed(s: StateView, k: Seq<u8>)
    ensures
        physical(StateView { kvs: s.kvs.remove(k), ..s }) == write_to(
            physical(s),
            WriteView { key: seq![PREFIX_GENERIC_KV] + k, value: None },
        ),
{
    reveal(stored_at);
    let b = StateView { kvs: s.kvs.remove(k), ..s };
    let w = WriteView { key: seq![PREFIX_GENERIC_KV] + k, value: None };
    assert forall|pk: Seq<u8>| true implies (if pk == w.key {
        stored_at(b, pk) == w.value
    } else {
        stored_at(b, pk) == stored_at(s, pk)
    }) by {
        lemma_prefixed(PREFIX_GENERIC_KV, k, pk);
    }
    assert(stored_at(b, w.key) == w.value);
    lemma_one_write(s, b, w);
}

/// Recording a client's last response is one write to the stored form.
pub proof fn lemma_physical_client(s: StateView, k: Seq<u8>, v: ClientLastRespView)
    ensures
        physical(StateView { client_last_resps: s.client_last_resps.insert(k, v), ..s })
            == write_to(
            physical(s),
            WriteView {
                key: seq![PREFIX_CLIENT_LAST_RESPS] + k,
                value: Some(ClientLastRespValue::enc(v)),
            },
        ),
{
    reveal(stored_at);
    let b = StateView { client_last_resps: s.client_last_resps.insert(k, v), ..s };
    let w = WriteView {
        key: seq![PREFIX_CLIENT_LAST_RESPS] + k,
        value: Some(ClientLastRespValue::enc(v)),
    };
    assert forall|pk: Seq<u8>| true implies (if pk == w.key {
        stored_at(b, pk) == w.value
    } else {
        stored_at(b, pk) == stored_at(s, pk)
    }) by {
        lemma_prefixed(PREFIX_CLIENT_LAST_RESPS, k, pk);
    }
    assert(stored_at(b, w.key) == w.value);
    lemma_one_write(s, b, w);
}

/// The three meta keys differ from each other.
proof fn lemma_meta_tags_differ()
    ensures
        seq![META_LAST_APPLIED] != seq![META_INITIALIZED],
        seq![META_LAST_APPLIED] != seq![META_LAST_MEMBERSHIP],
        seq![META_INITIALIZED] != seq![META_LAST_MEMBERSHIP],
{
    assert(seq![META_LAST_APPLIED][0] != seq![META_INITIALIZED][0]);
    assert(seq![META_LAST_APPLIED][0] != seq![META_LAST_MEMBERSHIP][0]);
    assert(seq![META_INITIALIZED][0] != seq![META_LAST_MEMBERSHIP][0]);
}

/// Setting the last applied position is one write to the stored form.
pub proof fn lemma_physical_last_applied(s: StateView, l: LogId)
    ensures
        physical(StateView { last_applied: Some(l), ..s }) == write_to(
            physical(s),
            WriteView {
                key: seq![PREFIX_META] + seq![META_LAST_APPLIED],
                value: Some(LogId::enc(l)),
            },
        ),
{
    reveal(stored_at);
    lemma_meta_tags_differ();
    let b = StateView { last_applied: Some(l), ..s };
    let w = WriteView {
        key: seq![PREFIX_META] + seq![META_LAST_APPLIED],
        value: Some(LogId::enc(l)),
    };
    assert forall|pk: Seq<u8>| true implies (if pk == w.key {
        stored_at(b, pk) == w.value
    } else {
        stored_at(b, pk) == stored_at(s, pk)
    }) by {
        lemma_prefixed(PREFIX_META, seq![META_LAST_APPLIED], pk);
    }
    assert(stored_at(b, w.key) == w.value);
    lemma_one_write(s, b, w);
}

/// Setting the last membership is one write to the stored form.
pub proof fn lemma_physical_membership(s: StateView, m: EffectiveMembershipView)
    ensures
        physical(StateView { last_membership: Some(m), ..s }) == write_to(
            physical(s),
            WriteView {
                key: seq![PREFIX_META] + seq![META_LAST_MEMBERSHIP],
                value: Some(EffectiveMembership::enc(m)),
            },
        ),
{
    reveal(stored_at);
    lemma_meta_tags_differ();
    let b = StateView { last_membership: Some(m), ..s };
    let w = WriteView {
        key: seq![PREFIX_META] + seq![META_LAST_MEMBERSHIP],
        value: Some(EffectiveMembership::enc(m)),
    };
    assert forall|pk: Seq<u8>| true implies (if pk == w.key {
        stored_at(b, pk) == w.value
    } else {
        stored_at(b, pk) == stored_at(s, pk)
    }) by {
        lemma_prefixed(PREFIX_META, seq![META_LAST_MEMBERSHIP], pk);
    }
    assert(stored_at(b, w.key) == w.value);
    lemma_one_write(s, b, w);
}

/// Marking the machine as initialized is one write to the stored form.
pub proof fn lemma_physical_initialized(s: StateView)
    ensures
        physical(StateView { initialized: true, ..s }) == write_to(
            physical(s),
            WriteView {
                key: seq![PREFIX_META] + seq![META_INITIALIZED],
                value: Some(bool::enc(true)),
            },
        ),
{
    reveal(stored_at);
    lemma_meta_tags_differ();
    let b = StateView { initialized: true, ..s };
    let w = WriteView {
        key: seq![PREFIX_META] + seq![META_INITIALIZED],
        value: Some(bool::enc(true)),
    };
    assert forall|pk: Seq<u8>| true implies (if pk == w.key {
        stored_at(b, pk) == w.value
    } else {
        stored_at(b, pk) == stored_at(s, pk)
    }) by {
        lemma_prefixed(PREFIX_META, seq![META_INITIALIZED], pk);
    }
    assert(stored_at(b, w.key) == w.value);
    lemma_one_write(s, b, w);
}

/// Notes that the key `key` of the keyspace `prefix` is bound to `value`.
pub fn note_put<V: Codec>(journal: &mut Vec<Write>, prefix: u8, key: &[u8], value: &V)
    ensures
        final(journal).deep_view() == old(journal).deep_view().push(
            WriteView { key: seq![prefix] + key@, value: Some(V::enc(value.deep_view())) },
        ),
{
    let mut pk: Vec<u8> = Vec::new();
    pk.push(prefix);
    put_raw(&mut pk, key);
    let mut bytes: Vec<u8> = Vec::new();
    value.put(&mut bytes);
    let ghost before = journal.deep_view();
    journal.push(Write { key: pk, value: Some(bytes) });
    proof {
        assert(pk@ =~= seq![prefix] + key@);
        assert(bytes@ =~= V::enc(value.deep_view()));
        assert(journal.deep_view() =~= before.push(
            WriteView { key: seq![prefix] + key@, value: Some(V::enc(value.deep_view())) },
        ));
    }
}

/// Notes that the key `key` of the keyspace `prefix` is unbound.
pub fn note_remove(journal: &mut Vec<Write>, prefix: u8, key: &[u8])
    ensures
        final(journal).deep_view() == old(journal).deep_view().push(
            WriteView { key: seq![prefix] + key@, value: None },
        ),
{
    let mut pk: Vec<u8> = Vec::new();
    pk.push(prefix);
    put_raw(&mut pk, key);
    let ghost before = journal.deep_view();
    journal.push(Write { key: pk, value: None });
    proof {
        assert(pk@ =~= seq![prefix] + key@);
        assert(journal.deep_view() =~= before.push(
            WriteView { key: seq![prefix] + key@, value: None },
        ));
    }
}

} // verus!
