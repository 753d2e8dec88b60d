//! Snapshots: the whole state as an ordered list of key and value bytes, and
//! the way back from such a list to a state machine.

use vstd::prelude::*;
use vstd::string::{StringExecFns, StringSliceAdditionalSpecFns};
use crate::bytes::clone_bytes;
use crate::clock::unix_seconds;
use crate::cmd::{ClientLastRespValue, EffectiveMembership};
use crate::codec::{put_raw, Codec, Reader};
use crate::journal::physical;
use crate::keyspace::{sorted_pairs, KeySpace};
use crate::model::StateView;
use crate::state_machine::StateMachine;
use crate::text::{decimal, u64_to_decimal};
use crate::types::{LogId, Node, SeqV};

verus! {

/// The first byte of the keys of the counters.
pub const PREFIX_SEQUENCES: u8 = 1;

/// The first byte of the keys of the records that the machine keeps about itself.
pub const PREFIX_META: u8 = 2;

/// The first byte of the keys of the nodes.
pub const PREFIX_NODES: u8 = 3;

/// The first byte of the keys of the key-value records.
pub const PREFIX_GENERIC_KV: u8 = 4;

/// The first byte of the keys of the last responses to clients.
pub const PREFIX_CLIENT_LAST_RESPS: u8 = 5;

/// The key, after the prefix, of the position of the last applied entry.
pub const META_LAST_APPLIED: u8 = 1;

/// The key, after the prefix, of the mark that the machine was opened before.
pub const META_INITIALIZED: u8 = 2;

/// The key, after the prefix, of the last membership.
pub const META_LAST_MEMBERSHIP: u8 = 3;

/// Why stored data could not be used.
#[derive(Debug, Clone, Copy, PartialEq, Eq, Structural)]
pub enum MetaStorageError {
    /// A stored pair is not a key and a value, its key belongs to no keyspace,
    /// or its value does not decode to what that keyspace holds.
    Corruption,
}

/// A snapshot as mathematics: a list of items, each a list of byte strings.
pub type Kvs = Seq<Seq<Seq<u8>>>;

/// The byte strings of one item.
pub open spec fn item_view(item: Vec<Vec<u8>>) -> Seq<Seq<u8>> {
    Seq::new(item@.len(), |j: int| item@[j]@)
}

/// The items of a list.
pub open spec fn kvs_view(v: Vec<Vec<Vec<u8>>>) -> Kvs {
    Seq::new(v@.len(), |i: int| item_view(v@[i]))
}

/// Snapshot data for transport: a list of pairs, each a key and a value.
#[derive(Debug, Clone, PartialEq, Eq, Default)]
pub struct SerializableSnapshot {
    /// A list of pairs; each holds two byte strings, the key and the value.
    pub kvs: Vec<Vec<Vec<u8>>>,
}

impl View for SerializableSnapshot {
    type V = Kvs;

    open spec fn view(&self) -> Kvs {
        kvs_view(self.kvs)
    }
}

impl SerializableSnapshot {
    /// The snapshot in the shape in which a tree store imports it: one
    /// collection of the kind `tree`, named `state_machine`, with the pairs.
    pub fn sled_importable(self) -> (r: Vec<(Vec<u8>, Vec<u8>, Vec<Vec<Vec<u8>>>)>)
        ensures
            r@.len() == 1,
            r@[0].0@ == "tree".spec_bytes(),
            r@[0].1@ == "state_machine".spec_bytes(),
            r@[0].2 == self.kvs,
    {
        let mut r: Vec<(Vec<u8>, Vec<u8>, Vec<Vec<Vec<u8>>>)> = Vec::new();
        r.push((clone_bytes("tree".as_bytes()), clone_bytes("state_machine".as_bytes()), self.kvs));
        r
    }
}

/// The pairs of one keyspace as they stand in a snapshot: before each key the
/// prefix of the keyspace, and each value as it is written.
pub open spec fn segment<V: Codec>(prefix: u8, ps: Seq<(Seq<u8>, V::V)>) -> Kvs {
    Seq::new(ps.len(), |i: int| seq![seq![prefix] + ps[i].0, V::enc(ps[i].1)])
}

/// The one pair of a meta record.
pub open spec fn meta_pair(tag: u8, value: Seq<u8>) -> Kvs {
    seq![seq![seq![PREFIX_META, tag], value]]
}

/// The meta records as they stand in a snapshot, those that are absent left out.
pub open spec fn meta_segment(s: StateView) -> Kvs {
    (match s.last_applied {
        Some(l) => meta_pair(META_LAST_APPLIED, LogId::enc(l)),
        None => Seq::empty(),
    }) + (if s.initialized {
        meta_pair(META_INITIALIZED, bool::enc(true))
    } else {
        Seq::empty()
    }) + (match s.last_membership {
        Some(m) => meta_pair(META_LAST_MEMBERSHIP, EffectiveMembership::enc(m)),
        None => Seq::empty(),
    })
}

/// The snapshot of a state: every keyspace in the order of the prefixes, and
/// within a keyspace every pair in the order of the keys.
pub open spec fn snapshot_of(s: StateView) -> Kvs {
    segment::<u64>(PREFIX_SEQUENCES, sorted_pairs(s.sequences)) + meta_segment(s) + segment::<Node>(
        PREFIX_NODES,
        sorted_pairs(s.nodes),
    ) + segment::<SeqV<Vec<u8>>>(PREFIX_GENERIC_KV, sorted_pairs(s.kvs)) + segment::<
        ClientLastRespValue,
    >(PREFIX_CLIENT_LAST_RESPS, sorted_pairs(s.client_last_resps))
}

/// The value that a byte string holds, if it holds one and nothing more.
pub open spec fn whole<V: Codec>(bytes: Seq<u8>) -> Option<V::V> {
    match V::dec(bytes) {
        Some((v, rest)) => if rest.len() == 0 {
            Some(v)
        } else {
            None
        },
        None => None,
    }
}

/// The state after a meta record was taken in.
pub open spec fn put_meta_pair(s: StateView, tag: Seq<u8>, value: Seq<u8>) -> Option<StateView> {
    if tag == seq![META_LAST_APPLIED] {
        match whole::<LogId>(value) {
            Some(l) => Some(StateView { last_applied: Some(l), ..s }),
            None => None,
        }
    } else if tag == seq![META_INITIALIZED] {
        match whole::<bool>(value) {
            Some(b) => Some(StateView { initialized: b, ..s }),
            None => None,
        }
    } else if tag == seq![META_LAST_MEMBERSHIP] {
        match whole::<EffectiveMembership>(value) {
            Some(m) => Some(StateView { last_membership: Some(m), ..s }),
            None => None,
        }
    } else {
        None
    }
}

/// The state after one stored pair was taken in: the first byte of the key
/// names the keyspace, the rest is the key within it, and the value must
/// decode, with no byte left over, to what that keyspace holds. A later pair
/// with the same key replaces an earlier one.
#[verifier::opaque]
pub open spec fn put_pair(s: StateView, key: Seq<u8>, value: Seq<u8>) -> Option<StateView> {
    if key.len() == 0 {
        None
    } else {
        let k = key.skip(1);
        if key[0] == PREFIX_SEQUENCES {
            match whole::<u64>(value) {
                Some(v) => Some(StateView { sequences: s.sequences.insert(k, v), ..s }),
                None => None,
            }
        } else if key[0] == PREFIX_META {
            put_meta_pair(s, k, value)
        } else if key[0] == PREFIX_NODES {
            match whole::<Node>(value) {
                Some(v) => if k.len() == 8 {
                    Some(StateView { nodes: s.nodes.insert(k, v), ..s })
                } else {
                    None
                },
                None => None,
            }
        } else if key[0] == PREFIX_GENERIC_KV {
            match whole::<SeqV<Vec<u8>>>(value) {
                Some(v) => Some(StateView { kvs: s.kvs.insert(k, v), ..s }),
                None => None,
            }
        } else if key[0] == PREFIX_CLIENT_LAST_RESPS {
            match whole::<ClientLastRespValue>(value) {
                Some(v) => Some(
                    StateView { client_last_resps: s.client_last_resps.insert(k, v), ..s },
                ),
                None => None,
            }
        } else {
            None
        }
    }
}

/// The state after the items of a snapshot were taken in one after another,
/// or nothing if one of them is not a pair that can be taken in.
pub open spec fn restore_kvs(s: StateView, kvs: Kvs) -> Option<StateView>
    decreases kvs.len(),
{
    if kvs.len() == 0 {
        Some(s)
    } else if kvs[0].len() != 2 {
        None
    } else {
        match put_pair(s, kvs[0][0], kvs[0][1]) {
            Some(s1) => restore_kvs(s1, kvs.drop_first()),
            None => None,
        }
    }
}

/// The state that a snapshot stands for.
pub open spec fn restore(kvs: Kvs) -> Option<StateView> {
    restore_kvs(StateView::empty(), kvs)
}

/// The state of a machine opened on stored data: what the data stands for,
/// marked as initialized.
pub open spec fn opened(kvs: Kvs) -> Option<StateView> {
    match restore(kvs) {
        Some(s) => Some(StateView { initialized: true, ..s }),
        None => None,
    }
}

/// The identifier of a snapshot: term, index and time of taking, in decimal,
/// joined by hyphens.
pub open spec fn snapshot_id(last_applied: LogId, now: u64) -> Seq<char> {
    decimal(last_applied.term as nat) + seq!['-'] + decimal(last_applied.index as nat) + seq!['-']
        + decimal(now as nat)
}

/// The name of the tree that holds the state machine `sm_id`: the prefix of
/// the configuration, `state_machine` and the id, joined by slashes.
pub open spec fn tree_name_of(prefix: Seq<char>, sm_id: u64) -> Seq<char> {
    prefix + "/state_machine/"@ + decimal(sm_id as nat)
}

/// Decodes a value that fills a byte string.
pub fn read_whole<V: Codec>(bytes: &[u8]) -> (r: Option<V>)
    ensures
        r.deep_view() == whole::<V>(bytes@),
{
    let mut reader = Reader::new(bytes);
    let v = V::read(&mut reader)?;
    if reader.at_end() {
        Some(v)
    } else {
        None
    }
}

/// The bytes of a key after its prefix.
pub fn key_tail(key: &[u8]) -> (r: Vec<u8>)
    requires
        key@.len() >= 1,
    ensures
        r@ == key@.skip(1),
{
    let mut r: Vec<u8> = Vec::new();
    let mut i: usize = 1;
    while i < key.len()
        invariant
            1 <= i <= key.len(),
            r@ == key@.subrange(1, i as int),
        decreases key.len() - i,
    {
        r.push(key[i]);
        proof {
            assert(r@ =~= key@.subrange(1, i + 1));
        }
        i += 1;
    }
    proof {
        assert(r@ =~= key@.skip(1));
    }
    r
}

/// Appends the pairs of one keyspace to a snapshot.
fn dump_keyspace<V: Codec>(prefix: u8, ks: &KeySpace<V>, out: &mut Vec<Vec<Vec<u8>>>)
    requires
        ks.wf(),
    ensures
        kvs_view(*final(out)) == kvs_view(*old(out)) + segment::<V>(prefix, sorted_pairs(ks@)),
        forall|k: Seq<u8>| #[trigger] ks@.contains_key(k) ==> V::fits(ks@[k]),
{
    proof {
        ks.lemma_pairs();
    }
    let ghost ps = ks.pairs();
    let ghost head = kvs_view(*out);
    let mut i: usize = 0;
    while i < ks.len()
        invariant
            ks.wf(),
            ps == ks.pairs(),
            i <= ps.len(),
            kvs_view(*out) == head + segment::<V>(prefix, ps).take(i as int),
            forall|j: int| 0 <= j < i ==> V::fits((#[trigger] ps[j]).1),
        decreases ps.len() - i,
    {
        let mut key: Vec<u8> = Vec::new();
        key.push(prefix);
        put_raw(&mut key, ks.key_at(i).as_slice());
        let mut value: Vec<u8> = Vec::new();
        ks.value_at(i).put(&mut value);
        let mut item: Vec<Vec<u8>> = Vec::new();
        item.push(key);
        item.push(value);
        let ghost before = kvs_view(*out);
        out.push(item);
        proof {
            let seg = segment::<V>(prefix, ps);
            assert(key@ =~= seq![prefix] + ps[i as int].0);
            assert(value@ =~= V::enc(ps[i as int].1));
            assert(item_view(item) =~= seg[i as int]);
            assert(kvs_view(*out) =~= before.push(seg[i as int]));
            assert(seg.take(i + 1) =~= seg.take(i as int).push(seg[i as int]));
            assert(kvs_view(*out) =~= head + seg.take(i + 1));
        }
        i += 1;
    }
    proof {
        let seg = segment::<V>(prefix, ps);
        assert(seg.take(i as int) =~= seg);
        assert forall|k: Seq<u8>| #[trigger] ks@.contains_key(k) implies V::fits(ks@[k]) by {
            let j = crate::keyspace::index_of(ps, k);
            crate::keyspace::lemma_map_at(ps, j);
        }
    }
}

/// Appends one meta record to a snapshot.
fn dump_meta<V: Codec>(tag: u8, value: &V, out: &mut Vec<Vec<Vec<u8>>>)
    ensures
        kvs_view(*final(out)) == kvs_view(*old(out)) + meta_pair(tag, V::enc(value.deep_view())),
        V::fits(value.deep_view()),
{
    let mut key: Vec<u8> = Vec::new();
    key.push(PREFIX_META);
    key.push(tag);
    let mut bytes: Vec<u8> = Vec::new();
    value.put(&mut bytes);
    let mut item: Vec<Vec<u8>> = Vec::new();
    item.push(key);
    item.push(bytes);
    let ghost before = kvs_view(*out);
    out.push(item);
    proof {
        let pair = meta_pair(tag, V::enc(value.deep_view()));
        assert(key@ =~= seq![PREFIX_META, tag]);
        assert(bytes@ =~= V::enc(value.deep_view()));
        assert(item_view(item) =~= pair[0]);
        assert(kvs_view(*out) =~= before.push(pair[0]));
        assert(kvs_view(*out) =~= before + pair);
    }
}

impl StateMachine {
    /// The name of the tree that holds the state machine `sm_id` under the
    /// configured `prefix`.
    pub fn tree_name(prefix: &str, sm_id: u64) -> (r: String)
        ensures
            r@ == tree_name_of(prefix@, sm_id),
    {
        let mut r = prefix.to_owned();
        r.append("/state_machine/");
        let id = u64_to_decimal(sm_id);
        r.append(id.as_str());
        r
    }

    /// Takes a snapshot at the time that the clock reads: see
    /// [`StateMachine::build_snapshot_at`].
    pub fn build_snapshot(&self) -> (r: (SerializableSnapshot, LogId, String))
        requires
            self.wf(),
            self@.last_applied is Some,
        ensures
            r.0@ == snapshot_of(self@),
            self@.last_applied == Some(r.1),
            exists|now: u64| r.2@ == #[trigger] snapshot_id(r.1, now),
            restore(r.0@) == Some(self@),
    {
        let now = unix_seconds();
        let r = self.build_snapshot_at(now);
        assert(r.2@ == snapshot_id(r.1, now));
        r
    }

    /// Takes a snapshot at time `now`.
    ///
    /// Returns every pair that the machine stores, the position of the last
    /// applied entry, and an identifier of the snapshot. A machine that has
    /// applied no entry has no snapshot.
    pub fn build_snapshot_at(&self, now: u64) -> (r: (SerializableSnapshot, LogId, String))
        requires
            self.wf(),
            self@.last_applied is Some,
        ensures
            r.0@ == snapshot_of(self@),
            self@.last_applied == Some(r.1),
            r.2@ == snapshot_id(r.1, now),
            restore(r.0@) == Some(self@),
    {
        let meta = self.sm_meta();
        let last_applied = meta.last_applied.unwrap();

        let mut snapshot_id = u64_to_decimal(last_applied.term);
        snapshot_id.append("-");
        let index = u64_to_decimal(last_applied.index);
        snapshot_id.append(index.as_str());
        snapshot_id.append("-");
        let taken = u64_to_decimal(now);
        snapshot_id.append(taken.as_str());
        proof {
            reveal_strlit("-");
            assert("-"@ =~= seq!['-']);
        }

        let mut kvs: Vec<Vec<Vec<u8>>> = Vec::new();
        proof {
            assert(kvs_view(kvs) =~= Seq::<Seq<Seq<u8>>>::empty());
        }
        dump_keyspace::<u64>(PREFIX_SEQUENCES, self.sequences(), &mut kvs);
        let ghost after_sequences = kvs_view(kvs);
        dump_meta::<LogId>(META_LAST_APPLIED, &last_applied, &mut kvs);
        if meta.initialized {
            dump_meta::<bool>(META_INITIALIZED, &true, &mut kvs);
        }
        match &meta.last_membership {
            Some(m) => {
                dump_meta::<EffectiveMembership>(META_LAST_MEMBERSHIP, m, &mut kvs);
            },
            None => {},
        }
        proof {
            assert(kvs_view(kvs) =~= after_sequences + meta_segment(self@));
        }
        dump_keyspace::<Node>(PREFIX_NODES, self.nodes(), &mut kvs);
        dump_keyspace::<SeqV<Vec<u8>>>(PREFIX_GENERIC_KV, self.kvs(), &mut kvs);
        dump_keyspace::<ClientLastRespValue>(
            PREFIX_CLIENT_LAST_RESPS,
            self.client_last_resps(),
            &mut kvs,
        );
        proof {
            assert(kvs_view(kvs) =~= snapshot_of(self@));
            self.lemma_valid();
            crate::snapshot_laws::law_snapshot_roundtrip(self@);
        }
        (SerializableSnapshot { kvs }, last_applied, snapshot_id)
    }

    /// Opens a machine on what is stored: takes in every stored pair, then
    /// marks the machine as initialized. Opening on nothing gives a fresh
    /// machine; opening on what an initialized machine stored gives that
    /// machine back unchanged.
    pub fn open(stored: &SerializableSnapshot) -> (r: Result<StateMachine, MetaStorageError>)
        ensures
            match r {
                Ok(sm) => {
                    &&& sm.wf()
                    &&& sm.subscriber() is None
                    &&& opened(stored@) == Some(sm@)
                    &&& restore(stored@) matches Some(s) && sm.committed() == physical(s)
                },
                Err(e) => opened(stored@) is None,
            },
    {
        let mut sm = StateMachine::empty();
        let ghost all = stored@;
        proof {
            assert(all.skip(0) =~= all);
        }
        let mut i: usize = 0;
        while i < stored.kvs.len()
            invariant
                sm.ordered(),
                sm.subscriber() is None,
                all == stored@,
                i <= stored.kvs@.len(),
                restore(all) == restore_kvs(sm@, all.skip(i as int)),
            decreases stored.kvs.len() - i,
        {
            let item = &stored.kvs[i];
            proof {
                let cur = all.skip(i as int);
                assert(cur[0] == item_view(*item));
                assert(cur.drop_first() =~= all.skip(i + 1));
            }
            if item.len() != 2 {
                return Err(MetaStorageError::Corruption);
            }
            if !sm.import_pair(item[0].as_slice(), item[1].as_slice()) {
                return Err(MetaStorageError::Corruption);
            }
            i += 1;
        }
        proof {
            assert(all.skip(i as int) =~= Seq::<Seq<Seq<u8>>>::empty());
        }
        sm.rebase();
        sm.mark_initialized();
        Ok(sm)
    }
}

} // verus!
