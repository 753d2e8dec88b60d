//! Taking in a snapshot of a state gives that state back.

use vstd::prelude::*;
use crate::cmd::{ClientLastRespValue, ClientLastRespView, EffectiveMembership};
use crate::bytes::{bytes_lt, lt_at};
use crate::codec::Codec;
use crate::journal::{physical, stored_at, stored_meta};
use crate::keyspace::{
    has_key, index_of, lemma_map_at, lemma_take_step, representable, sorted, sorted_pairs, to_map,
};
use crate::model::{Record, StateView};
use crate::snapshot::{
    meta_pair, meta_segment, put_meta_pair, put_pair, restore, restore_kvs, segment, snapshot_of,
    whole, Kvs, META_INITIALIZED, META_LAST_APPLIED, META_LAST_MEMBERSHIP,
    PREFIX_CLIENT_LAST_RESPS, PREFIX_GENERIC_KV, PREFIX_META, PREFIX_NODES, PREFIX_SEQUENCES,
};
use crate::types::{LogId, Node, NodeView, SeqV};

verus! {

/// Every length inside every stored value can be written as a number.
pub open spec fn state_fits(s: StateView) -> bool {
    &&& forall|k: Seq<u8>| #[trigger] s.nodes.contains_key(k) ==> Node::fits(s.nodes[k])
    &&& forall|k: Seq<u8>| #[trigger] s.kvs.contains_key(k) ==> <SeqV<Vec<u8>>>::fits(s.kvs[k])
    &&& forall|k: Seq<u8>| #[trigger]
        s.client_last_resps.contains_key(k) ==> ClientLastRespValue::fits(s.client_last_resps[k])
    &&& s.last_membership matches Some(m) ==> EffectiveMembership::fits(m)
}

/// Taking in one list after another is taking in the two joined.
pub proof fn lemma_restore_concat(s: StateView, a: Kvs, b: Kvs)
    ensures
        restore_kvs(s, a + b) == match restore_kvs(s, a) {
            Some(s1) => restore_kvs(s1, b),
            None => None,
        },
    decreases a.len(),
{
    if a.len() == 0 {
        assert(a + b =~= b);
    } else {
        assert((a + b)[0] == a[0]);
        assert((a + b).drop_first() =~= a.drop_first() + b);
        if a[0].len() == 2 {
            match put_pair(s, a[0][0], a[0][1]) {
                Some(s1) => {
                    lemma_restore_concat(s1, a.drop_first(), b);
                },
                None => {},
            }
        }
    }
}

/// Taking in one meta record.
proof fn lemma_restore_meta_pair(s: StateView, tag: u8, value: Seq<u8>)
    ensures
        restore_kvs(s, meta_pair(tag, value)) == put_meta_pair(s, seq![tag], value),
{
    reveal(put_pair);
    let kvs = meta_pair(tag, value);
    assert(kvs[0].len() == 2);
    assert(kvs[0][0] == seq![PREFIX_META, tag]);
    assert(kvs[0][0].skip(1) =~= seq![tag]);
    assert(kvs.drop_first() =~= Seq::<Seq<Seq<u8>>>::empty());
    match put_pair(s, kvs[0][0], kvs[0][1]) {
        Some(s1) => {
            assert(restore_kvs(s1, kvs.drop_first()) == Some(s1));
        },
        None => {},
    }
}

/// Taking in the meta records of a state, in a state that has none, gives a
/// state with those meta records.
proof fn lemma_restore_meta(s: StateView, t: StateView)
    requires
        !s.initialized,
        s.last_applied is None,
        s.last_membership is None,
        t.last_membership matches Some(m) ==> EffectiveMembership::fits(m),
    ensures
        restore_kvs(s, meta_segment(t)) == Some(
            StateView {
                initialized: t.initialized,
                last_applied: t.last_applied,
                last_membership: t.last_membership,
                ..s
            },
        ),
{
    let a: Kvs = match t.last_applied {
        Some(l) => meta_pair(META_LAST_APPLIED, LogId::enc(l)),
        None => Seq::empty(),
    };
    let b: Kvs = if t.initialized {
        meta_pair(META_INITIALIZED, bool::enc(true))
    } else {
        Seq::empty()
    };
    let c: Kvs = match t.last_membership {
        Some(m) => meta_pair(META_LAST_MEMBERSHIP, EffectiveMembership::enc(m)),
        None => Seq::empty(),
    };
    assert(meta_segment(t) == a + b + c);
    let s1 = StateView { last_applied: t.last_applied, ..s };
    assert(restore_kvs(s, a) == Some(s1)) by {
        match t.last_applied {
            Some(l) => {
                lemma_restore_meta_pair(s, META_LAST_APPLIED, LogId::enc(l));
                LogId::lemma_roundtrip(l, Seq::empty());
                assert(LogId::enc(l) + Seq::<u8>::empty() =~= LogId::enc(l));
                assert(whole::<LogId>(LogId::enc(l)) == Some(l));
            },
            None => {
                assert(s1 == s);
            },
        }
    }
    let s2 = StateView { initialized: t.initialized, ..s1 };
    assert(restore_kvs(s1, b) == Some(s2)) by {
        if t.initialized {
            lemma_restore_meta_pair(s1, META_INITIALIZED, bool::enc(true));
            bool::lemma_roundtrip(true, Seq::empty());
            assert(bool::enc(true) + Seq::<u8>::empty() =~= bool::enc(true));
            assert(whole::<bool>(bool::enc(true)) == Some(true));
            assert(seq![META_INITIALIZED] != seq![META_LAST_APPLIED]) by {
                assert(seq![META_INITIALIZED][0] != seq![META_LAST_APPLIED][0]);
            }
        } else {
            assert(s2 == s1);
        }
    }
    let s3 = StateView { last_membership: t.last_membership, ..s2 };
    assert(restore_kvs(s2, c) == Some(s3)) by {
        match t.last_membership {
            Some(m) => {
                lemma_restore_meta_pair(s2, META_LAST_MEMBERSHIP, EffectiveMembership::enc(m));
                EffectiveMembership::lemma_roundtrip(m, Seq::empty());
                assert(EffectiveMembership::enc(m) + Seq::<u8>::empty()
                    =~= EffectiveMembership::enc(m));
                assert(whole::<EffectiveMembership>(EffectiveMembership::enc(m)) == Some(m));
                assert(seq![META_LAST_MEMBERSHIP] != seq![META_LAST_APPLIED]) by {
                    assert(seq![META_LAST_MEMBERSHIP][0] != seq![META_LAST_APPLIED][0]);
                }
                assert(seq![META_LAST_MEMBERSHIP] != seq![META_INITIALIZED]) by {
                    assert(seq![META_LAST_MEMBERSHIP][0] != seq![META_INITIALIZED][0]);
                }
            },
            None => {
                assert(s3 == s2);
            },
        }
    }
    lemma_restore_concat(s, a, b);
    lemma_restore_concat(s, a + b, c);
}

/// Taking in one pair of the counters binds its key to its value.
proof fn lemma_put_sequences(s: StateView, k: Seq<u8>, v: u64)
    requires
        <u64>::fits(v),
    ensures
        put_pair(s, seq![PREFIX_SEQUENCES] + k, <u64>::enc(v)) == Some(
            StateView { sequences: s.sequences.insert(k, v), ..s },
        ),
{
    reveal(put_pair);
    assert((seq![PREFIX_SEQUENCES] + k).skip(1) =~= k);
    <u64>::lemma_roundtrip(v, Seq::empty());
    assert(<u64>::enc(v) + Seq::<u8>::empty() =~= <u64>::enc(v));
    assert(whole::<u64>(<u64>::enc(v)) == Some(v));
}

/// Taking in the pairs of the counters from position `i` on, in a state that holds
/// the pairs before `i`, gives the state that holds them all.
proof fn lemma_restore_sequences(s: StateView, ps: Seq<(Seq<u8>, u64)>, i: int)
    requires
        sorted(ps),
        0 <= i <= ps.len(),
        forall|j: int| 0 <= j < ps.len() ==> <u64>::fits((#[trigger] ps[j]).1),
        s.sequences == to_map(ps.take(i)),
    ensures
        restore_kvs(s, segment::<u64>(PREFIX_SEQUENCES, ps).skip(i)) == Some(
            StateView { sequences: to_map(ps), ..s },
        ),
    decreases ps.len() - i,
{
    let seg = segment::<u64>(PREFIX_SEQUENCES, ps);
    if i == ps.len() {
        assert(seg.skip(i) =~= Seq::<Seq<Seq<u8>>>::empty());
        assert(ps.take(i) =~= ps);
        assert(s == StateView { sequences: to_map(ps), ..s });
    } else {
        let cur = seg.skip(i);
        let k = ps[i].0;
        let v = ps[i].1;
        let item = seq![seq![PREFIX_SEQUENCES] + k, <u64>::enc(v)];
        assert(cur[0] == item);
        assert(item.len() == 2 && item[0] == seq![PREFIX_SEQUENCES] + k && item[1] == <u64>::enc(v));
        let s1 = StateView { sequences: s.sequences.insert(k, v), ..s };
        lemma_put_sequences(s, k, v);
        lemma_take_step(ps, i);
        assert(cur.drop_first() =~= seg.skip(i + 1));
        lemma_restore_sequences(s1, ps, i + 1);
        assert(StateView { sequences: to_map(ps), ..s1 } == StateView { sequences: to_map(ps), ..s });
    }
}

/// Taking in one pair of the nodes binds its key to its value.
proof fn lemma_put_nodes(s: StateView, k: Seq<u8>, v: NodeView)
    requires
        <Node>::fits(v),
        k.len() == 8,
    ensures
        put_pair(s, seq![PREFIX_NODES] + k, <Node>::enc(v)) == Some(
            StateView { nodes: s.nodes.insert(k, v), ..s },
        ),
{
    reveal(put_pair);
    assert((seq![PREFIX_NODES] + k).skip(1) =~= k);
    <Node>::lemma_roundtrip(v, Seq::empty());
    assert(<Node>::enc(v) + Seq::<u8>::empty() =~= <Node>::enc(v));
    assert(whole::<Node>(<Node>::enc(v)) == Some(v));
}

/// Taking in the pairs of the nodes from position `i` on, in a state that holds
/// the pairs before `i`, gives the state that holds them all.
proof fn lemma_restore_nodes(s: StateView, ps: Seq<(Seq<u8>, NodeView)>, i: int)
    requires
        sorted(ps),
        0 <= i <= ps.len(),
        forall|j: int| 0 <= j < ps.len() ==> <Node>::fits((#[trigger] ps[j]).1),
        forall|j: int| 0 <= j < ps.len() ==> (#[trigger] ps[j]).0.len() == 8,
        s.nodes == to_map(ps.take(i)),
    ensures
        restore_kvs(s, segment::<Node>(PREFIX_NODES, ps).skip(i)) == Some(
            StateView { nodes: to_map(ps), ..s },
        ),
    decreases ps.len() - i,
{
    let seg = segment::<Node>(PREFIX_NODES, ps);
    if i == ps.len() {
        assert(seg.skip(i) =~= Seq::<Seq<Seq<u8>>>::empty());
        assert(ps.take(i) =~= ps);
        assert(s == StateView { nodes: to_map(ps), ..s });
    } else {
        let cur = seg.skip(i);
        let k = ps[i].0;
        let v = ps[i].1;
        let item = seq![seq![PREFIX_NODES] + k, <Node>::enc(v)];
        assert(cur[0] == item);
        assert(item.len() == 2 && item[0] == seq![PREFIX_NODES] + k && item[1] == <Node>::enc(v));
        let s1 = StateView { nodes: s.nodes.insert(k, v), ..s };
        lemma_put_nodes(s, k, v);
        lemma_take_step(ps, i);
        assert(cur.drop_first() =~= seg.skip(i + 1));
        lemma_restore_nodes(s1, ps, i + 1);
        assert(StateView { nodes: to_map(ps), ..s1 } == StateView { nodes: to_map(ps), ..s });
    }
}

/// Taking in one pair of the key-value records binds its key to its value.
proof fn lemma_put_generic_kv(s: StateView, k: Seq<u8>, v: Record)
    requires
        <SeqV<Vec<u8>>>::fits(v),
    ensures
        put_pair(s, seq![PREFIX_GENERIC_KV] + k, <SeqV<Vec<u8>>>::enc(v)) == Some(
            StateView { kvs: s.kvs.insert(k, v), ..s },
        ),
{
    reveal(put_pair);
    assert((seq![PREFIX_GENERIC_KV] + k).skip(1) =~= k);
    <SeqV<Vec<u8>>>::lemma_roundtrip(v, Seq::empty());
    assert(<SeqV<Vec<u8>>>::enc(v) + Seq::<u8>::empty() =~= <SeqV<Vec<u8>>>::enc(v));
    assert(whole::<SeqV<Vec<u8>>>(<SeqV<Vec<u8>>>::enc(v)) == Some(v));
}

/// Taking in the pairs of the key-value records from position `i` on, in a state that holds
/// the pairs before `i`, gives the state that holds them all.
proof fn lemma_restore_generic_kv(s: StateView, ps: Seq<(Seq<u8>, Record)>, i: int)
    requires
        sorted(ps),
        0 <= i <= ps.len(),
        forall|j: int| 0 <= j < ps.len() ==> <SeqV<Vec<u8>>>::fits((#[trigger] ps[j]).1),
        s.kvs == to_map(ps.take(i)),
    ensures
        restore_kvs(s, segment::<SeqV<Vec<u8>>>(PREFIX_GENERIC_KV, ps).skip(i)) == Some(
            StateView { kvs: to_map(ps), ..s },
        ),
    decreases ps.len() - i,
{
    let seg = segment::<SeqV<Vec<u8>>>(PREFIX_GENERIC_KV, ps);
    if i == ps.len() {
        assert(seg.skip(i) =~= Seq::<Seq<Seq<u8>>>::empty());
        assert(ps.take(i) =~= ps);
        assert(s == StateView { kvs: to_map(ps), ..s });
    } else {
        let cur = seg.skip(i);
        let k = ps[i].0;
        let v = ps[i].1;
        let item = seq![seq![PREFIX_GENERIC_KV] + k, <SeqV<Vec<u8>>>::enc(v)];
        assert(cur[0] == item);
        assert(item.len() == 2 && item[0] == seq![PREFIX_GENERIC_KV] + k && item[1] == <SeqV<Vec<u8>>>::enc(v));
        let s1 = StateView { kvs: s.kvs.insert(k, v), ..s };
        lemma_put_generic_kv(s, k, v);
        lemma_take_step(ps, i);
        assert(cur.drop_first() =~= seg.skip(i + 1));
        lemma_restore_generic_kv(s1, ps, i + 1);
        assert(StateView { kvs: to_map(ps), ..s1 } == StateView { kvs: to_map(ps), ..s });
    }
}

/// Taking in one pair of the last responses to clients binds its key to its value.
proof fn lemma_put_client_last_resps(s: StateView, k: Seq<u8>, v: ClientLastRespView)
    requires
        <ClientLastRespValue>::fits(v),
    ensures
        put_pair(s, seq![PREFIX_CLIENT_LAST_RESPS] + k, <ClientLastRespValue>::enc(v)) == Some(
            StateView { client_last_resps: s.client_last_resps.insert(k, v), ..s },
        ),
{
    reveal(put_pair);
    assert((seq![PREFIX_CLIENT_LAST_RESPS] + k).skip(1) =~= k);
    <ClientLastRespValue>::lemma_roundtrip(v, Seq::empty());
    assert(<ClientLastRespValue>::enc(v) + Seq::<u8>::empty() =~= <ClientLastRespValue>::enc(v));
    assert(whole::<ClientLastRespValue>(<ClientLastRespValue>::enc(v)) == Some(v));
}

/// Taking in the pairs of the last responses to clients from position `i` on, in a state that holds
/// the pairs before `i`, gives the state that holds them all.
proof fn lemma_restore_client_last_resps(s: StateView, ps: Seq<(Seq<u8>, ClientLastRespView)>, i: int)
    requires
        sorted(ps),
        0 <= i <= ps.len(),
        forall|j: int| 0 <= j < ps.len() ==> <ClientLastRespValue>::fits((#[trigger] ps[j]).1),
        s.client_last_resps == to_map(ps.take(i)),
    ensures
        restore_kvs(s, segment::<ClientLastRespValue>(PREFIX_CLIENT_LAST_RESPS, ps).skip(i)) == Some(
            StateView { client_last_resps: to_map(ps), ..s },
        ),
    decreases ps.len() - i,
{
    let seg = segment::<ClientLastRespValue>(PREFIX_CLIENT_LAST_RESPS, ps);
    if i == ps.len() {
        assert(seg.skip(i) =~= Seq::<Seq<Seq<u8>>>::empty());
        assert(ps.take(i) =~= ps);
        assert(s == StateView { client_last_resps: to_map(ps), ..s });
    } else {
        let cur = seg.skip(i);
        let k = ps[i].0;
        let v = ps[i].1;
        let item = seq![seq![PREFIX_CLIENT_LAST_RESPS] + k, <ClientLastRespValue>::enc(v)];
        assert(cur[0] == item);
        assert(item.len() == 2 && item[0] == seq![PREFIX_CLIENT_LAST_RESPS] + k && item[1] == <ClientLastRespValue>::enc(v));
        let s1 = StateView { client_last_resps: s.client_last_resps.insert(k, v), ..s };
        lemma_put_client_last_resps(s, k, v);
        lemma_take_step(ps, i);
        assert(cur.drop_first() =~= seg.skip(i + 1));
        lemma_restore_client_last_resps(s1, ps, i + 1);
        assert(StateView { client_last_resps: to_map(ps), ..s1 } == StateView { client_last_resps: to_map(ps), ..s });
    }
}

/// The sorted pairs of a keyspace: sorted, standing for the keyspace, and each
/// of them a binding of it.
proof fn lemma_sorted_pairs_of<T>(m: Map<Seq<u8>, T>)
    requires
        crate::keyspace::representable(m),
    ensures
        sorted(sorted_pairs(m)),
        to_map(sorted_pairs(m)) == m,
        forall|j: int|
            0 <= j < sorted_pairs(m).len() ==> m.contains_key((#[trigger] sorted_pairs(m)[j]).0)
                && m[sorted_pairs(m)[j].0] == sorted_pairs(m)[j].1,
{
    let ps = sorted_pairs(m);
    assert forall|j: int| 0 <= j < ps.len() implies m.contains_key((#[trigger] ps[j]).0)
        && m[ps[j].0] == ps[j].1 by {
        lemma_map_at(ps, j);
    }
}

/// Taking in the snapshot of a state gives the state back.
///
/// This holds of every valid state whose stored values can be written, that
/// is, whose texts, byte strings and lists are shorter than 2^64.
pub proof fn law_snapshot_roundtrip(s: StateView)
    requires
        s.valid(),
        state_fits(s),
    ensures
        restore(snapshot_of(s)) == Some(s),
{
    let e = StateView::empty();
    let seg1 = segment::<u64>(PREFIX_SEQUENCES, sorted_pairs(s.sequences));
    let seg2 = meta_segment(s);
    let seg3 = segment::<Node>(PREFIX_NODES, sorted_pairs(s.nodes));
    let seg4 = segment::<SeqV<Vec<u8>>>(PREFIX_GENERIC_KV, sorted_pairs(s.kvs));
    let seg5 = segment::<ClientLastRespValue>(
        PREFIX_CLIENT_LAST_RESPS,
        sorted_pairs(s.client_last_resps),
    );
    lemma_sorted_pairs_of(s.sequences);
    lemma_sorted_pairs_of(s.nodes);
    lemma_sorted_pairs_of(s.kvs);
    lemma_sorted_pairs_of(s.client_last_resps);

    let s1 = StateView { sequences: s.sequences, ..e };
    assert(restore_kvs(e, seg1) == Some(s1)) by {
        let ps = sorted_pairs(s.sequences);
        assert(to_map(ps.take(0)) =~= e.sequences);
        lemma_restore_sequences(e, ps, 0);
        assert(seg1.skip(0) =~= seg1);
    }
    let s2 = StateView {
        initialized: s.initialized,
        last_applied: s.last_applied,
        last_membership: s.last_membership,
        ..s1
    };
    lemma_restore_meta(s1, s);
    let s3 = StateView { nodes: s.nodes, ..s2 };
    assert(restore_kvs(s2, seg3) == Some(s3)) by {
        let ps = sorted_pairs(s.nodes);
        assert(to_map(ps.take(0)) =~= s2.nodes);
        lemma_restore_nodes(s2, ps, 0);
        assert(seg3.skip(0) =~= seg3);
    }
    let s4 = StateView { kvs: s.kvs, ..s3 };
    assert(restore_kvs(s3, seg4) == Some(s4)) by {
        let ps = sorted_pairs(s.kvs);
        assert(to_map(ps.take(0)) =~= s3.kvs);
        lemma_restore_generic_kv(s3, ps, 0);
        assert(seg4.skip(0) =~= seg4);
    }
    let s5 = StateView { client_last_resps: s.client_last_resps, ..s4 };
    assert(restore_kvs(s4, seg5) == Some(s5)) by {
        let ps = sorted_pairs(s.client_last_resps);
        assert(to_map(ps.take(0)) =~= s4.client_last_resps);
        lemma_restore_client_last_resps(s4, ps, 0);
        assert(seg5.skip(0) =~= seg5);
    }
    assert(s5 == s);
    lemma_restore_concat(e, seg1, seg2);
    lemma_restore_concat(e, seg1 + seg2, seg3);
    lemma_restore_concat(e, seg1 + seg2 + seg3, seg4);
    lemma_restore_concat(e, seg1 + seg2 + seg3 + seg4, seg5);
}

/// An item of a snapshot is a pair of a key and the bytes stored under it.
pub open spec fn listed(s: StateView, item: Seq<Seq<u8>>) -> bool {
    item.len() == 2 && stored_at(s, item[0]) == Some(item[1])
}

/// Some item of the list has the key `pk`.
pub open spec fn lists_key(kvs: Kvs, pk: Seq<u8>) -> bool {
    exists|i: int| 0 <= i < kvs.len() && (#[trigger] kvs[i]).len() == 2 && kvs[i][0] == pk
}

/// The pairs of one keyspace in a snapshot are its stored bindings, all of them.
proof fn lemma_segment_listed<V: Codec>(s: StateView, prefix: u8, m: Map<Seq<u8>, V::V>)
    requires
        representable(m),
        forall|k: Seq<u8>| #[trigger]
            m.contains_key(k) ==> stored_at(s, seq![prefix] + k) == Some(V::enc(m[k])),
    ensures
        forall|j: int|
            0 <= j < segment::<V>(prefix, sorted_pairs(m)).len() ==> listed(
                s,
                #[trigger] segment::<V>(prefix, sorted_pairs(m))[j],
            ),
        forall|k: Seq<u8>| #[trigger]
            m.contains_key(k) ==> lists_key(segment::<V>(prefix, sorted_pairs(m)), seq![prefix] + k),
{
    let ps = sorted_pairs(m);
    let seg = segment::<V>(prefix, ps);
    assert forall|j: int| 0 <= j < seg.len() implies listed(s, #[trigger] seg[j]) by {
        lemma_map_at(ps, j);
        assert(m.contains_key(ps[j].0));
    }
    assert forall|k: Seq<u8>| #[trigger] m.contains_key(k) implies lists_key(
        seg,
        seq![prefix] + k,
    ) by {
        assert(has_key(ps, k));
        let j = index_of(ps, k);
        assert(seg[j].len() == 2 && seg[j][0] == seq![prefix] + k);
    }
}

/// A key with the given prefix stands for the rest of it in that keyspace.
proof fn lemma_key_parts(p: u8, k: Seq<u8>)
    ensures
        (seq![p] + k).len() > 0,
        (seq![p] + k)[0] == p,
        (seq![p] + k).skip(1) == k,
{
    assert((seq![p] + k).skip(1) =~= k);
}

/// The meta records in a snapshot are the stored meta records, all of them.
proof fn lemma_meta_listed(s: StateView)
    ensures
        forall|j: int|
            0 <= j < meta_segment(s).len() ==> listed(s, #[trigger] meta_segment(s)[j]),
        forall|tag: Seq<u8>|
            stored_meta(s, tag) is Some ==> lists_key(
                meta_segment(s),
                #[trigger] (seq![PREFIX_META] + tag),
            ),
{
    reveal(stored_at);
    let a: Kvs = match s.last_applied {
        Some(l) => meta_pair(META_LAST_APPLIED, LogId::enc(l)),
        None => Seq::empty(),
    };
    let b: Kvs = if s.initialized {
        meta_pair(META_INITIALIZED, bool::enc(true))
    } else {
        Seq::empty()
    };
    let c: Kvs = match s.last_membership {
        Some(m) => meta_pair(META_LAST_MEMBERSHIP, EffectiveMembership::enc(m)),
        None => Seq::empty(),
    };
    let seg = meta_segment(s);
    assert(seg == a + b + c);
    lemma_key_parts(PREFIX_META, seq![META_LAST_APPLIED]);
    lemma_key_parts(PREFIX_META, seq![META_INITIALIZED]);
    lemma_key_parts(PREFIX_META, seq![META_LAST_MEMBERSHIP]);
    assert(seq![PREFIX_META, META_LAST_APPLIED] =~= seq![PREFIX_META] + seq![META_LAST_APPLIED]);
    assert(seq![PREFIX_META, META_INITIALIZED] =~= seq![PREFIX_META] + seq![META_INITIALIZED]);
    assert(seq![PREFIX_META, META_LAST_MEMBERSHIP] =~= seq![PREFIX_META] + seq![
        META_LAST_MEMBERSHIP,
    ]);
    assert(seq![META_INITIALIZED] != seq![META_LAST_APPLIED]) by {
        assert(seq![META_INITIALIZED][0] != seq![META_LAST_APPLIED][0]);
    }
    assert(seq![META_LAST_MEMBERSHIP] != seq![META_LAST_APPLIED]) by {
        assert(seq![META_LAST_MEMBERSHIP][0] != seq![META_LAST_APPLIED][0]);
    }
    assert(seq![META_LAST_MEMBERSHIP] != seq![META_INITIALIZED]) by {
        assert(seq![META_LAST_MEMBERSHIP][0] != seq![META_INITIALIZED][0]);
    }
    assert forall|j: int| 0 <= j < a.len() implies listed(s, #[trigger] a[j]) by {}
    assert forall|j: int| 0 <= j < b.len() implies listed(s, #[trigger] b[j]) by {}
    assert forall|j: int| 0 <= j < c.len() implies listed(s, #[trigger] c[j]) by {}
    assert forall|j: int| 0 <= j < seg.len() implies listed(s, #[trigger] seg[j]) by {
        if j < a.len() {
            assert(seg[j] == a[j]);
        } else if j < a.len() + b.len() {
            assert(seg[j] == b[j - a.len()]);
        } else {
            assert(seg[j] == c[j - a.len() - b.len()]);
        }
    }
    assert forall|tag: Seq<u8>| stored_meta(s, tag) is Some implies lists_key(
        seg,
        #[trigger] (seq![PREFIX_META] + tag),
    ) by {
        if tag == seq![META_LAST_APPLIED] {
            assert(seg[0] == a[0]);
            assert(seg[0].len() == 2 && seg[0][0] == seq![PREFIX_META] + tag);
        } else if tag == seq![META_INITIALIZED] {
            let i = a.len() as int;
            assert(seg[i] == b[0]);
            assert(seg[i].len() == 2 && seg[i][0] == seq![PREFIX_META] + tag);
        } else {
            let i = (a.len() + b.len()) as int;
            assert(seg[i] == c[0]);
            assert(seg[i].len() == 2 && seg[i][0] == seq![PREFIX_META] + tag);
        }
    }
}

/// Where a part of a list has a key, the list has it.
proof fn lemma_lists_key_part(front: Kvs, part: Kvs, back: Kvs, pk: Seq<u8>)
    requires
        lists_key(part, pk),
    ensures
        lists_key(front + part + back, pk),
{
    let j = choose|j: int| 0 <= j < part.len() && (#[trigger] part[j]).len() == 2 && part[j][0] == pk;
    let all = front + part + back;
    assert(all[front.len() + j] == part[j]);
}

/// The snapshot of a state lists the stored form of the state: every item of
/// it is a key and the bytes stored under that key, and every key under which
/// something is stored has an item.
pub proof fn law_snapshot_lists_stored_form(s: StateView)
    requires
        s.valid(),
    ensures
        forall|i: int|
            0 <= i < snapshot_of(s).len() ==> (#[trigger] snapshot_of(s)[i]).len() == 2
                && physical(s).contains_key(snapshot_of(s)[i][0]) && physical(s)[snapshot_of(
                s,
            )[i][0]] == snapshot_of(s)[i][1],
        forall|pk: Seq<u8>| #[trigger]
            physical(s).contains_key(pk) ==> lists_key(snapshot_of(s), pk),
{
    let seg1 = segment::<u64>(PREFIX_SEQUENCES, sorted_pairs(s.sequences));
    let seg2 = meta_segment(s);
    let seg3 = segment::<Node>(PREFIX_NODES, sorted_pairs(s.nodes));
    let seg4 = segment::<SeqV<Vec<u8>>>(PREFIX_GENERIC_KV, sorted_pairs(s.kvs));
    let seg5 = segment::<ClientLastRespValue>(
        PREFIX_CLIENT_LAST_RESPS,
        sorted_pairs(s.client_last_resps),
    );
    let all = snapshot_of(s);
    assert(all == seg1 + seg2 + seg3 + seg4 + seg5);
    assert forall|k: Seq<u8>| #[trigger] s.sequences.contains_key(k) implies stored_at(
        s,
        seq![PREFIX_SEQUENCES] + k,
    ) == Some(u64::enc(s.sequences[k])) by {
        reveal(stored_at);
        lemma_key_parts(PREFIX_SEQUENCES, k);
    }
    assert forall|k: Seq<u8>| #[trigger] s.nodes.contains_key(k) implies stored_at(
        s,
        seq![PREFIX_NODES] + k,
    ) == Some(Node::enc(s.nodes[k])) by {
        reveal(stored_at);
        lemma_key_parts(PREFIX_NODES, k);
    }
    assert forall|k: Seq<u8>| #[trigger] s.kvs.contains_key(k) implies stored_at(
        s,
        seq![PREFIX_GENERIC_KV] + k,
    ) == Some(<SeqV<Vec<u8>>>::enc(s.kvs[k])) by {
        reveal(stored_at);
        lemma_key_parts(PREFIX_GENERIC_KV, k);
    }
    assert forall|k: Seq<u8>| #[trigger] s.client_last_resps.contains_key(k) implies stored_at(
        s,
        seq![PREFIX_CLIENT_LAST_RESPS] + k,
    ) == Some(ClientLastRespValue::enc(s.client_last_resps[k])) by {
        reveal(stored_at);
        lemma_key_parts(PREFIX_CLIENT_LAST_RESPS, k);
    }
    lemma_segment_listed::<u64>(s, PREFIX_SEQUENCES, s.sequences);
    lemma_meta_listed(s);
    lemma_segment_listed::<Node>(s, PREFIX_NODES, s.nodes);
    lemma_segment_listed::<SeqV<Vec<u8>>>(s, PREFIX_GENERIC_KV, s.kvs);
    lemma_segment_listed::<ClientLastRespValue>(s, PREFIX_CLIENT_LAST_RESPS, s.client_last_resps);
    let n1 = seg1.len() as int;
    let n2 = n1 + seg2.len();
    let n3 = n2 + seg3.len();
    let n4 = n3 + seg4.len();
    assert forall|i: int| 0 <= i < all.len() implies (#[trigger] all[i]).len() == 2
        && physical(s).contains_key(all[i][0]) && physical(s)[all[i][0]] == all[i][1] by {
        if i < n1 {
            assert(all[i] == seg1[i]);
        } else if i < n2 {
            assert(all[i] == seg2[i - n1]);
        } else if i < n3 {
            assert(all[i] == seg3[i - n2]);
        } else if i < n4 {
            assert(all[i] == seg4[i - n3]);
        } else {
            assert(all[i] == seg5[i - n4]);
        }
        assert(listed(s, all[i]));
    }
    assert forall|pk: Seq<u8>| #[trigger] physical(s).contains_key(pk) implies lists_key(
        all,
        pk,
    ) by {
        assert(stored_at(s, pk) is Some);
        assert(pk.len() > 0) by {
            reveal(stored_at);
        }
        let k = pk.skip(1);
        assert(pk =~= seq![pk[0]] + k);
        let e: Kvs = Seq::empty();
        if pk[0] == PREFIX_SEQUENCES {
            assert(s.sequences.contains_key(k)) by {
                reveal(stored_at);
            }
            lemma_lists_key_part(e, seg1, seg2 + seg3 + seg4 + seg5, pk);
            assert(e + seg1 + (seg2 + seg3 + seg4 + seg5) =~= all);
        } else if pk[0] == PREFIX_META {
            assert(stored_meta(s, k) is Some) by {
                reveal(stored_at);
            }
            lemma_lists_key_part(seg1, seg2, seg3 + seg4 + seg5, pk);
            assert(seg1 + seg2 + (seg3 + seg4 + seg5) =~= all);
        } else if pk[0] == PREFIX_NODES {
            assert(s.nodes.contains_key(k)) by {
                reveal(stored_at);
            }
            lemma_lists_key_part(seg1 + seg2, seg3, seg4 + seg5, pk);
            assert(seg1 + seg2 + seg3 + (seg4 + seg5) =~= all);
        } else if pk[0] == PREFIX_GENERIC_KV {
            assert(s.kvs.contains_key(k)) by {
                reveal(stored_at);
            }
            lemma_lists_key_part(seg1 + seg2 + seg3, seg4, seg5, pk);
        } else {
            assert(pk[0] == PREFIX_CLIENT_LAST_RESPS && s.client_last_resps.contains_key(k)) by {
                reveal(stored_at);
            }
            lemma_lists_key_part(seg1 + seg2 + seg3 + seg4, seg5, e, pk);
            assert(seg1 + seg2 + seg3 + seg4 + seg5 + e =~= all);
        }
    }
}

/// The items are pairs whose keys begin with a byte from `lo` to `hi` and
/// strictly increase.
pub open spec fn increasing(kvs: Kvs, lo: u8, hi: u8) -> bool {
    &&& forall|i: int|
        0 <= i < kvs.len() ==> (#[trigger] kvs[i]).len() == 2 && kvs[i][0].len() > 0 && lo
            <= kvs[i][0][0] <= hi
    &&& forall|i: int, j: int|
        0 <= i < j < kvs.len() ==> bytes_lt((#[trigger] kvs[i])[0], (#[trigger] kvs[j])[0])
}

/// Keys under one prefix are ordered as they are without it.
proof fn lemma_prefix_keeps_order(p: u8, a: Seq<u8>, b: Seq<u8>)
    requires
        bytes_lt(a, b),
    ensures
        bytes_lt(seq![p] + a, seq![p] + b),
{
    let k = choose|k: int| lt_at(a, b, k);
    let x = seq![p] + a;
    let y = seq![p] + b;
    assert forall|j: int| 0 <= j < k + 1 implies x[j] == y[j] by {
        if j > 0 {
            assert(x[j] == a[j - 1] && y[j] == b[j - 1]);
        }
    }
    if k < a.len() {
        assert(x[k + 1] == a[k] && y[k + 1] == b[k]);
    }
    assert(lt_at(x, y, k + 1));
}

/// Two lists of increasing keys, the first under smaller prefixes than the
/// second, are one list of increasing keys when joined.
proof fn lemma_join_increasing(a: Kvs, b: Kvs, lo: u8, mid: u8, next: u8, hi: u8)
    requires
        increasing(a, lo, mid),
        increasing(b, next, hi),
        lo <= mid < next <= hi,
    ensures
        increasing(a + b, lo, hi),
{
    let all = a + b;
    assert forall|i: int| 0 <= i < all.len() implies (#[trigger] all[i]).len() == 2
        && all[i][0].len() > 0 && lo <= all[i][0][0] <= hi by {
        if i < a.len() {
            assert(all[i] == a[i]);
        } else {
            assert(all[i] == b[i - a.len()]);
        }
    }
    assert forall|i: int, j: int| 0 <= i < j < all.len() implies bytes_lt(
        (#[trigger] all[i])[0],
        (#[trigger] all[j])[0],
    ) by {
        if j < a.len() {
            assert(all[i] == a[i] && all[j] == a[j]);
        } else if i >= a.len() {
            assert(all[i] == b[i - a.len()] && all[j] == b[j - a.len()]);
        } else {
            assert(all[i] == a[i] && all[j] == b[j - a.len()]);
            assert(lt_at(all[i][0], all[j][0], 0));
        }
    }
}

/// The pairs of one keyspace stand in a snapshot in the order of their keys.
proof fn lemma_segment_increasing<V: Codec>(prefix: u8, m: Map<Seq<u8>, V::V>)
    requires
        representable(m),
    ensures
        increasing(segment::<V>(prefix, sorted_pairs(m)), prefix, prefix),
{
    let ps = sorted_pairs(m);
    let seg = segment::<V>(prefix, ps);
    assert forall|i: int| 0 <= i < seg.len() implies (#[trigger] seg[i]).len() == 2
        && seg[i][0].len() > 0 && prefix <= seg[i][0][0] <= prefix by {
        lemma_key_parts(prefix, ps[i].0);
    }
    assert forall|i: int, j: int| 0 <= i < j < seg.len() implies bytes_lt(
        (#[trigger] seg[i])[0],
        (#[trigger] seg[j])[0],
    ) by {
        assert(bytes_lt(ps[i].0, ps[j].0));
        lemma_prefix_keeps_order(prefix, ps[i].0, ps[j].0);
    }
}

/// The meta records stand in a snapshot in the order of their keys.
proof fn lemma_meta_increasing(s: StateView)
    ensures
        increasing(meta_segment(s), PREFIX_META, PREFIX_META),
{
    let a: Kvs = match s.last_applied {
        Some(l) => meta_pair(META_LAST_APPLIED, LogId::enc(l)),
        None => Seq::empty(),
    };
    let b: Kvs = if s.initialized {
        meta_pair(META_INITIALIZED, bool::enc(true))
    } else {
        Seq::empty()
    };
    let c: Kvs = match s.last_membership {
        Some(m) => meta_pair(META_LAST_MEMBERSHIP, EffectiveMembership::enc(m)),
        None => Seq::empty(),
    };
    let seg = meta_segment(s);
    assert(seg == a + b + c);
    let k1 = seq![PREFIX_META, META_LAST_APPLIED];
    let k2 = seq![PREFIX_META, META_INITIALIZED];
    let k3 = seq![PREFIX_META, META_LAST_MEMBERSHIP];
    assert(lt_at(k1, k2, 1));
    assert(lt_at(k1, k3, 1));
    assert(lt_at(k2, k3, 1));
    assert forall|i: int| 0 <= i < seg.len() implies (#[trigger] seg[i]).len() == 2
        && seg[i][0].len() > 0 && PREFIX_META <= seg[i][0][0] <= PREFIX_META && (if i < a.len() {
        seg[i][0] == k1
    } else if i < a.len() + b.len() {
        seg[i][0] == k2
    } else {
        seg[i][0] == k3
    }) by {
        if i < a.len() {
            assert(seg[i] == a[i]);
        } else if i < a.len() + b.len() {
            assert(seg[i] == b[i - a.len()]);
        } else {
            assert(seg[i] == c[i - a.len() - b.len()]);
        }
    }
    assert forall|i: int, j: int| 0 <= i < j < seg.len() implies bytes_lt(
        (#[trigger] seg[i])[0],
        (#[trigger] seg[j])[0],
    ) by {
        assert(seg[i].len() == 2 && seg[j].len() == 2);
    }
}

/// The snapshot of a state lists its pairs in the strictly increasing order of
/// their keys; so no key stands in it twice.
pub proof fn law_snapshot_in_key_order(s: StateView)
    requires
        s.valid(),
    ensures
        increasing(snapshot_of(s), PREFIX_SEQUENCES, PREFIX_CLIENT_LAST_RESPS),
        forall|i: int, j: int|
            0 <= i < j < snapshot_of(s).len() ==> bytes_lt(
                (#[trigger] snapshot_of(s)[i])[0],
                (#[trigger] snapshot_of(s)[j])[0],
            ),
{
    let seg1 = segment::<u64>(PREFIX_SEQUENCES, sorted_pairs(s.sequences));
    let seg2 = meta_segment(s);
    let seg3 = segment::<Node>(PREFIX_NODES, sorted_pairs(s.nodes));
    let seg4 = segment::<SeqV<Vec<u8>>>(PREFIX_GENERIC_KV, sorted_pairs(s.kvs));
    let seg5 = segment::<ClientLastRespValue>(
        PREFIX_CLIENT_LAST_RESPS,
        sorted_pairs(s.client_last_resps),
    );
    lemma_segment_increasing::<u64>(PREFIX_SEQUENCES, s.sequences);
    lemma_meta_increasing(s);
    lemma_segment_increasing::<Node>(PREFIX_NODES, s.nodes);
    lemma_segment_increasing::<SeqV<Vec<u8>>>(PREFIX_GENERIC_KV, s.kvs);
    lemma_segment_increasing::<ClientLastRespValue>(PREFIX_CLIENT_LAST_RESPS, s.client_last_resps);
    lemma_join_increasing(seg1, seg2, PREFIX_SEQUENCES, PREFIX_SEQUENCES, PREFIX_META, PREFIX_META);
    lemma_join_increasing(
        seg1 + seg2,
        seg3,
        PREFIX_SEQUENCES,
        PREFIX_META,
        PREFIX_NODES,
        PREFIX_NODES,
    );
    lemma_join_increasing(
        seg1 + seg2 + seg3,
        seg4,
        PREFIX_SEQUENCES,
        PREFIX_NODES,
        PREFIX_GENERIC_KV,
        PREFIX_GENERIC_KV,
    );
    lemma_join_increasing(
        seg1 + seg2 + seg3 + seg4,
        seg5,
        PREFIX_SEQUENCES,
        PREFIX_GENERIC_KV,
        PREFIX_CLIENT_LAST_RESPS,
        PREFIX_CLIENT_LAST_RESPS,
    );
}

} // verus!
