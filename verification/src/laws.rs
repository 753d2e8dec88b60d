//! What holds of every state and every run of the state machine.

use vstd::prelude::*;
use crate::cmd::{seq_of, AppliedStateView, Change, Cmd, Entry, EntryPayload, MatchSeq, Operation};
use crate::keyspace::{
    index_of, lemma_map_at, lemma_representable_empty, lemma_representable_insert,
    lemma_representable_remove, sorted_pairs,
};
use crate::model::{
    apply, apply_cmd, apply_normal, cmd_exhausted, count_puts, generic_kv, is_duplicate,
    lemma_op_state_seq, notice, run, run_ops, state_before, str_key, upsert, upsert_writes,
    written, Outcome, StateView, Upserted,
};
use crate::snapshot::{opened, segment, snapshot_of, PREFIX_GENERIC_KV};
use crate::snapshot_laws::{law_snapshot_roundtrip, state_fits};
use crate::codec::Codec;
use crate::txn::TxnOp;
use crate::types::{KVMeta, SeqV};

verus! {

/// Two states hold the same but for the key-value records and the counters.
pub open spec fn same_but_kvs(a: StateView, b: StateView) -> bool {
    &&& a.initialized == b.initialized
    &&& a.last_applied == b.last_applied
    &&& a.last_membership == b.last_membership
    &&& a.nodes == b.nodes
    &&& a.client_last_resps == b.client_last_resps
}

/// The operations of a transaction touch nothing but the key-value records
/// and the counters.
pub proof fn lemma_run_ops_frame(s: StateView, ops: Seq<TxnOp>, now: u64)
    ensures
        same_but_kvs(run_ops(s, ops, now).state, s),
    decreases ops.len(),
{
    if ops.len() > 0 {
        lemma_run_ops_frame(s, ops.drop_last(), now);
    }
}

/// The operations of a transaction take as many sequence numbers as there are
/// `Put` operations among them, and leave every other counter as it is.
pub proof fn lemma_run_ops_counters(s: StateView, ops: Seq<TxnOp>, now: u64, name: Seq<u8>)
    requires
        s.seq(generic_kv()) + count_puts(ops) <= u64::MAX,
    ensures
        run_ops(s, ops, now).state.seq(generic_kv()) == s.seq(generic_kv()) + count_puts(ops),
        name != generic_kv() ==> run_ops(s, ops, now).state.seq(name) == s.seq(name),
    decreases ops.len(),
{
    if ops.len() > 0 {
        lemma_run_ops_counters(s, ops.drop_last(), now, name);
        lemma_op_state_seq(run_ops(s, ops.drop_last(), now).state, ops.last(), now);
    }
}

/// A write leaves no stored record with a sequence number beyond the counter.
pub proof fn lemma_upsert_seqs_issued(
    s: StateView,
    key: Seq<u8>,
    m: MatchSeq,
    op: Operation<Seq<u8>>,
    meta: Option<KVMeta>,
    now: u64,
)
    requires
        s.seqs_issued(),
        upsert_writes(s, key, m, op, now) ==> s.seq(generic_kv()) < u64::MAX,
    ensures
        upsert(s, key, m, op, meta, now).state.seqs_issued(),
{
    let u = upsert(s, key, m, op, meta, now).state;
    assert forall|k: Seq<u8>| #[trigger] u.kvs.contains_key(k) implies u.kvs[k].seq <= u.seq(
        generic_kv(),
    ) by {
        if k != key {
            assert(s.kvs.contains_key(k));
        }
    }
}

/// The operations of a transaction leave no stored record with a sequence
/// number beyond the counter.
pub proof fn lemma_run_ops_seqs_issued(s: StateView, ops: Seq<TxnOp>, now: u64)
    requires
        s.seqs_issued(),
        s.seq(generic_kv()) + count_puts(ops) <= u64::MAX,
    ensures
        run_ops(s, ops, now).state.seqs_issued(),
    decreases ops.len(),
{
    if ops.len() > 0 {
        let before = run_ops(s, ops.drop_last(), now).state;
        lemma_run_ops_seqs_issued(s, ops.drop_last(), now);
        lemma_run_ops_counters(s, ops.drop_last(), now, generic_kv());
        match ops.last() {
            TxnOp::Get { key } => {},
            TxnOp::Put { key, value, prev_value } => {
                lemma_upsert_seqs_issued(
                    before,
                    str_key(key@),
                    MatchSeq::Any,
                    Operation::Update(value@),
                    None,
                    now,
                );
            },
            TxnOp::Delete { key, prev_value } => {
                lemma_upsert_seqs_issued(
                    before,
                    str_key(key@),
                    MatchSeq::Any,
                    Operation::Delete,
                    None,
                    now,
                );
            },
        }
    }
}

/// Applying a command never lowers a counter, and touches neither the last
/// applied position nor the record of responses.
pub proof fn lemma_apply_cmd_counters(s: StateView, cmd: Cmd, now: u64, name: Seq<u8>)
    ensures
        apply_cmd(s, cmd, now).state.seq(name) >= s.seq(name),
        apply_cmd(s, cmd, now).state.last_applied == s.last_applied,
        apply_cmd(s, cmd, now).state.client_last_resps == s.client_last_resps,
{
    if !cmd_exhausted(s, cmd, now) {
        match cmd {
            Cmd::Transaction(req) => {
                let ops = crate::model::branch(s, req, now);
                lemma_run_ops_counters(s, ops, now, name);
                lemma_run_ops_frame(s, ops, now);
            },
            _ => {},
        }
    }
}

/// After an entry was applied, its position is the last applied one, and no
/// counter stands lower than before.
pub proof fn law_apply_advances(s: StateView, entry: Entry, now: u64, name: Seq<u8>)
    ensures
        apply(s, entry, now).state.last_applied == Some(entry.log_id),
        apply(s, entry, now).state.seq(name) >= s.seq(name),
{
    let s1 = StateView { last_applied: Some(entry.log_id), ..s };
    match entry.payload {
        EntryPayload::Normal(data) => {
            lemma_apply_cmd_counters(s1, data.cmd, now, name);
        },
        _ => {},
    }
}

/// Where every entry's position lies after the last applied one, the last
/// applied position strictly increases with every entry that is applied.
pub proof fn law_last_applied_increases(s: StateView, entry: Entry, now: u64)
    requires
        s.last_applied matches Some(l) ==> l.lt(entry.log_id),
    ensures
        apply(s, entry, now).state.last_applied == Some(entry.log_id),
        s.last_applied matches Some(l) ==> l.lt(apply(s, entry, now).state.last_applied->0),
{
    law_apply_advances(s, entry, now, generic_kv());
}

/// In a run, the last applied position after `n` entries is that of the
/// `n`-th entry.
pub proof fn law_run_last_applied(s: StateView, entries: Seq<Entry>, times: Seq<u64>, n: int)
    requires
        entries.len() == times.len(),
        1 <= n <= entries.len(),
    ensures
        state_before(s, entries, times, n).last_applied == Some(entries[n - 1].log_id),
{
    let es = entries.take(n);
    let ts = times.take(n);
    law_apply_advances(run(s, es.drop_last(), ts.drop_last()), es.last(), ts.last(), generic_kv());
}

/// In a run of entries whose positions strictly increase, the last applied
/// position strictly increases from each entry to every later one.
pub proof fn law_run_last_applied_increases(
    s: StateView,
    entries: Seq<Entry>,
    times: Seq<u64>,
    i: int,
    j: int,
)
    requires
        entries.len() == times.len(),
        forall|a: int, b: int|
            0 <= a < b < entries.len() ==> (#[trigger] entries[a]).log_id.lt(
                (#[trigger] entries[b]).log_id,
            ),
        1 <= i < j <= entries.len(),
    ensures
        state_before(s, entries, times, i).last_applied matches Some(a) && state_before(
            s,
            entries,
            times,
            j,
        ).last_applied matches Some(b) && a.lt(b),
{
    law_run_last_applied(s, entries, times, i);
    law_run_last_applied(s, entries, times, j);
    assert(entries[i - 1].log_id.lt(entries[j - 1].log_id));
}

/// In a run, no counter stands lower at a later entry than at an earlier one.
pub proof fn law_run_counters_never_decrease(
    s: StateView,
    entries: Seq<Entry>,
    times: Seq<u64>,
    i: int,
    j: int,
    name: Seq<u8>,
)
    requires
        entries.len() == times.len(),
        0 <= i <= j <= entries.len(),
    ensures
        state_before(s, entries, times, i).seq(name) <= state_before(s, entries, times, j).seq(
            name,
        ),
    decreases j - i,
{
    if i < j {
        law_run_counters_never_decrease(s, entries, times, i, j - 1, name);
        let es = entries.take(j);
        let ts = times.take(j);
        assert(es.drop_last() =~= entries.take(j - 1));
        assert(ts.drop_last() =~= times.take(j - 1));
        law_apply_advances(state_before(s, entries, times, j - 1), es.last(), ts.last(), name);
    }
}

/// A write that stores a record gives it the sequence number that follows the
/// counter, and the counter then stands at that number.
pub proof fn law_write_takes_next_seq(
    s: StateView,
    key: Seq<u8>,
    m: MatchSeq,
    op: Operation<Seq<u8>>,
    meta: Option<KVMeta>,
    now: u64,
)
    requires
        s.seq(generic_kv()) < u64::MAX,
    ensures
        ({
            let u = upsert(s, key, m, op, meta, now);
            if upsert_writes(s, key, m, op, now) {
                &&& u.result matches Some(rec)
                &&& rec.seq == s.seq(generic_kv()) + 1
                &&& u.state.seq(generic_kv()) == rec.seq
                &&& u.state.stored_kv(key) == Some(rec)
            } else {
                &&& u.state.seq(generic_kv()) == s.seq(generic_kv())
                &&& (u.result is None || u.result == u.prev)
            }
        }),
{
}

/// The change that watchers are told of, where it wrote a record, wrote it
/// under the sequence number that follows the counter, and left the counter
/// at that number.
pub proof fn law_notice_seq(s: StateView, entry: Entry, now: u64)
    requires
        notice(s, entry, now) matches Some(c) && written(c) is Some,
    ensures
        written(notice(s, entry, now)->0)->0.seq == s.seq(generic_kv()) + 1,
        apply(s, entry, now).state.seq(generic_kv()) == s.seq(generic_kv()) + 1,
{
    let s1 = StateView { last_applied: Some(entry.log_id), ..s };
    match entry.payload {
        EntryPayload::Normal(data) => {
            match data.cmd {
                Cmd::UpsertKV { key, seq, value, value_meta } => {
                    assert(!cmd_exhausted(s1, data.cmd, now));
                    assert(s1.seq(generic_kv()) == s.seq(generic_kv()));
                },
                _ => {},
            }
        },
        _ => {},
    }
}

/// In a run, of two `UpsertKV` commands that each wrote a record, the later
/// one wrote it under the greater sequence number.
pub proof fn law_written_seqs_increase(
    s: StateView,
    entries: Seq<Entry>,
    times: Seq<u64>,
    i: int,
    j: int,
)
    requires
        entries.len() == times.len(),
        0 <= i < j < entries.len(),
        notice(state_before(s, entries, times, i), entries[i], times[i]) matches Some(c)
            && written(c) is Some,
        notice(state_before(s, entries, times, j), entries[j], times[j]) matches Some(c)
            && written(c) is Some,
    ensures
        written(notice(state_before(s, entries, times, i), entries[i], times[i])->0)->0.seq
            < written(
            notice(state_before(s, entries, times, j), entries[j], times[j])->0,
        )->0.seq,
{
    let si = state_before(s, entries, times, i);
    let sj = state_before(s, entries, times, j);
    law_notice_seq(si, entries[i], times[i]);
    law_notice_seq(sj, entries[j], times[j]);
    assert(entries.take(i + 1).drop_last() =~= entries.take(i));
    assert(times.take(i + 1).drop_last() =~= times.take(i));
    assert(state_before(s, entries, times, i + 1) == apply(si, entries[i], times[i]).state);
    law_run_counters_never_decrease(s, entries, times, i + 1, j, generic_kv());
}

/// Applying an entry to a state in which no record has a sequence number
/// beyond the counter leaves such a state.
pub proof fn law_apply_keeps_seqs_issued(s: StateView, entry: Entry, now: u64)
    requires
        s.seqs_issued(),
    ensures
        apply(s, entry, now).state.seqs_issued(),
{
    let s1 = StateView { last_applied: Some(entry.log_id), ..s };
    assert(s1.seqs_issued());
    match entry.payload {
        EntryPayload::Normal(data) => {
            if !is_duplicate(s1, data) {
                let o = apply_cmd(s1, data.cmd, now);
                assert(o.state.seqs_issued()) by {
                    if !cmd_exhausted(s1, data.cmd, now) {
                        match data.cmd {
                            Cmd::IncrSeq { key } => {
                                assert forall|k: Seq<u8>| #[trigger]
                                    o.state.kvs.contains_key(k) implies o.state.kvs[k].seq
                                    <= o.state.seq(generic_kv()) by {
                                    assert(s1.kvs.contains_key(k));
                                }
                            },
                            Cmd::UpsertKV { key, seq, value, value_meta } => {
                                lemma_upsert_seqs_issued(
                                    s1,
                                    str_key(key@),
                                    seq,
                                    crate::model::op_view(value),
                                    value_meta,
                                    now,
                                );
                            },
                            Cmd::Transaction(req) => {
                                lemma_run_ops_seqs_issued(
                                    s1,
                                    crate::model::branch(s1, req, now),
                                    now,
                                );
                            },
                            _ => {},
                        }
                    }
                }
                let s2 = apply_normal(s1, data, now).state;
                assert(s2.kvs == o.state.kvs && s2.sequences == o.state.sequences);
                assert forall|k: Seq<u8>| #[trigger] s2.kvs.contains_key(k) implies s2.kvs[k].seq
                    <= s2.seq(generic_kv()) by {
                    assert(o.state.kvs.contains_key(k));
                }
            }
        },
        _ => {},
    }
}

/// No two stored records have the same sequence number.
pub open spec fn seqs_unique(s: StateView) -> bool {
    forall|a: Seq<u8>, b: Seq<u8>|
        #![trigger s.kvs[a], s.kvs[b]]
        s.kvs.contains_key(a) && s.kvs.contains_key(b) && a != b ==> s.kvs[a].seq != s.kvs[b].seq
}

/// A write leaves no two stored records with the same sequence number.
pub proof fn lemma_upsert_seqs_unique(
    s: StateView,
    key: Seq<u8>,
    m: MatchSeq,
    op: Operation<Seq<u8>>,
    meta: Option<KVMeta>,
    now: u64,
)
    requires
        s.seqs_issued(),
        seqs_unique(s),
        upsert_writes(s, key, m, op, now) ==> s.seq(generic_kv()) < u64::MAX,
    ensures
        seqs_unique(upsert(s, key, m, op, meta, now).state),
{
    let u = upsert(s, key, m, op, meta, now).state;
    assert forall|a: Seq<u8>, b: Seq<u8>|
        #![trigger u.kvs[a], u.kvs[b]]
        u.kvs.contains_key(a) && u.kvs.contains_key(b) && a != b implies u.kvs[a].seq
        != u.kvs[b].seq by {
        if a != key {
            assert(s.kvs.contains_key(a));
        }
        if b != key {
            assert(s.kvs.contains_key(b));
        }
    }
}

/// The operations of a transaction leave no two stored records with the same
/// sequence number.
pub proof fn lemma_run_ops_seqs_unique(s: StateView, ops: Seq<TxnOp>, now: u64)
    requires
        s.seqs_issued(),
        seqs_unique(s),
        s.seq(generic_kv()) + count_puts(ops) <= u64::MAX,
    ensures
        seqs_unique(run_ops(s, ops, now).state),
    decreases ops.len(),
{
    if ops.len() > 0 {
        let before = run_ops(s, ops.drop_last(), now).state;
        lemma_run_ops_seqs_unique(s, ops.drop_last(), now);
        lemma_run_ops_seqs_issued(s, ops.drop_last(), now);
        lemma_run_ops_counters(s, ops.drop_last(), now, generic_kv());
        match ops.last() {
            TxnOp::Get { key } => {},
            TxnOp::Put { key, value, prev_value } => {
                lemma_upsert_seqs_unique(
                    before,
                    str_key(key@),
                    MatchSeq::Any,
                    Operation::Update(value@),
                    None,
                    now,
                );
            },
            TxnOp::Delete { key, prev_value } => {
                lemma_upsert_seqs_unique(
                    before,
                    str_key(key@),
                    MatchSeq::Any,
                    Operation::Delete,
                    None,
                    now,
                );
            },
        }
    }
}

/// Applying an entry to a state in which the stored records have sequence
/// numbers that differ from each other and do not go beyond the counter
/// leaves such a state: sequence numbers are never given out twice.
pub proof fn law_apply_keeps_seqs_unique(s: StateView, entry: Entry, now: u64)
    requires
        s.seqs_issued(),
        seqs_unique(s),
    ensures
        seqs_unique(apply(s, entry, now).state),
{
    let s1 = StateView { last_applied: Some(entry.log_id), ..s };
    assert(s1.kvs == s.kvs);
    assert(seqs_unique(s1));
    assert(s1.seqs_issued());
    match entry.payload {
        EntryPayload::Normal(data) => {
            if !is_duplicate(s1, data) {
                let o = apply_cmd(s1, data.cmd, now);
                assert(seqs_unique(o.state)) by {
                    if !cmd_exhausted(s1, data.cmd, now) {
                        match data.cmd {
                            Cmd::UpsertKV { key, seq, value, value_meta } => {
                                lemma_upsert_seqs_unique(
                                    s1,
                                    str_key(key@),
                                    seq,
                                    crate::model::op_view(value),
                                    value_meta,
                                    now,
                                );
                            },
                            Cmd::Transaction(req) => {
                                lemma_run_ops_seqs_unique(
                                    s1,
                                    crate::model::branch(s1, req, now),
                                    now,
                                );
                            },
                            _ => {
                                assert(o.state.kvs == s1.kvs);
                            },
                        }
                    }
                }
                let s2 = apply_normal(s1, data, now).state;
                assert(s2.kvs == o.state.kvs);
            }
        },
        _ => {},
    }
}

/// A request that is submitted again is answered as before, and the second
/// submission changes nothing but the last applied position: whatever the two
/// entries carry as commands, if they name the same client and serial.
pub proof fn law_same_txid_same_response(s: StateView, e1: Entry, t1: u64, e2: Entry, t2: u64)
    requires
        e1.payload matches EntryPayload::Normal(d1) && d1.txid matches Some(x1)
            && e2.payload matches EntryPayload::Normal(d2) && d2.txid matches Some(x2)
            && x1.client@ == x2.client@ && x1.serial == x2.serial,
    ensures
        ({
            let o1 = apply(s, e1, t1);
            let o2 = apply(o1.state, e2, t2);
            &&& o2.response == o1.response
            &&& o2.state == StateView { last_applied: Some(e2.log_id), ..o1.state }
        }),
{
    let d1 = e1.payload->Normal_0;
    let s1 = StateView { last_applied: Some(e1.log_id), ..s };
    if !is_duplicate(s1, d1) {
        lemma_apply_cmd_counters(s1, d1.cmd, t1, generic_kv());
    }
}

/// After an entry that names its client and serial was applied, the response
/// to it is the one recorded as that client's last, under that serial.
pub proof fn law_response_is_recorded(s: StateView, entry: Entry, now: u64)
    requires
        entry.payload matches EntryPayload::Normal(data) && data.txid is Some,
    ensures
        ({
            let txid = entry.payload->Normal_0.txid->0;
            let o = apply(s, entry, now);
            o.state.client_last_resp(txid.client@) == Some(
                crate::cmd::ClientLastRespView { req_serial_num: txid.serial, res: o.response },
            )
        }),
{
    let data = entry.payload->Normal_0;
    let s1 = StateView { last_applied: Some(entry.log_id), ..s };
    if !is_duplicate(s1, data) {
        lemma_apply_cmd_counters(s1, data.cmd, now, generic_kv());
    }
}

/// An entry without client and serial is never answered from the record of
/// responses: it is applied as its command says.
pub proof fn law_without_txid_always_applied(s: StateView, entry: Entry, now: u64)
    requires
        entry.payload matches EntryPayload::Normal(data) && data.txid is None,
    ensures
        apply(s, entry, now) == apply_cmd(
            StateView { last_applied: Some(entry.log_id), ..s },
            entry.payload->Normal_0.cmd,
            now,
        ),
{
}

/// An `UpsertKV` command that asks for the sequence number `n` where the
/// record seen has another, or where none is seen, leaves the state as it is
/// and answers with the record seen, twice.
pub proof fn law_unmatched_upsert_changes_nothing(s: StateView, cmd: Cmd, now: u64)
    requires
        cmd matches Cmd::UpsertKV { key, seq, value, value_meta } && seq matches MatchSeq::Eq(n)
            && seq_of(s.kv(str_key(key@), now)) != Some(n),
    ensures
        apply_cmd(s, cmd, now) == (Outcome {
            state: s,
            response: AppliedStateView::KV(
                Change {
                    prev: s.kv(str_key(cmd->UpsertKV_key@), now),
                    result: s.kv(str_key(cmd->UpsertKV_key@), now),
                },
            ),
        }),
{
}

/// A write that asks for the sequence number `n` where the record seen has
/// another, or where none is seen, changes nothing, and its result is the
/// record seen.
pub proof fn law_unmatched_write_changes_nothing(
    s: StateView,
    key: Seq<u8>,
    n: u64,
    op: Operation<Seq<u8>>,
    meta: Option<KVMeta>,
    now: u64,
)
    requires
        seq_of(s.kv(key, now)) != Some(n),
    ensures
        upsert(s, key, MatchSeq::Eq(n), op, meta, now) == (Upserted {
            state: s,
            prev: s.kv(key, now),
            result: s.kv(key, now),
        }),
{
}

/// After a `Delete` no read sees a record at the key, and no counter has moved.
pub proof fn law_delete_hides_and_keeps_counters(
    s: StateView,
    key: Seq<u8>,
    meta: Option<KVMeta>,
    now: u64,
    later: u64,
)
    ensures
        upsert(s, key, MatchSeq::Any, Operation::Delete, meta, now).state.kv(key, later) is None,
        upsert(s, key, MatchSeq::Any, Operation::Delete, meta, now).state.sequences
            == s.sequences,
        upsert(s, key, MatchSeq::Any, Operation::Delete, meta, now).result is None,
{
}

/// From the second at which a record expires, no read sees it, while it is
/// still stored.
pub proof fn law_expired_is_hidden_not_removed(s: StateView, key: Seq<u8>, now: u64)
    requires
        s.kvs.contains_key(key),
        s.kvs[key].expire_at() matches Some(t) && now >= t,
    ensures
        s.kv(key, now) is None,
        s.stored_kv(key) == Some(s.kvs[key]),
{
}

/// Every stored record stands in the snapshot, hidden or not.
pub proof fn law_stored_record_in_snapshot(s: StateView, key: Seq<u8>)
    requires
        s.valid(),
        s.kvs.contains_key(key),
    ensures
        exists|i: int|
            0 <= i < snapshot_of(s).len() && #[trigger] snapshot_of(s)[i] == seq![
                seq![PREFIX_GENERIC_KV] + key,
                <SeqV<Vec<u8>>>::enc(s.kvs[key]),
            ],
{
    let ps = sorted_pairs(s.kvs);
    assert(crate::keyspace::has_key(ps, key));
    let j = index_of(ps, key);
    lemma_map_at(ps, j);
    let seg4 = segment::<SeqV<Vec<u8>>>(PREFIX_GENERIC_KV, ps);
    let front = segment::<u64>(crate::snapshot::PREFIX_SEQUENCES, sorted_pairs(s.sequences))
        + crate::snapshot::meta_segment(s) + segment::<crate::types::Node>(
        crate::snapshot::PREFIX_NODES,
        sorted_pairs(s.nodes),
    );
    let i = front.len() + j;
    assert(snapshot_of(s)[i] == seg4[j]);
}

/// Two machines in the same state have the same snapshot, byte for byte; and
/// the state after a run depends on nothing but the state before it, the
/// entries and the times at which they are applied.
pub proof fn law_replay_gives_same_snapshot(
    a: StateView,
    b: StateView,
    entries: Seq<Entry>,
    times: Seq<u64>,
)
    requires
        a == b,
    ensures
        run(a, entries, times) == run(b, entries, times),
        snapshot_of(run(a, entries, times)) == snapshot_of(run(b, entries, times)),
{
}

/// Opening a machine on the snapshot of an initialized machine gives that
/// machine's state back, unchanged.
pub proof fn law_open_is_idempotent(s: StateView)
    requires
        s.valid(),
        state_fits(s),
        s.initialized,
    ensures
        opened(snapshot_of(s)) == Some(s),
{
    law_snapshot_roundtrip(s);
}

/// The counter from which key-value records take their sequence numbers is
/// stored under the ten ASCII bytes of `generic-kv`.
pub proof fn law_generic_kv_bytes()
    ensures
        generic_kv() == seq![103u8, 101u8, 110u8, 101u8, 114u8, 105u8, 99u8, 45u8, 107u8, 118u8],
{
    reveal_strlit("generic-kv");
    let chars = "generic-kv"@;
    assert(chars.len() == 10);
    assert(chars[0] == 'g' && chars[1] == 'e' && chars[2] == 'n' && chars[3] == 'e' && chars[4]
        == 'r' && chars[5] == 'i' && chars[6] == 'c' && chars[7] == '-' && chars[8] == 'k'
        && chars[9] == 'v');
    assert(vstd::utf8::is_ascii_chars(chars));
    vstd::utf8::is_ascii_chars_encode_utf8(chars);
    let bytes = vstd::utf8::encode_utf8(chars);
    assert(bytes[0] == chars[0] as u8);
    assert(bytes[1] == chars[1] as u8);
    assert(bytes[2] == chars[2] as u8);
    assert(bytes[3] == chars[3] as u8);
    assert(bytes[4] == chars[4] as u8);
    assert(bytes[5] == chars[5] as u8);
    assert(bytes[6] == chars[6] as u8);
    assert(bytes[7] == chars[7] as u8);
    assert(bytes[8] == chars[8] as u8);
    assert(bytes[9] == chars[9] as u8);
    assert(bytes =~= seq![103u8, 101u8, 110u8, 101u8, 114u8, 105u8, 99u8, 45u8, 107u8, 118u8]);
}

/// A write leaves a valid state valid.
pub proof fn lemma_upsert_valid(
    s: StateView,
    key: Seq<u8>,
    m: MatchSeq,
    op: Operation<Seq<u8>>,
    meta: Option<KVMeta>,
    now: u64,
)
    requires
        s.valid(),
    ensures
        upsert(s, key, m, op, meta, now).state.valid(),
{
    let u = upsert(s, key, m, op, meta, now);
    lemma_representable_remove(s.kvs, key);
    match u.result {
        Some(rec) => {
            lemma_representable_insert(s.kvs, key, rec);
            lemma_representable_insert(
                s.sequences,
                generic_kv(),
                (s.seq(generic_kv()) + 1) as u64,
            );
        },
        None => {},
    }
}

/// The operations of a transaction leave a valid state valid.
pub proof fn lemma_run_ops_valid(s: StateView, ops: Seq<TxnOp>, now: u64)
    requires
        s.valid(),
    ensures
        run_ops(s, ops, now).state.valid(),
    decreases ops.len(),
{
    if ops.len() > 0 {
        let before = run_ops(s, ops.drop_last(), now).state;
        lemma_run_ops_valid(s, ops.drop_last(), now);
        match ops.last() {
            TxnOp::Get { key } => {},
            TxnOp::Put { key, value, prev_value } => {
                lemma_upsert_valid(
                    before,
                    str_key(key@),
                    MatchSeq::Any,
                    Operation::Update(value@),
                    None,
                    now,
                );
            },
            TxnOp::Delete { key, prev_value } => {
                lemma_upsert_valid(
                    before,
                    str_key(key@),
                    MatchSeq::Any,
                    Operation::Delete,
                    None,
                    now,
                );
            },
        }
    }
}

/// The state of a machine that holds nothing is valid.
pub proof fn law_empty_is_valid()
    ensures
        StateView::empty().valid(),
{
    lemma_representable_empty::<u64>();
    lemma_representable_empty::<crate::types::NodeView>();
    lemma_representable_empty::<crate::model::Record>();
    lemma_representable_empty::<crate::cmd::ClientLastRespView>();
}

/// Applying an entry to a valid state leaves a valid state: every state that
/// a run reaches from the empty one has finitely many keys in every keyspace,
/// and its nodes under keys of eight bytes.
pub proof fn law_apply_keeps_valid(s: StateView, entry: Entry, now: u64)
    requires
        s.valid(),
    ensures
        apply(s, entry, now).state.valid(),
{
    let s1 = StateView { last_applied: Some(entry.log_id), ..s };
    assert(s1.valid());
    match entry.payload {
        EntryPayload::Normal(data) => {
            if !is_duplicate(s1, data) {
                let o = apply_cmd(s1, data.cmd, now);
                assert(o.state.valid()) by {
                    if !cmd_exhausted(s1, data.cmd, now) {
                        match data.cmd {
                            Cmd::IncrSeq { key } => {
                                lemma_representable_insert(
                                    s1.sequences,
                                    str_key(key@),
                                    (s1.seq(str_key(key@)) + 1) as u64,
                                );
                            },
                            Cmd::AddNode { node_id, node } => {
                                lemma_representable_insert(
                                    s1.nodes,
                                    crate::model::node_key(node_id),
                                    node@,
                                );
                            },
                            Cmd::RemoveNode { node_id } => {
                                lemma_representable_remove(
                                    s1.nodes,
                                    crate::model::node_key(node_id),
                                );
                            },
                            Cmd::UpsertKV { key, seq, value, value_meta } => {
                                lemma_upsert_valid(
                                    s1,
                                    str_key(key@),
                                    seq,
                                    crate::model::op_view(value),
                                    value_meta,
                                    now,
                                );
                            },
                            Cmd::Transaction(req) => {
                                lemma_run_ops_valid(s1, crate::model::branch(s1, req, now), now);
                            },
                        }
                    }
                }
                match data.txid {
                    Some(txid) => {
                        lemma_representable_insert(
                            o.state.client_last_resps,
                            str_key(txid.client@),
                            crate::cmd::ClientLastRespView {
                                req_serial_num: txid.serial,
                                res: o.response,
                            },
                        );
                    },
                    None => {},
                }
            }
        },
        _ => {},
    }
}

} // verus!
