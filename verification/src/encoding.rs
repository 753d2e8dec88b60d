//! How each stored record is written as bytes and read back.

use vstd::prelude::*;
use vstd::utf8::encode_utf8;
use crate::cmd::{
    AppError, AppliedState, AppliedStateView, Change, ClientLastRespValue, ClientLastRespView,
    EffectiveMembership, EffectiveMembershipView, Membership,
};
use crate::codec::{
    dec_bool, dec_bytes, dec_list, dec_opt, dec_str, dec_u64, dec_u8, enc_bool, enc_bytes,
    enc_list, enc_opt, enc_str, enc_u64, enc_u8, lemma_dec_enc_bool, lemma_dec_enc_bytes,
    lemma_dec_enc_list, lemma_dec_enc_opt, lemma_dec_enc_str, lemma_dec_enc_u64,
    lemma_dec_enc_u8, list_fits, opt_fits, put_bool, put_bytes, put_list, put_opt, put_str,
    put_u64, put_u8, read_list, read_opt, Codec, Parsed, Reader,
};
use crate::model::Record;
use crate::txn::{PbSeqV, PbSeqVView, TxnOpResponse, TxnOpResponseView, TxnReply, TxnReplyView};
use crate::types::{Endpoint, EndpointView, KVMeta, LogId, Node, NodeView, SeqV};

verus! {

/// The length of a byte string can be written as a number.
pub open spec fn bytes_fit(b: Seq<u8>) -> bool {
    b.len() <= u64::MAX
}

/// The length of the encoding of a text can be written as a number.
pub open spec fn str_fits(t: Seq<char>) -> bool {
    encode_utf8(t).len() <= u64::MAX
}

/// Written as one byte, 1 for true and 0 for false.
impl Codec for bool {
    open spec fn enc(v: bool) -> Seq<u8> {
        enc_bool(v)
    }

    open spec fn dec(s: Seq<u8>) -> Parsed<bool> {
        dec_bool(s)
    }

    open spec fn fits(v: bool) -> bool {
        true
    }

    proof fn lemma_roundtrip(v: bool, rest: Seq<u8>) {
        lemma_dec_enc_bool(v, rest);
    }

    fn put(&self, out: &mut Vec<u8>) {
        put_bool(out, *self);
    }

    fn read(r: &mut Reader) -> (res: Option<bool>) {
        r.read_bool()
    }
}

/// Written as term, then index.
impl Codec for LogId {
    open spec fn enc(l: LogId) -> Seq<u8> {
        enc_u64(l.term) + enc_u64(l.index)
    }

    open spec fn dec(s: Seq<u8>) -> Parsed<LogId> {
        match dec_u64(s) {
            Some((term, r1)) => match dec_u64(r1) {
                Some((index, r2)) => Some((LogId { term, index }, r2)),
                None => None,
            },
            None => None,
        }
    }

    open spec fn fits(l: LogId) -> bool {
        true
    }

    proof fn lemma_roundtrip(l: LogId, rest: Seq<u8>) {
        assert(Self::enc(l) + rest =~= enc_u64(l.term) + (enc_u64(l.index) + rest));
        lemma_dec_enc_u64(l.term, enc_u64(l.index) + rest);
        lemma_dec_enc_u64(l.index, rest);
    }

    fn put(&self, out: &mut Vec<u8>) {
        put_u64(out, self.term);
        put_u64(out, self.index);
        proof {
            assert(out@ =~= old(out)@ + Self::enc(*self));
        }
    }

    fn read(r: &mut Reader) -> (res: Option<LogId>) {
        let term = r.read_u64()?;
        let index = r.read_u64()?;
        Some(LogId { term, index })
    }
}

/// The meta of a record, as it is written: 0 for none, 1 for a meta without
/// expiry, 2 and the time for a meta with one.
pub open spec fn enc_meta(m: Option<KVMeta>) -> Seq<u8> {
    match m {
        None => enc_u8(0),
        Some(k) => match k.expire_at {
            None => enc_u8(1),
            Some(t) => enc_u8(2) + enc_u64(t),
        },
    }
}

/// Reading the meta of a record.
pub open spec fn dec_meta(s: Seq<u8>) -> Parsed<Option<KVMeta>> {
    match dec_u8(s) {
        Some((tag, r1)) => if tag == 0 {
            Some((None, r1))
        } else if tag == 1 {
            Some((Some(KVMeta { expire_at: None }), r1))
        } else if tag == 2 {
            match dec_u64(r1) {
                Some((t, r2)) => Some((Some(KVMeta { expire_at: Some(t) }), r2)),
                None => None,
            }
        } else {
            None
        },
        None => None,
    }
}

/// A meta that was written is read back.
pub proof fn lemma_dec_enc_meta(m: Option<KVMeta>, rest: Seq<u8>)
    ensures
        dec_meta(enc_meta(m) + rest) == Some((m, rest)),
{
    match m {
        None => {
            lemma_dec_enc_u8(0, rest);
        },
        Some(k) => match k.expire_at {
            None => {
                lemma_dec_enc_u8(1, rest);
            },
            Some(t) => {
                assert(enc_meta(m) + rest =~= enc_u8(2) + (enc_u64(t) + rest));
                lemma_dec_enc_u8(2, enc_u64(t) + rest);
                lemma_dec_enc_u64(t, rest);
            },
        },
    }
}

/// Appends the meta of a record as it is written.
pub fn put_meta(out: &mut Vec<u8>, m: &Option<KVMeta>)
    ensures
        final(out)@ == old(out)@ + enc_meta(*m),
{
    match m {
        None => {
            put_u8(out, 0);
        },
        Some(k) => match k.expire_at {
            None => {
                put_u8(out, 1);
            },
            Some(t) => {
                put_u8(out, 2);
                put_u64(out, t);
                proof {
                    assert(out@ =~= old(out)@ + enc_meta(*m));
                }
            },
        },
    }
}

/// Reads the meta of a record.
pub fn read_meta(r: &mut Reader) -> (res: Option<Option<KVMeta>>)
    requires
        old(r).wf(),
    ensures
        final(r).wf(),
        match dec_meta(old(r).rest()) {
            Some((v, rest)) => res == Some(v) && final(r).rest() == rest,
            None => res is None,
        },
{
    let tag = r.read_u8()?;
    if tag == 0 {
        Some(None)
    } else if tag == 1 {
        Some(Some(KVMeta { expire_at: None }))
    } else if tag == 2 {
        let t = r.read_u64()?;
        Some(Some(KVMeta { expire_at: Some(t) }))
    } else {
        None
    }
}

/// Written as sequence number, meta, data.
impl Codec for SeqV<Vec<u8>> {
    open spec fn enc(v: Record) -> Seq<u8> {
        enc_u64(v.seq) + enc_meta(v.meta) + enc_bytes(v.data)
    }

    open spec fn dec(s: Seq<u8>) -> Parsed<Record> {
        match dec_u64(s) {
            Some((seq, r1)) => match dec_meta(r1) {
                Some((meta, r2)) => match dec_bytes(r2) {
                    Some((data, r3)) => Some((SeqV { seq, meta, data }, r3)),
                    None => None,
                },
                None => None,
            },
            None => None,
        }
    }

    open spec fn fits(v: Record) -> bool {
        bytes_fit(v.data)
    }

    proof fn lemma_roundtrip(v: Record, rest: Seq<u8>) {
        assert(Self::enc(v) + rest =~= enc_u64(v.seq) + (enc_meta(v.meta) + (enc_bytes(v.data)
            + rest)));
        lemma_dec_enc_u64(v.seq, enc_meta(v.meta) + (enc_bytes(v.data) + rest));
        lemma_dec_enc_meta(v.meta, enc_bytes(v.data) + rest);
        lemma_dec_enc_bytes(v.data, rest);
    }

    fn put(&self, out: &mut Vec<u8>) {
        put_u64(out, self.seq);
        put_meta(out, &self.meta);
        put_bytes(out, self.data.as_slice());
        proof {
            assert(out@ =~= old(out)@ + Self::enc(self@));
        }
    }

    fn read(r: &mut Reader) -> (res: Option<Self>) {
        let seq = r.read_u64()?;
        let meta = read_meta(r)?;
        let data = r.read_bytes()?;
        Some(SeqV { seq, meta, data })
    }
}

/// Written as name, address, port.
impl Codec for Node {
    open spec fn enc(n: NodeView) -> Seq<u8> {
        enc_str(n.name) + enc_str(n.endpoint.addr) + enc_u64(n.endpoint.port as u64)
    }

    open spec fn dec(s: Seq<u8>) -> Parsed<NodeView> {
        match dec_str(s) {
            Some((name, r1)) => match dec_str(r1) {
                Some((addr, r2)) => match dec_u64(r2) {
                    Some((port, r3)) => if port <= u32::MAX {
                        Some(
                            (
                                NodeView { name, endpoint: EndpointView { addr, port: port as u32 } },
                                r3,
                            ),
                        )
                    } else {
                        None
                    },
                    None => None,
                },
                None => None,
            },
            None => None,
        }
    }

    open spec fn fits(n: NodeView) -> bool {
        str_fits(n.name) && str_fits(n.endpoint.addr)
    }

    proof fn lemma_roundtrip(n: NodeView, rest: Seq<u8>) {
        let port = enc_u64(n.endpoint.port as u64);
        assert(Self::enc(n) + rest =~= enc_str(n.name) + (enc_str(n.endpoint.addr) + (port
            + rest)));
        lemma_dec_enc_str(n.name, enc_str(n.endpoint.addr) + (port + rest));
        lemma_dec_enc_str(n.endpoint.addr, port + rest);
        lemma_dec_enc_u64(n.endpoint.port as u64, rest);
    }

    fn put(&self, out: &mut Vec<u8>) {
        put_str(out, self.name.as_str());
        put_str(out, self.endpoint.addr.as_str());
        put_u64(out, self.endpoint.port as u64);
        proof {
            assert(out@ =~= old(out)@ + Self::enc(self@));
        }
    }

    fn read(r: &mut Reader) -> (res: Option<Self>) {
        let name = r.read_str()?;
        let addr = r.read_str()?;
        let port = r.read_u64()?;
        if port > u32::MAX as u64 {
            return None;
        }
        Some(Node { name, endpoint: Endpoint { addr, port: port as u32 } })
    }
}

/// A set of node ids, written as a list of numbers.
impl Codec for Vec<u64> {
    open spec fn enc(v: Seq<u64>) -> Seq<u8> {
        enc_list::<u64>(v)
    }

    open spec fn dec(s: Seq<u8>) -> Parsed<Seq<u64>> {
        dec_list::<u64>(s)
    }

    open spec fn fits(v: Seq<u64>) -> bool {
        list_fits::<u64>(v)
    }

    proof fn lemma_roundtrip(v: Seq<u64>, rest: Seq<u8>) {
        lemma_dec_enc_list::<u64>(v, rest);
    }

    fn put(&self, out: &mut Vec<u8>) {
        put_list::<u64>(out, self);
    }

    fn read(r: &mut Reader) -> (res: Option<Self>) {
        read_list::<u64>(r)
    }
}

/// Written as the list of its sets of node ids.
impl Codec for Membership {
    open spec fn enc(v: Seq<Seq<u64>>) -> Seq<u8> {
        enc_list::<Vec<u64>>(v)
    }

    open spec fn dec(s: Seq<u8>) -> Parsed<Seq<Seq<u64>>> {
        dec_list::<Vec<u64>>(s)
    }

    open spec fn fits(v: Seq<Seq<u64>>) -> bool {
        list_fits::<Vec<u64>>(v)
    }

    proof fn lemma_roundtrip(v: Seq<Seq<u64>>, rest: Seq<u8>) {
        lemma_dec_enc_list::<Vec<u64>>(v, rest);
    }

    fn put(&self, out: &mut Vec<u8>) {
        put_list::<Vec<u64>>(out, &self.configs);
    }

    fn read(r: &mut Reader) -> (res: Option<Self>) {
        let configs = read_list::<Vec<u64>>(r)?;
        Some(Membership { configs })
    }
}

/// Written as the log position, then the membership.
impl Codec for EffectiveMembership {
    open spec fn enc(v: EffectiveMembershipView) -> Seq<u8> {
        LogId::enc(v.log_id) + Membership::enc(v.membership)
    }

    open spec fn dec(s: Seq<u8>) -> Parsed<EffectiveMembershipView> {
        match LogId::dec(s) {
            Some((log_id, r1)) => match Membership::dec(r1) {
                Some((membership, r2)) => Some((EffectiveMembershipView { log_id, membership }, r2)),
                None => None,
            },
            None => None,
        }
    }

    open spec fn fits(v: EffectiveMembershipView) -> bool {
        Membership::fits(v.membership)
    }

    proof fn lemma_roundtrip(v: EffectiveMembershipView, rest: Seq<u8>) {
        assert(Self::enc(v) + rest =~= LogId::enc(v.log_id) + (Membership::enc(v.membership)
            + rest));
        LogId::lemma_roundtrip(v.log_id, Membership::enc(v.membership) + rest);
        Membership::lemma_roundtrip(v.membership, rest);
    }

    fn put(&self, out: &mut Vec<u8>) {
        self.log_id.put(out);
        self.membership.put(out);
        proof {
            assert(out@ =~= old(out)@ + Self::enc(self@));
        }
    }

    fn read(r: &mut Reader) -> (res: Option<Self>) {
        let log_id = LogId::read(r)?;
        let membership = Membership::read(r)?;
        Some(EffectiveMembership { log_id, membership })
    }
}

/// Written as sequence number, then data.
impl Codec for PbSeqV {
    open spec fn enc(v: PbSeqVView) -> Seq<u8> {
        enc_u64(v.seq) + enc_bytes(v.data)
    }

    open spec fn dec(s: Seq<u8>) -> Parsed<PbSeqVView> {
        match dec_u64(s) {
            Some((seq, r1)) => match dec_bytes(r1) {
                Some((data, r2)) => Some((PbSeqVView { seq, data }, r2)),
                None => None,
            },
            None => None,
        }
    }

    open spec fn fits(v: PbSeqVView) -> bool {
        bytes_fit(v.data)
    }

    proof fn lemma_roundtrip(v: PbSeqVView, rest: Seq<u8>) {
        assert(Self::enc(v) + rest =~= enc_u64(v.seq) + (enc_bytes(v.data) + rest));
        lemma_dec_enc_u64(v.seq, enc_bytes(v.data) + rest);
        lemma_dec_enc_bytes(v.data, rest);
    }

    fn put(&self, out: &mut Vec<u8>) {
        put_u64(out, self.seq);
        put_bytes(out, self.data.as_slice());
        proof {
            assert(out@ =~= old(out)@ + Self::enc(self@));
        }
    }

    fn read(r: &mut Reader) -> (res: Option<Self>) {
        let seq = r.read_u64()?;
        let data = r.read_bytes()?;
        Some(PbSeqV { seq, data })
    }
}

/// The outcome of a `Get` that was written is read back.
proof fn lemma_roundtrip_get(key: Seq<char>, value: Option<PbSeqVView>, rest: Seq<u8>)
    requires
        str_fits(key),
        opt_fits::<PbSeqV>(value),
    ensures
        TxnOpResponse::dec(TxnOpResponse::enc(TxnOpResponseView::Get { key, value }) + rest)
            == Some((TxnOpResponseView::Get { key, value }, rest)),
{
    let v = TxnOpResponseView::Get { key, value };
    let tail = enc_opt::<PbSeqV>(value) + rest;
    assert(TxnOpResponse::enc(v) + rest =~= enc_u8(0) + (enc_str(key) + tail));
    lemma_dec_enc_u8(0, enc_str(key) + tail);
    lemma_dec_enc_str(key, tail);
    lemma_dec_enc_opt::<PbSeqV>(value, rest);
}

/// The outcome of a `Put` that was written is read back.
proof fn lemma_roundtrip_put(key: Seq<char>, prev_value: Option<PbSeqVView>, rest: Seq<u8>)
    requires
        str_fits(key),
        opt_fits::<PbSeqV>(prev_value),
    ensures
        TxnOpResponse::dec(TxnOpResponse::enc(TxnOpResponseView::Put { key, prev_value }) + rest)
            == Some((TxnOpResponseView::Put { key, prev_value }, rest)),
{
    let v = TxnOpResponseView::Put { key, prev_value };
    let tail = enc_opt::<PbSeqV>(prev_value) + rest;
    assert(TxnOpResponse::enc(v) + rest =~= enc_u8(1) + (enc_str(key) + tail));
    lemma_dec_enc_u8(1, enc_str(key) + tail);
    lemma_dec_enc_str(key, tail);
    lemma_dec_enc_opt::<PbSeqV>(prev_value, rest);
}

/// The outcome of a `Delete` that was written is read back.
proof fn lemma_roundtrip_delete(
    key: Seq<char>,
    success: bool,
    prev_value: Option<PbSeqVView>,
    rest: Seq<u8>,
)
    requires
        str_fits(key),
        opt_fits::<PbSeqV>(prev_value),
    ensures
        TxnOpResponse::dec(
            TxnOpResponse::enc(TxnOpResponseView::Delete { key, success, prev_value }) + rest,
        ) == Some((TxnOpResponseView::Delete { key, success, prev_value }, rest)),
{
    let v = TxnOpResponseView::Delete { key, success, prev_value };
    let tail = enc_opt::<PbSeqV>(prev_value) + rest;
    assert(TxnOpResponse::enc(v) + rest =~= enc_u8(2) + (enc_str(key) + (enc_bool(success)
        + tail)));
    lemma_dec_enc_u8(2, enc_str(key) + (enc_bool(success) + tail));
    lemma_dec_enc_str(key, enc_bool(success) + tail);
    lemma_dec_enc_bool(success, tail);
    lemma_dec_enc_opt::<PbSeqV>(prev_value, rest);
}

/// Written as a tag (0 `Get`, 1 `Put`, 2 `Delete`), the key, and what the
/// variant holds beside it.
impl Codec for TxnOpResponse {
    open spec fn enc(v: TxnOpResponseView) -> Seq<u8> {
        match v {
            TxnOpResponseView::Get { key, value } => enc_u8(0) + enc_str(key) + enc_opt::<PbSeqV>(
                value,
            ),
            TxnOpResponseView::Put { key, prev_value } => enc_u8(1) + enc_str(key) + enc_opt::<
                PbSeqV,
            >(prev_value),
            TxnOpResponseView::Delete { key, success, prev_value } => enc_u8(2) + enc_str(key)
                + enc_bool(success) + enc_opt::<PbSeqV>(prev_value),
        }
    }

    open spec fn dec(s: Seq<u8>) -> Parsed<TxnOpResponseView> {
        match dec_u8(s) {
            Some((tag, r1)) => match dec_str(r1) {
                Some((key, r2)) => if tag == 0 {
                    match dec_opt::<PbSeqV>(r2) {
                        Some((value, r3)) => Some((TxnOpResponseView::Get { key, value }, r3)),
                        None => None,
                    }
                } else if tag == 1 {
                    match dec_opt::<PbSeqV>(r2) {
                        Some((prev_value, r3)) => Some(
                            (TxnOpResponseView::Put { key, prev_value }, r3),
                        ),
                        None => None,
                    }
                } else if tag == 2 {
                    match dec_bool(r2) {
                        Some((success, r3)) => match dec_opt::<PbSeqV>(r3) {
                            Some((prev_value, r4)) => Some(
                                (TxnOpResponseView::Delete { key, success, prev_value }, r4),
                            ),
                            None => None,
                        },
                        None => None,
                    }
                } else {
                    None
                },
                None => None,
            },
            None => None,
        }
    }

    open spec fn fits(v: TxnOpResponseView) -> bool {
        match v {
            TxnOpResponseView::Get { key, value } => str_fits(key) && opt_fits::<PbSeqV>(value),
            TxnOpResponseView::Put { key, prev_value } => str_fits(key) && opt_fits::<PbSeqV>(
                prev_value,
            ),
            TxnOpResponseView::Delete { key, success, prev_value } => str_fits(key) && opt_fits::<
                PbSeqV,
            >(prev_value),
        }
    }

    proof fn lemma_roundtrip(v: TxnOpResponseView, rest: Seq<u8>) {
        match v {
            TxnOpResponseView::Get { key, value } => {
                lemma_roundtrip_get(key, value, rest);
            },
            TxnOpResponseView::Put { key, prev_value } => {
                lemma_roundtrip_put(key, prev_value, rest);
            },
            TxnOpResponseView::Delete { key, success, prev_value } => {
                lemma_roundtrip_delete(key, success, prev_value, rest);
            },
        }
    }

    fn put(&self, out: &mut Vec<u8>) {
        match self {
            TxnOpResponse::Get { key, value } => {
                put_u8(out, 0);
                put_str(out, key.as_str());
                put_opt::<PbSeqV>(out, value);
            },
            TxnOpResponse::Put { key, prev_value } => {
                put_u8(out, 1);
                put_str(out, key.as_str());
                put_opt::<PbSeqV>(out, prev_value);
            },
            TxnOpResponse::Delete { key, success, prev_value } => {
                put_u8(out, 2);
                put_str(out, key.as_str());
                put_bool(out, *success);
                put_opt::<PbSeqV>(out, prev_value);
            },
        }
        proof {
            assert(out@ =~= old(out)@ + Self::enc(self@));
        }
    }

    fn read(r: &mut Reader) -> (res: Option<Self>) {
        let tag = r.read_u8()?;
        let key = r.read_str()?;
        if tag == 0 {
            let value = read_opt::<PbSeqV>(r)?;
            Some(TxnOpResponse::Get { key, value })
        } else if tag == 1 {
            let prev_value = read_opt::<PbSeqV>(r)?;
            Some(TxnOpResponse::Put { key, prev_value })
        } else if tag == 2 {
            let success = r.read_bool()?;
            let prev_value = read_opt::<PbSeqV>(r)?;
            Some(TxnOpResponse::Delete { key, success, prev_value })
        } else {
            None
        }
    }
}

/// Written as the branch taken, the error text, and the list of outcomes.
impl Codec for TxnReply {
    open spec fn enc(v: TxnReplyView) -> Seq<u8> {
        enc_bool(v.success) + enc_str(v.error) + enc_list::<TxnOpResponse>(v.responses)
    }

    open spec fn dec(s: Seq<u8>) -> Parsed<TxnReplyView> {
        match dec_bool(s) {
            Some((success, r1)) => match dec_str(r1) {
                Some((error, r2)) => match dec_list::<TxnOpResponse>(r2) {
                    Some((responses, r3)) => Some((TxnReplyView { success, error, responses }, r3)),
                    None => None,
                },
                None => None,
            },
            None => None,
        }
    }

    open spec fn fits(v: TxnReplyView) -> bool {
        str_fits(v.error) && list_fits::<TxnOpResponse>(v.responses)
    }

    proof fn lemma_roundtrip(v: TxnReplyView, rest: Seq<u8>) {
        let tail = enc_list::<TxnOpResponse>(v.responses) + rest;
        assert(Self::enc(v) + rest =~= enc_bool(v.success) + (enc_str(v.error) + tail));
        lemma_dec_enc_bool(v.success, enc_str(v.error) + tail);
        lemma_dec_enc_str(v.error, tail);
        lemma_dec_enc_list::<TxnOpResponse>(v.responses, rest);
    }

    fn put(&self, out: &mut Vec<u8>) {
        put_bool(out, self.success);
        put_str(out, self.error.as_str());
        put_list::<TxnOpResponse>(out, &self.responses);
        proof {
            assert(out@ =~= old(out)@ + Self::enc(self@));
        }
    }

    fn read(r: &mut Reader) -> (res: Option<Self>) {
        let success = r.read_bool()?;
        let error = r.read_str()?;
        let responses = read_list::<TxnOpResponse>(r)?;
        Some(TxnReply { success, error, responses })
    }
}

/// A response with a counter's value that was written is read back.
proof fn lemma_roundtrip_seq_num(seq: u64, rest: Seq<u8>)
    ensures
        AppliedState::dec(AppliedState::enc(AppliedStateView::SeqNum { seq }) + rest) == Some(
            (AppliedStateView::SeqNum { seq }, rest),
        ),
{
    let v = AppliedStateView::SeqNum { seq };
    assert(AppliedState::enc(v) + rest =~= enc_u8(0) + (enc_u64(seq) + rest));
    lemma_dec_enc_u8(0, enc_u64(seq) + rest);
    lemma_dec_enc_u64(seq, rest);
}

/// The reply of a transaction that was written as a response is read back.
proof fn lemma_roundtrip_txn_reply(t: TxnReplyView, rest: Seq<u8>)
    requires
        TxnReply::fits(t),
    ensures
        AppliedState::dec(AppliedState::enc(AppliedStateView::TxnReply(t)) + rest) == Some(
            (AppliedStateView::TxnReply(t), rest),
        ),
{
    let v = AppliedStateView::TxnReply(t);
    assert(AppliedState::enc(v) + rest =~= enc_u8(3) + (TxnReply::enc(t) + rest));
    lemma_dec_enc_u8(3, TxnReply::enc(t) + rest);
    TxnReply::lemma_roundtrip(t, rest);
}

/// An error that was written as a response is read back.
proof fn lemma_roundtrip_app_error(e: AppError, rest: Seq<u8>)
    ensures
        AppliedState::dec(AppliedState::enc(AppliedStateView::AppError(e)) + rest) == Some(
            (AppliedStateView::AppError(e), rest),
        ),
{
    let v = AppliedStateView::AppError(e);
    assert(AppliedState::enc(v) + rest =~= enc_u8(4) + (enc_u8(0) + rest));
    lemma_dec_enc_u8(4, enc_u8(0) + rest);
    lemma_dec_enc_u8(0, rest);
}

/// An empty response that was written is read back.
proof fn lemma_roundtrip_empty(rest: Seq<u8>)
    ensures
        AppliedState::dec(AppliedState::enc(AppliedStateView::Empty) + rest) == Some(
            (AppliedStateView::Empty, rest),
        ),
{
    lemma_dec_enc_u8(5, rest);
}

/// A response about a node that was written is read back.
proof fn lemma_roundtrip_node_change(
    prev: Option<NodeView>,
    result: Option<NodeView>,
    rest: Seq<u8>,
)
    requires
        opt_fits::<Node>(prev),
        opt_fits::<Node>(result),
    ensures
        AppliedState::dec(AppliedState::enc(AppliedStateView::Node { prev, result }) + rest)
            == Some((AppliedStateView::Node { prev, result }, rest)),
{
    let v = AppliedStateView::Node { prev, result };
    let tail = enc_opt::<Node>(result) + rest;
    assert(AppliedState::enc(v) + rest =~= enc_u8(1) + (enc_opt::<Node>(prev) + tail));
    lemma_dec_enc_u8(1, enc_opt::<Node>(prev) + tail);
    lemma_dec_enc_opt::<Node>(prev, tail);
    lemma_dec_enc_opt::<Node>(result, rest);
}

/// A response about a key-value record that was written is read back.
proof fn lemma_roundtrip_kv_change(c: Change<Seq<u8>>, rest: Seq<u8>)
    requires
        opt_fits::<SeqV<Vec<u8>>>(c.prev),
        opt_fits::<SeqV<Vec<u8>>>(c.result),
    ensures
        AppliedState::dec(AppliedState::enc(AppliedStateView::KV(c)) + rest) == Some(
            (AppliedStateView::KV(c), rest),
        ),
{
    let v = AppliedStateView::KV(c);
    let tail = enc_opt::<SeqV<Vec<u8>>>(c.result) + rest;
    assert(AppliedState::enc(v) + rest =~= enc_u8(2) + (enc_opt::<SeqV<Vec<u8>>>(c.prev) + tail));
    lemma_dec_enc_u8(2, enc_opt::<SeqV<Vec<u8>>>(c.prev) + tail);
    lemma_dec_enc_opt::<SeqV<Vec<u8>>>(c.prev, tail);
    lemma_dec_enc_opt::<SeqV<Vec<u8>>>(c.result, rest);
}

/// Written as a tag (0 `SeqNum`, 1 `Node`, 2 `KV`, 3 `TxnReply`, 4 `AppError`,
/// 5 `Empty`) and what the variant holds.
impl Codec for AppliedState {
    open spec fn enc(v: AppliedStateView) -> Seq<u8> {
        match v {
            AppliedStateView::SeqNum { seq } => enc_u8(0) + enc_u64(seq),
            AppliedStateView::Node { prev, result } => enc_u8(1) + enc_opt::<Node>(prev)
                + enc_opt::<Node>(result),
            AppliedStateView::KV(c) => enc_u8(2) + enc_opt::<SeqV<Vec<u8>>>(c.prev) + enc_opt::<
                SeqV<Vec<u8>>,
            >(c.result),
            AppliedStateView::TxnReply(t) => enc_u8(3) + TxnReply::enc(t),
            AppliedStateView::AppError(e) => enc_u8(4) + enc_u8(0),
            AppliedStateView::Empty => enc_u8(5),
        }
    }

    open spec fn dec(s: Seq<u8>) -> Parsed<AppliedStateView> {
        match dec_u8(s) {
            Some((tag, r1)) => if tag == 0 {
                match dec_u64(r1) {
                    Some((seq, r2)) => Some((AppliedStateView::SeqNum { seq }, r2)),
                    None => None,
                }
            } else if tag == 1 {
                match dec_opt::<Node>(r1) {
                    Some((prev, r2)) => match dec_opt::<Node>(r2) {
                        Some((result, r3)) => Some((AppliedStateView::Node { prev, result }, r3)),
                        None => None,
                    },
                    None => None,
                }
            } else if tag == 2 {
                match dec_opt::<SeqV<Vec<u8>>>(r1) {
                    Some((prev, r2)) => match dec_opt::<SeqV<Vec<u8>>>(r2) {
                        Some((result, r3)) => Some(
                            (AppliedStateView::KV(Change { prev, result }), r3),
                        ),
                        None => None,
                    },
                    None => None,
                }
            } else if tag == 3 {
                match TxnReply::dec(r1) {
                    Some((t, r2)) => Some((AppliedStateView::TxnReply(t), r2)),
                    None => None,
                }
            } else if tag == 4 {
                match dec_u8(r1) {
                    Some((e, r2)) => if e == 0 {
                        Some((AppliedStateView::AppError(AppError::SequenceExhausted), r2))
                    } else {
                        None
                    },
                    None => None,
                }
            } else if tag == 5 {
                Some((AppliedStateView::Empty, r1))
            } else {
                None
            },
            None => None,
        }
    }

    open spec fn fits(v: AppliedStateView) -> bool {
        match v {
            AppliedStateView::SeqNum { seq } => true,
            AppliedStateView::Node { prev, result } => opt_fits::<Node>(prev) && opt_fits::<Node>(
                result,
            ),
            AppliedStateView::KV(c) => opt_fits::<SeqV<Vec<u8>>>(c.prev) && opt_fits::<
                SeqV<Vec<u8>>,
            >(c.result),
            AppliedStateView::TxnReply(t) => TxnReply::fits(t),
            AppliedStateView::AppError(e) => true,
            AppliedStateView::Empty => true,
        }
    }

    proof fn lemma_roundtrip(v: AppliedStateView, rest: Seq<u8>) {
        match v {
            AppliedStateView::SeqNum { seq } => {
                lemma_roundtrip_seq_num(seq, rest);
            },
            AppliedStateView::Node { prev, result } => {
                lemma_roundtrip_node_change(prev, result, rest);
            },
            AppliedStateView::KV(c) => {
                lemma_roundtrip_kv_change(c, rest);
            },
            AppliedStateView::TxnReply(t) => {
                lemma_roundtrip_txn_reply(t, rest);
            },
            AppliedStateView::AppError(e) => {
                lemma_roundtrip_app_error(e, rest);
            },
            AppliedStateView::Empty => {
                lemma_roundtrip_empty(rest);
            },
        }
    }

    fn put(&self, out: &mut Vec<u8>) {
        match self {
            AppliedState::SeqNum { seq } => {
                put_u8(out, 0);
                put_u64(out, *seq);
            },
            AppliedState::Node { prev, result } => {
                put_u8(out, 1);
                put_opt::<Node>(out, prev);
                put_opt::<Node>(out, result);
            },
            AppliedState::KV(c) => {
                put_u8(out, 2);
                put_opt::<SeqV<Vec<u8>>>(out, &c.prev);
                put_opt::<SeqV<Vec<u8>>>(out, &c.result);
            },
            AppliedState::TxnReply(t) => {
                put_u8(out, 3);
                t.put(out);
            },
            AppliedState::AppError(e) => {
                put_u8(out, 4);
                put_u8(out, 0);
            },
            AppliedState::Empty => {
                put_u8(out, 5);
            },
        }
        proof {
            assert(out@ =~= old(out)@ + Self::enc(self@));
        }
    }

    fn read(r: &mut Reader) -> (res: Option<Self>) {
        let tag = r.read_u8()?;
        if tag == 0 {
            let seq = r.read_u64()?;
            Some(AppliedState::SeqNum { seq })
        } else if tag == 1 {
            let prev = read_opt::<Node>(r)?;
            let result = read_opt::<Node>(r)?;
            Some(AppliedState::Node { prev, result })
        } else if tag == 2 {
            let prev = read_opt::<SeqV<Vec<u8>>>(r)?;
            let result = read_opt::<SeqV<Vec<u8>>>(r)?;
            Some(AppliedState::KV(Change { prev, result }))
        } else if tag == 3 {
            let t = TxnReply::read(r)?;
            Some(AppliedState::TxnReply(t))
        } else if tag == 4 {
            let e = r.read_u8()?;
            if e == 0 {
                Some(AppliedState::AppError(AppError::SequenceExhausted))
            } else {
                None
            }
        } else if tag == 5 {
            Some(AppliedState::Empty)
        } else {
            None
        }
    }
}

/// Written as the serial, then the response.
impl Codec for ClientLastRespValue {
    open spec fn enc(v: ClientLastRespView) -> Seq<u8> {
        enc_u64(v.req_serial_num) + AppliedState::enc(v.res)
    }

    open spec fn dec(s: Seq<u8>) -> Parsed<ClientLastRespView> {
        match dec_u64(s) {
            Some((req_serial_num, r1)) => match AppliedState::dec(r1) {
                Some((res, r2)) => Some((ClientLastRespView { req_serial_num, res }, r2)),
                None => None,
            },
            None => None,
        }
    }

    open spec fn fits(v: ClientLastRespView) -> bool {
        AppliedState::fits(v.res)
    }

    proof fn lemma_roundtrip(v: ClientLastRespView, rest: Seq<u8>) {
        assert(Self::enc(v) + rest =~= enc_u64(v.req_serial_num) + (AppliedState::enc(v.res)
            + rest));
        lemma_dec_enc_u64(v.req_serial_num, AppliedState::enc(v.res) + rest);
        AppliedState::lemma_roundtrip(v.res, rest);
    }

    fn put(&self, out: &mut Vec<u8>) {
        put_u64(out, self.req_serial_num);
        self.res.put(out);
        proof {
            assert(out@ =~= old(out)@ + Self::enc(self@));
        }
    }

    fn read(r: &mut Reader) -> (res: Option<Self>) {
        let req_serial_num = r.read_u64()?;
        let res = AppliedState::read(r)?;
        Some(ClientLastRespValue { req_serial_num, res })
    }
}

} // verus!
