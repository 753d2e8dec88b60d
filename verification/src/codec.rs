//! How stored values are written as bytes and read back.
//!
//! Every value is written so that it can be read back from the front of a
//! longer byte string: numbers have a fixed width, and byte strings, text and
//! lists are preceded by their length.

use vstd::prelude::*;
use vstd::utf8::{decode_utf8, encode_utf8, valid_utf8};
use crate::bytes::{lemma_u64_be_roundtrip, u64_be, u64_from_be, u64_from_be_bytes, u64_to_be_bytes};

verus! {

/// What reading a value of type `T` from the front of a byte string gives: the
/// value and the bytes after it, or nothing if the bytes do not hold one.
pub type Parsed<T> = Option<(T, Seq<u8>)>;

/// A byte, as it is written.
pub open spec fn enc_u8(b: u8) -> Seq<u8> {
    seq![b]
}

/// Reading a byte.
pub open spec fn dec_u8(s: Seq<u8>) -> Parsed<u8> {
    if s.len() >= 1 {
        Some((s[0], s.skip(1)))
    } else {
        None
    }
}

/// A truth value, as it is written: one byte, 1 for true and 0 for false.
pub open spec fn enc_bool(b: bool) -> Seq<u8> {
    seq![if b { 1u8 } else { 0u8 }]
}

/// Reading a truth value.
pub open spec fn dec_bool(s: Seq<u8>) -> Parsed<bool> {
    if s.len() >= 1 && s[0] <= 1 {
        Some((s[0] == 1, s.skip(1)))
    } else {
        None
    }
}

/// A number, as it is written: eight bytes, most significant first.
pub open spec fn enc_u64(v: u64) -> Seq<u8> {
    u64_be(v)
}

/// Reading a number.
pub open spec fn dec_u64(s: Seq<u8>) -> Parsed<u64> {
    if s.len() >= 8 {
        Some((u64_from_be(s.take(8)), s.skip(8)))
    } else {
        None
    }
}

/// A byte string, as it is written: its length, then its bytes.
pub open spec fn enc_bytes(b: Seq<u8>) -> Seq<u8> {
    enc_u64(b.len() as u64) + b
}

/// Reading a byte string.
pub open spec fn dec_bytes(s: Seq<u8>) -> Parsed<Seq<u8>> {
    match dec_u64(s) {
        Some((n, rest)) => if rest.len() >= n {
            Some((rest.take(n as int), rest.skip(n as int)))
        } else {
            None
        },
        None => None,
    }
}

/// Text, as it is written: its UTF-8 encoding as a byte string.
pub open spec fn enc_str(t: Seq<char>) -> Seq<u8> {
    enc_bytes(encode_utf8(t))
}

/// Reading text: a byte string that is valid UTF-8.
pub open spec fn dec_str(s: Seq<u8>) -> Parsed<Seq<char>> {
    match dec_bytes(s) {
        Some((b, rest)) => if valid_utf8(b) {
            Some((decode_utf8(b), rest))
        } else {
            None
        },
        None => None,
    }
}

/// A byte that was written is read back.
pub proof fn lemma_dec_enc_u8(b: u8, rest: Seq<u8>)
    ensures
        dec_u8(enc_u8(b) + rest) == Some((b, rest)),
{
    assert((enc_u8(b) + rest).skip(1) =~= rest);
}

/// A truth value that was written is read back.
pub proof fn lemma_dec_enc_bool(b: bool, rest: Seq<u8>)
    ensures
        dec_bool(enc_bool(b) + rest) == Some((b, rest)),
{
    assert((enc_bool(b) + rest).skip(1) =~= rest);
}

/// A number that was written is read back.
pub proof fn lemma_dec_enc_u64(v: u64, rest: Seq<u8>)
    ensures
        dec_u64(enc_u64(v) + rest) == Some((v, rest)),
{
    lemma_u64_be_roundtrip(v);
    assert((enc_u64(v) + rest).take(8) =~= u64_be(v));
    assert((enc_u64(v) + rest).skip(8) =~= rest);
}

/// A byte string that was written is read back.
pub proof fn lemma_dec_enc_bytes(b: Seq<u8>, rest: Seq<u8>)
    requires
        b.len() <= u64::MAX,
    ensures
        dec_bytes(enc_bytes(b) + rest) == Some((b, rest)),
{
    lemma_dec_enc_u64(b.len() as u64, b + rest);
    assert(enc_bytes(b) + rest =~= enc_u64(b.len() as u64) + (b + rest));
    assert((b + rest).take(b.len() as int) =~= b);
    assert((b + rest).skip(b.len() as int) =~= rest);
}

/// Text that was written is read back.
pub proof fn lemma_dec_enc_str(t: Seq<char>, rest: Seq<u8>)
    requires
        encode_utf8(t).len() <= u64::MAX,
    ensures
        dec_str(enc_str(t) + rest) == Some((t, rest)),
{
    lemma_dec_enc_bytes(encode_utf8(t), rest);
    vstd::utf8::encode_utf8_valid_utf8(t);
    vstd::utf8::encode_utf8_decode_utf8(t);
}

/// Turns bytes into text if they are valid UTF-8.
///
/// Trusted: wraps `String::from_utf8` of the standard library. The claim is
/// that it accepts exactly the byte strings that are valid UTF-8, and that the
/// text it returns encodes to the bytes it was given.
#[verifier::external_body]
fn string_from_utf8(bytes: Vec<u8>) -> (r: Option<String>)
    ensures
        r is Some <==> valid_utf8(bytes@),
        r matches Some(s) ==> encode_utf8(s@) == bytes@,
{
    String::from_utf8(bytes).ok()
}

/// Reads values from the front of a byte string, one after another.
pub struct Reader<'a> {
    buf: &'a [u8],
    pos: usize,
}

impl<'a> Reader<'a> {
    /// The position is within the bytes.
    pub closed spec fn wf(&self) -> bool {
        self.pos <= self.buf@.len()
    }

    /// The bytes that have not been read.
    pub closed spec fn rest(&self) -> Seq<u8> {
        self.buf@.skip(self.pos as int)
    }

    /// A reader at the front of `buf`.
    pub fn new(buf: &'a [u8]) -> (r: Self)
        ensures
            r.wf(),
            r.rest() == buf@,
    {
        proof {
            assert(buf@.skip(0) =~= buf@);
        }
        Reader { buf, pos: 0 }
    }

    /// Whether every byte has been read.
    pub fn at_end(&self) -> (r: bool)
        requires
            self.wf(),
        ensures
            r == (self.rest().len() == 0),
    {
        self.pos == self.buf.len()
    }

    /// Reads a byte.
    pub fn read_u8(&mut self) -> (r: Option<u8>)
        requires
            old(self).wf(),
        ensures
            final(self).wf(),
            match dec_u8(old(self).rest()) {
                Some((v, rest)) => r == Some(v) && final(self).rest() == rest,
                None => r is None,
            },
    {
        if self.pos < self.buf.len() {
            let v = self.buf[self.pos];
            proof {
                assert(self.buf@.skip(self.pos as int).skip(1) =~= self.buf@.skip(self.pos + 1));
            }
            self.pos += 1;
            Some(v)
        } else {
            None
        }
    }

    /// Reads a truth value.
    pub fn read_bool(&mut self) -> (r: Option<bool>)
        requires
            old(self).wf(),
        ensures
            final(self).wf(),
            match dec_bool(old(self).rest()) {
                Some((v, rest)) => r == Some(v) && final(self).rest() == rest,
                None => r is None,
            },
    {
        match self.read_u8() {
            Some(b) => if b <= 1 {
                Some(b == 1)
            } else {
                None
            },
            None => None,
        }
    }

    /// Reads a number.
    pub fn read_u64(&mut self) -> (r: Option<u64>)
        requires
            old(self).wf(),
        ensures
            final(self).wf(),
            match dec_u64(old(self).rest()) {
                Some((v, rest)) => r == Some(v) && final(self).rest() == rest,
                None => r is None,
            },
    {
        if self.buf.len() - self.pos >= 8 {
            let mut eight: Vec<u8> = Vec::new();
            let len: usize = self.buf.len();
            let mut i: usize = 0;
            while i < 8
                invariant
                    i <= 8,
                    len == self.buf@.len(),
                    self.pos + 8 <= self.buf@.len(),
                    eight@ == self.buf@.subrange(self.pos as int, self.pos + i),
                decreases 8 - i,
            {
                eight.push(self.buf[self.pos + i]);
                proof {
                    assert(eight@ =~= self.buf@.subrange(self.pos as int, self.pos + i + 1));
                }
                i += 1;
            }
            proof {
                assert(eight@ =~= self.buf@.skip(self.pos as int).take(8));
                assert(self.buf@.skip(self.pos as int).skip(8) =~= self.buf@.skip(self.pos + 8));
            }
            let v = u64_from_be_bytes(eight.as_slice());
            self.pos += 8;
            Some(v)
        } else {
            None
        }
    }

    /// Reads a byte string.
    pub fn read_bytes(&mut self) -> (r: Option<Vec<u8>>)
        requires
            old(self).wf(),
        ensures
            final(self).wf(),
            match dec_bytes(old(self).rest()) {
                Some((v, rest)) => r matches Some(b) && b@ == v && final(self).rest() == rest,
                None => r is None,
            },
    {
        let n = match self.read_u64() {
            Some(n) => n,
            None => {
                return None;
            },
        };
        if n > (self.buf.len() - self.pos) as u64 {
            return None;
        }
        let ghost start = self.pos;
        let ghost rest = self.rest();
        let count: usize = n as usize;
        let mut out: Vec<u8> = Vec::new();
        let len: usize = self.buf.len();
        let mut i: usize = 0;
        while i < count
            invariant
                i <= count,
                len == self.buf@.len(),
                self.pos == start,
                self.pos + count <= self.buf@.len(),
                out@ == self.buf@.subrange(self.pos as int, self.pos + i),
            decreases count - i,
        {
            out.push(self.buf[self.pos + i]);
            proof {
                assert(out@ =~= self.buf@.subrange(self.pos as int, self.pos + i + 1));
            }
            i += 1;
        }
        proof {
            assert(out@ =~= rest.take(n as int));
            assert(rest.skip(n as int) =~= self.buf@.skip(self.pos + count));
        }
        self.pos += count;
        Some(out)
    }

    /// Reads text.
    pub fn read_str(&mut self) -> (r: Option<String>)
        requires
            old(self).wf(),
        ensures
            final(self).wf(),
            match dec_str(old(self).rest()) {
                Some((v, rest)) => r matches Some(t) && t@ == v && final(self).rest() == rest,
                None => r is None,
            },
    {
        let bytes = match self.read_bytes() {
            Some(b) => b,
            None => {
                return None;
            },
        };
        let ghost b = bytes@;
        match string_from_utf8(bytes) {
            Some(t) => {
                proof {
                    vstd::utf8::encode_utf8_decode_utf8(t@);
                }
                Some(t)
            },
            None => None,
        }
    }
}

/// Appends a byte as it is written.
pub fn put_u8(out: &mut Vec<u8>, b: u8)
    ensures
        final(out)@ == old(out)@ + enc_u8(b),
{
    out.push(b);
    proof {
        assert(out@ =~= old(out)@ + enc_u8(b));
    }
}

/// Appends a truth value as it is written.
pub fn put_bool(out: &mut Vec<u8>, b: bool)
    ensures
        final(out)@ == old(out)@ + enc_bool(b),
{
    out.push(if b { 1 } else { 0 });
    proof {
        assert(out@ =~= old(out)@ + enc_bool(b));
    }
}

/// Appends a number as it is written.
pub fn put_u64(out: &mut Vec<u8>, v: u64)
    ensures
        final(out)@ == old(out)@ + enc_u64(v),
{
    let mut eight = u64_to_be_bytes(v);
    out.append(&mut eight);
}

/// Appends bytes as they are.
pub fn put_raw(out: &mut Vec<u8>, b: &[u8])
    ensures
        final(out)@ == old(out)@ + b@,
{
    let mut i: usize = 0;
    while i < b.len()
        invariant
            i <= b.len(),
            out@ == old(out)@ + b@.subrange(0, i as int),
        decreases b.len() - i,
    {
        out.push(b[i]);
        proof {
            assert(out@ =~= old(out)@ + b@.subrange(0, i + 1));
        }
        i += 1;
    }
    proof {
        assert(b@.subrange(0, i as int) =~= b@);
    }
}

/// Appends a byte string as it is written.
pub fn put_bytes(out: &mut Vec<u8>, b: &[u8])
    ensures
        final(out)@ == old(out)@ + enc_bytes(b@),
        b@.len() <= u64::MAX,
{
    put_u64(out, b.len() as u64);
    put_raw(out, b);
    proof {
        assert(out@ =~= old(out)@ + enc_bytes(b@));
    }
}

/// Appends text as it is written.
pub fn put_str(out: &mut Vec<u8>, t: &str)
    ensures
        final(out)@ == old(out)@ + enc_str(t@),
        encode_utf8(t@).len() <= u64::MAX,
{
    put_bytes(out, t.as_bytes());
}

/// A value that can be stored: it has a way to be written as bytes and to be
/// read back from the front of a byte string.
pub trait Codec: Sized + DeepView {
    /// The bytes that stand for a value.
    spec fn enc(v: Self::V) -> Seq<u8>;

    /// Reading a value from the front of a byte string.
    spec fn dec(s: Seq<u8>) -> Parsed<Self::V>;

    /// Every length inside the value can be written as a number.
    spec fn fits(v: Self::V) -> bool;

    /// A value that was written is read back, whatever follows it.
    proof fn lemma_roundtrip(v: Self::V, rest: Seq<u8>)
        requires
            Self::fits(v),
        ensures
            Self::dec(Self::enc(v) + rest) == Some((v, rest)),
    ;

    /// Appends the value as it is written.
    fn put(&self, out: &mut Vec<u8>)
        ensures
            final(out)@ == old(out)@ + Self::enc(self.deep_view()),
            Self::fits(self.deep_view()),
    ;

    /// Reads a value.
    fn read(r: &mut Reader) -> (res: Option<Self>)
        requires
            old(r).wf(),
        ensures
            final(r).wf(),
            match Self::dec(old(r).rest()) {
                Some((v, rest)) => res matches Some(x) && x.deep_view() == v && final(r).rest()
                    == rest,
                None => res is None,
            },
    ;
}

impl Codec for u64 {
    open spec fn enc(v: u64) -> Seq<u8> {
        enc_u64(v)
    }

    open spec fn dec(s: Seq<u8>) -> Parsed<u64> {
        dec_u64(s)
    }

    open spec fn fits(v: u64) -> bool {
        true
    }

    proof fn lemma_roundtrip(v: u64, rest: Seq<u8>) {
        lemma_dec_enc_u64(v, rest);
    }

    fn put(&self, out: &mut Vec<u8>) {
        put_u64(out, *self);
    }

    fn read(r: &mut Reader) -> (res: Option<u64>) {
        r.read_u64()
    }
}

/// The items of a list, as they are written: one after another.
pub open spec fn enc_items<T: Codec>(items: Seq<T::V>) -> Seq<u8>
    decreases items.len(),
{
    if items.len() == 0 {
        Seq::empty()
    } else {
        T::enc(items[0]) + enc_items::<T>(items.drop_first())
    }
}

/// A list, as it is written: the number of its items, then the items.
pub open spec fn enc_list<T: Codec>(items: Seq<T::V>) -> Seq<u8> {
    enc_u64(items.len() as u64) + enc_items::<T>(items)
}

/// Reading `n` items.
pub open spec fn dec_items<T: Codec>(s: Seq<u8>, n: nat) -> Parsed<Seq<T::V>>
    decreases n,
{
    if n == 0 {
        Some((Seq::empty(), s))
    } else {
        match T::dec(s) {
            Some((v, r1)) => match dec_items::<T>(r1, (n - 1) as nat) {
                Some((vs, r2)) => Some((seq![v] + vs, r2)),
                None => None,
            },
            None => None,
        }
    }
}

/// Reading a list.
pub open spec fn dec_list<T: Codec>(s: Seq<u8>) -> Parsed<Seq<T::V>> {
    match dec_u64(s) {
        Some((n, r1)) => dec_items::<T>(r1, n as nat),
        None => None,
    }
}

/// The list is not too long and each of its items can be written.
pub open spec fn list_fits<T: Codec>(items: Seq<T::V>) -> bool {
    &&& items.len() <= u64::MAX
    &&& forall|i: int| 0 <= i < items.len() ==> T::fits(#[trigger] items[i])
}

/// Items that were written are read back.
pub proof fn lemma_dec_enc_items<T: Codec>(items: Seq<T::V>, rest: Seq<u8>)
    requires
        forall|i: int| 0 <= i < items.len() ==> T::fits(#[trigger] items[i]),
    ensures
        dec_items::<T>(enc_items::<T>(items) + rest, items.len()) == Some((items, rest)),
    decreases items.len(),
{
    if items.len() == 0 {
        assert(enc_items::<T>(items) + rest =~= rest);
        assert(items =~= Seq::<T::V>::empty());
    } else {
        let tail = items.drop_first();
        assert(enc_items::<T>(items) + rest =~= T::enc(items[0]) + (enc_items::<T>(tail) + rest));
        assert(T::fits(items[0]));
        T::lemma_roundtrip(items[0], enc_items::<T>(tail) + rest);
        assert forall|i: int| 0 <= i < tail.len() implies T::fits(#[trigger] tail[i]) by {
            assert(tail[i] == items[i + 1]);
        }
        lemma_dec_enc_items::<T>(tail, rest);
        assert(seq![items[0]] + tail =~= items);
    }
}

/// A list that was written is read back.
pub proof fn lemma_dec_enc_list<T: Codec>(items: Seq<T::V>, rest: Seq<u8>)
    requires
        list_fits::<T>(items),
    ensures
        dec_list::<T>(enc_list::<T>(items) + rest) == Some((items, rest)),
{
    assert(enc_list::<T>(items) + rest =~= enc_u64(items.len() as u64) + (enc_items::<T>(items)
        + rest));
    lemma_dec_enc_u64(items.len() as u64, enc_items::<T>(items) + rest);
    lemma_dec_enc_items::<T>(items, rest);
}

/// Appends a list as it is written.
pub fn put_list<T: Codec>(out: &mut Vec<u8>, items: &Vec<T>)
    ensures
        final(out)@ == old(out)@ + enc_list::<T>(items.deep_view()),
        list_fits::<T>(items.deep_view()),
{
    put_u64(out, items.len() as u64);
    let ghost all = items.deep_view();
    let ghost head = out@;
    proof {
        assert(all.skip(0) =~= all);
    }
    let mut i: usize = 0;
    while i < items.len()
        invariant
            i <= items.len(),
            all == items.deep_view(),
            head + enc_items::<T>(all) == out@ + enc_items::<T>(all.skip(i as int)),
            forall|j: int| 0 <= j < i ==> T::fits(#[trigger] all[j]),
        decreases items.len() - i,
    {
        let ghost before = out@;
        items[i].put(out);
        proof {
            let cur = all.skip(i as int);
            assert(cur[0] == items@[i as int].deep_view());
            assert(cur.drop_first() =~= all.skip(i + 1));
            assert(before + enc_items::<T>(cur) =~= out@ + enc_items::<T>(all.skip(i + 1)));
        }
        i += 1;
    }
    proof {
        assert(all.skip(i as int) =~= Seq::<T::V>::empty());
        assert(out@ =~= head + enc_items::<T>(all));
        assert(out@ =~= old(out)@ + enc_list::<T>(all));
    }
}

/// Reads a list.
pub fn read_list<T: Codec>(r: &mut Reader) -> (res: Option<Vec<T>>)
    requires
        old(r).wf(),
    ensures
        final(r).wf(),
        match dec_list::<T>(old(r).rest()) {
            Some((v, rest)) => res matches Some(x) && x.deep_view() == v && final(r).rest() == rest,
            None => res is None,
        },
{
    let n = r.read_u64()?;
    let ghost s0 = r.rest();
    let mut out: Vec<T> = Vec::new();
    proof {
        assert(out.deep_view() =~= Seq::<T::V>::empty());
        match dec_items::<T>(s0, n as nat) {
            Some((tail, rr)) => {
                assert(out.deep_view() + tail =~= tail);
            },
            None => {},
        }
    }
    let mut i: u64 = 0;
    while i < n
        invariant
            r.wf(),
            i <= n,
            dec_u64(old(r).rest()) == Some((n, s0)),
            dec_items::<T>(s0, n as nat) == match dec_items::<T>(r.rest(), (n - i) as nat) {
                Some((tail, rr)) => Some((out.deep_view() + tail, rr)),
                None => None,
            },
        decreases n - i,
    {
        let ghost before = out.deep_view();
        let ghost cur = r.rest();
        match T::read(r) {
            Some(v) => {
                out.push(v);
                proof {
                    assert(out.deep_view() =~= before.push(v.deep_view()));
                    match dec_items::<T>(r.rest(), (n - i - 1) as nat) {
                        Some((tail, rr)) => {
                            assert(before + (seq![v.deep_view()] + tail) =~= out.deep_view()
                                + tail);
                        },
                        None => {},
                    }
                }
            },
            None => {
                proof {
                    assert(dec_items::<T>(cur, (n - i) as nat) is None);
                }
                return None;
            },
        }
        i += 1;
    }
    proof {
        assert(out.deep_view() + Seq::<T::V>::empty() =~= out.deep_view());
    }
    Some(out)
}

/// A value that may be absent, as it is written: 0, or 1 and the value.
pub open spec fn enc_opt<T: Codec>(v: Option<T::V>) -> Seq<u8> {
    match v {
        None => enc_u8(0),
        Some(x) => enc_u8(1) + T::enc(x),
    }
}

/// Reading a value that may be absent.
pub open spec fn dec_opt<T: Codec>(s: Seq<u8>) -> Parsed<Option<T::V>> {
    match dec_u8(s) {
        Some((tag, r1)) => if tag == 0 {
            Some((None, r1))
        } else if tag == 1 {
            match T::dec(r1) {
                Some((x, r2)) => Some((Some(x), r2)),
                None => None,
            }
        } else {
            None
        },
        None => None,
    }
}

/// The value, if there is one, can be written.
pub open spec fn opt_fits<T: Codec>(v: Option<T::V>) -> bool {
    v matches Some(x) ==> T::fits(x)
}

/// A value that may be absent and was written is read back.
pub proof fn lemma_dec_enc_opt<T: Codec>(v: Option<T::V>, rest: Seq<u8>)
    requires
        opt_fits::<T>(v),
    ensures
        dec_opt::<T>(enc_opt::<T>(v) + rest) == Some((v, rest)),
{
    match v {
        None => {
            lemma_dec_enc_u8(0, rest);
        },
        Some(x) => {
            assert(enc_opt::<T>(v) + rest =~= enc_u8(1) + (T::enc(x) + rest));
            lemma_dec_enc_u8(1, T::enc(x) + rest);
            T::lemma_roundtrip(x, rest);
        },
    }
}

/// Appends a value that may be absent as it is written.
pub fn put_opt<T: Codec>(out: &mut Vec<u8>, v: &Option<T>)
    ensures
        final(out)@ == old(out)@ + enc_opt::<T>(v.deep_view()),
        opt_fits::<T>(v.deep_view()),
{
    match v {
        None => {
            put_u8(out, 0);
        },
        Some(x) => {
            put_u8(out, 1);
            x.put(out);
            proof {
                assert(out@ =~= old(out)@ + enc_opt::<T>(v.deep_view()));
            }
        },
    }
}

/// Reads a value that may be absent.
pub fn read_opt<T: Codec>(r: &mut Reader) -> (res: Option<Option<T>>)
    requires
        old(r).wf(),
    ensures
        final(r).wf(),
        match dec_opt::<T>(old(r).rest()) {
            Some((v, rest)) => res matches Some(x) && x.deep_view() == v && final(r).rest() == rest,
            None => res is None,
        },
{
    let tag = r.read_u8()?;
    if tag == 0 {
        Some(None)
    } else if tag == 1 {
        let x = T::read(r)?;
        Some(Some(x))
    } else {
        None
    }
}

} // verus!
