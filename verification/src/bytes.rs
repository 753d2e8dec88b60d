//! Byte strings: their lexicographic order and the fixed-width big-endian
//! encoding of `u64`.

use vstd::prelude::*;

verus! {

/// The outcome of comparing two byte strings.
#[derive(Debug, Clone, Copy, PartialEq, Eq, Structural)]
pub enum Order {
    Less,
    Equal,
    Greater,
}

/// `a` and `b` agree on their first `k` bytes.
pub open spec fn agree_upto(a: Seq<u8>, b: Seq<u8>, k: int) -> bool {
    &&& 0 <= k <= a.len()
    &&& k <= b.len()
    &&& forall|j: int| 0 <= j < k ==> a[j] == b[j]
}

/// `k` is a position at which `a` is seen to be smaller than `b`: the two
/// agree before `k`, and there `a` ends or holds the smaller byte.
pub open spec fn lt_at(a: Seq<u8>, b: Seq<u8>, k: int) -> bool {
    &&& agree_upto(a, b, k)
    &&& k < b.len()
    &&& (k == a.len() || a[k] < b[k])
}

/// Strict lexicographic order on byte strings.
pub open spec fn bytes_lt(a: Seq<u8>, b: Seq<u8>) -> bool {
    exists|k: int| lt_at(a, b, k)
}

/// No byte string is smaller than itself.
pub proof fn lemma_lt_irreflexive(a: Seq<u8>)
    ensures
        !bytes_lt(a, a),
{
}

/// The order is transitive.
pub proof fn lemma_lt_transitive(a: Seq<u8>, b: Seq<u8>, c: Seq<u8>)
    requires
        bytes_lt(a, b),
        bytes_lt(b, c),
    ensures
        bytes_lt(a, c),
{
    let k1 = choose|k: int| lt_at(a, b, k);
    let k2 = choose|k: int| lt_at(b, c, k);
    let k = if k1 <= k2 { k1 } else { k2 };
    assert(lt_at(a, c, k));
}

/// Two byte strings cannot each be smaller than the other.
pub proof fn lemma_lt_asymmetric(a: Seq<u8>, b: Seq<u8>)
    requires
        bytes_lt(a, b),
    ensures
        !bytes_lt(b, a),
        a != b,
{
    if bytes_lt(b, a) {
        lemma_lt_transitive(a, b, a);
    }
}

/// Two byte strings that agree on their first `i` bytes are equal, or one of
/// them is smaller than the other.
proof fn lemma_from_agreement(a: Seq<u8>, b: Seq<u8>, i: int)
    requires
        agree_upto(a, b, i),
    ensures
        bytes_lt(a, b) || a == b || bytes_lt(b, a),
    decreases a.len() - i,
{
    if i == a.len() && i == b.len() {
        assert(a =~= b);
    } else if i == a.len() {
        assert(lt_at(a, b, i));
    } else if i == b.len() {
        assert(agree_upto(b, a, i));
        assert(lt_at(b, a, i));
    } else if a[i] < b[i] {
        assert(lt_at(a, b, i));
    } else if b[i] < a[i] {
        assert(agree_upto(b, a, i));
        assert(lt_at(b, a, i));
    } else {
        lemma_from_agreement(a, b, i + 1);
    }
}

/// The order is total: of two different byte strings one is the smaller.
pub proof fn lemma_lt_total(a: Seq<u8>, b: Seq<u8>)
    ensures
        bytes_lt(a, b) || a == b || bytes_lt(b, a),
{
    lemma_from_agreement(a, b, 0);
}

/// Compares two byte strings lexicographically.
pub fn compare_bytes(a: &[u8], b: &[u8]) -> (r: Order)
    ensures
        r == Order::Less <==> bytes_lt(a@, b@),
        r == Order::Equal <==> a@ == b@,
        r == Order::Greater <==> bytes_lt(b@, a@),
{
    let mut i: usize = 0;
    while i < a.len() && i < b.len()
        invariant
            agree_upto(a@, b@, i as int),
        decreases a.len() - i,
    {
        if a[i] < b[i] {
            proof {
                assert(lt_at(a@, b@, i as int));
                lemma_lt_asymmetric(a@, b@);
            }
            return Order::Less;
        }
        if a[i] > b[i] {
            proof {
                assert(agree_upto(b@, a@, i as int));
                assert(lt_at(b@, a@, i as int));
                lemma_lt_asymmetric(b@, a@);
            }
            return Order::Greater;
        }
        i += 1;
    }
    if i < b.len() {
        proof {
            assert(lt_at(a@, b@, i as int));
            lemma_lt_asymmetric(a@, b@);
        }
        Order::Less
    } else if i < a.len() {
        proof {
            assert(agree_upto(b@, a@, i as int));
            assert(lt_at(b@, a@, i as int));
            lemma_lt_asymmetric(b@, a@);
        }
        Order::Greater
    } else {
        proof {
            assert(a@ =~= b@);
            lemma_lt_irreflexive(a@);
        }
        Order::Equal
    }
}

/// Copies a byte string.
pub fn clone_bytes(a: &[u8]) -> (r: Vec<u8>)
    ensures
        r@ == a@,
{
    let mut r: Vec<u8> = Vec::new();
    let mut i: usize = 0;
    while i < a.len()
        invariant
            i <= a.len(),
            r@ == a@.subrange(0, i as int),
        decreases a.len() - i,
    {
        r.push(a[i]);
        proof {
            assert(r@ =~= a@.subrange(0, i + 1));
        }
        i += 1;
    }
    proof {
        assert(r@ =~= a@);
    }
    r
}

/// The eight bytes of `x`, most significant first.
pub open spec fn u64_be(x: u64) -> Seq<u8> {
    seq![
        (x >> 56) as u8,
        (x >> 48) as u8,
        (x >> 40) as u8,
        (x >> 32) as u8,
        (x >> 24) as u8,
        (x >> 16) as u8,
        (x >> 8) as u8,
        x as u8,
    ]
}

/// The number whose eight bytes, most significant first, are `s`.
pub open spec fn u64_from_be(s: Seq<u8>) -> u64
    recommends
        s.len() == 8,
{
    (s[0] as u64) << 56 | (s[1] as u64) << 48 | (s[2] as u64) << 40 | (s[3] as u64) << 32 | (
    s[4] as u64) << 24 | (s[5] as u64) << 16 | (s[6] as u64) << 8 | (s[7] as u64)
}

/// Decoding the bytes of a number gives the number back.
pub proof fn lemma_u64_be_roundtrip(x: u64)
    ensures
        u64_be(x).len() == 8,
        u64_from_be(u64_be(x)) == x,
{
    assert(((x >> 56) as u8 as u64) << 56 | ((x >> 48) as u8 as u64) << 48 | ((x >> 40) as u8
        as u64) << 40 | ((x >> 32) as u8 as u64) << 32 | ((x >> 24) as u8 as u64) << 24 | ((x
        >> 16) as u8 as u64) << 16 | ((x >> 8) as u8 as u64) << 8 | (x as u8 as u64) == x)
        by (bit_vector);
}

/// Encoding the number that eight bytes stand for gives the bytes back.
pub proof fn lemma_u64_from_be_roundtrip(s: Seq<u8>)
    requires
        s.len() == 8,
    ensures
        u64_be(u64_from_be(s)) == s,
{
    let (a, b, c, d, e, f, g, h) = (s[0], s[1], s[2], s[3], s[4], s[5], s[6], s[7]);
    let x = u64_from_be(s);
    assert(x == (a as u64) << 56 | (b as u64) << 48 | (c as u64) << 40 | (d as u64) << 32 | (
    e as u64) << 24 | (f as u64) << 16 | (g as u64) << 8 | (h as u64));
    assert((x >> 56) as u8 == a && (x >> 48) as u8 == b && (x >> 40) as u8 == c && (x >> 32) as u8
        == d && (x >> 24) as u8 == e && (x >> 16) as u8 == f && (x >> 8) as u8 == g && x as u8
        == h) by (bit_vector)
        requires
            x == (a as u64) << 56 | (b as u64) << 48 | (c as u64) << 40 | (d as u64) << 32 | (
            e as u64) << 24 | (f as u64) << 16 | (g as u64) << 8 | (h as u64),
    ;
    assert(u64_be(x) =~= s);
}

/// Encodes `x` as eight bytes, most significant first.
pub fn u64_to_be_bytes(x: u64) -> (r: Vec<u8>)
    ensures
        r@ == u64_be(x),
{
    let mut r: Vec<u8> = Vec::new();
    r.push(#[verifier::truncate] ((x >> 56) as u8));
    r.push(#[verifier::truncate] ((x >> 48) as u8));
    r.push(#[verifier::truncate] ((x >> 40) as u8));
    r.push(#[verifier::truncate] ((x >> 32) as u8));
    r.push(#[verifier::truncate] ((x >> 24) as u8));
    r.push(#[verifier::truncate] ((x >> 16) as u8));
    r.push(#[verifier::truncate] ((x >> 8) as u8));
    r.push(#[verifier::truncate] (x as u8));
    proof {
        assert(r@ =~= u64_be(x));
    }
    r
}

/// Decodes eight bytes, most significant first.
pub fn u64_from_be_bytes(s: &[u8]) -> (x: u64)
    requires
        s@.len() == 8,
    ensures
        x == u64_from_be(s@),
{
    (s[0] as u64) << 56 | (s[1] as u64) << 48 | (s[2] as u64) << 40 | (s[3] as u64) << 32 | (
    s[4] as u64) << 24 | (s[5] as u64) << 16 | (s[6] as u64) << 8 | (s[7] as u64)
}

/// The bytes of numbers are ordered as the numbers are.
pub proof fn lemma_u64_be_order(a: u64, b: u64)
    ensures
        bytes_lt(u64_be(a), u64_be(b)) <==> a < b,
{
    let x = u64_be(a);
    let y = u64_be(b);
    assert(a < b <==> {
        ||| ((a >> 56) as u8) < ((b >> 56) as u8)
        ||| ((a >> 56) as u8) == ((b >> 56) as u8) && ((a >> 48) as u8) < ((b >> 48) as u8)
        ||| ((a >> 56) as u8) == ((b >> 56) as u8) && ((a >> 48) as u8) == ((b >> 48) as u8) && ((a >> 40) as u8) < ((b >> 40) as u8)
        ||| ((a >> 56) as u8) == ((b >> 56) as u8) && ((a >> 48) as u8) == ((b >> 48) as u8) && ((a >> 40) as u8) == ((b >> 40) as u8) && ((a >> 32) as u8) < ((b >> 32) as u8)
        ||| ((a >> 56) as u8) == ((b >> 56) as u8) && ((a >> 48) as u8) == ((b >> 48) as u8) && ((a >> 40) as u8) == ((b >> 40) as u8) && ((a >> 32) as u8) == ((b >> 32) as u8) && ((a >> 24) as u8) < ((b >> 24) as u8)
        ||| ((a >> 56) as u8) == ((b >> 56) as u8) && ((a >> 48) as u8) == ((b >> 48) as u8) && ((a >> 40) as u8) == ((b >> 40) as u8) && ((a >> 32) as u8) == ((b >> 32) as u8) && ((a >> 24) as u8) == ((b >> 24) as u8) && ((a >> 16) as u8) < ((b >> 16) as u8)
        ||| ((a >> 56) as u8) == ((b >> 56) as u8) && ((a >> 48) as u8) == ((b >> 48) as u8) && ((a >> 40) as u8) == ((b >> 40) as u8) && ((a >> 32) as u8) == ((b >> 32) as u8) && ((a >> 24) as u8) == ((b >> 24) as u8) && ((a >> 16) as u8) == ((b >> 16) as u8) && ((a >> 8) as u8) < ((b >> 8) as u8)
        ||| ((a >> 56) as u8) == ((b >> 56) as u8) && ((a >> 48) as u8) == ((b >> 48) as u8) && ((a >> 40) as u8) == ((b >> 40) as u8) && ((a >> 32) as u8) == ((b >> 32) as u8) && ((a >> 24) as u8) == ((b >> 24) as u8) && ((a >> 16) as u8) == ((b >> 16) as u8) && ((a >> 8) as u8) == ((b >> 8) as u8) && (a as u8) < (b as u8)
    }) by (bit_vector);
    if a < b {
        let k: int = if x[0] != y[0] {
            0
        } else if x[1] != y[1] {
            1
        } else if x[2] != y[2] {
            2
        } else if x[3] != y[3] {
            3
        } else if x[4] != y[4] {
            4
        } else if x[5] != y[5] {
            5
        } else if x[6] != y[6] {
            6
        } else {
            7
        };
        assert(lt_at(x, y, k));
    }
    if bytes_lt(x, y) {
        let k = choose|k: int| lt_at(x, y, k);
        assert(0 <= k < 8);
        assert(forall|j: int| 0 <= j < k ==> x[j] == y[j]);
        assert(x[k] < y[k]);
        if k >= 1 {
            assert(x[0] == y[0]);
        }
        if k >= 2 {
            assert(x[1] == y[1]);
        }
        if k >= 3 {
            assert(x[2] == y[2]);
        }
        if k >= 4 {
            assert(x[3] == y[3]);
        }
        if k >= 5 {
            assert(x[4] == y[4]);
        }
        if k >= 6 {
            assert(x[5] == y[5]);
        }
        if k >= 7 {
            assert(x[6] == y[6]);
        }
    }
}

} // verus!
