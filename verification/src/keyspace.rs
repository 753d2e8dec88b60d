//! An ordered keyspace: byte-string keys, each bound to one value, kept sorted by
//! key so that a walk over it always yields the same sequence.

use vstd::prelude::*;
use crate::bytes::{
    bytes_lt, compare_bytes, lemma_lt_asymmetric, lemma_lt_total, lemma_lt_transitive, Order,
};

verus! {

/// The keys of `s` are strictly increasing.
pub open spec fn sorted<T>(s: Seq<(Seq<u8>, T)>) -> bool {
    forall|i: int, j: int| 0 <= i < j < s.len() ==> bytes_lt((#[trigger] s[i]).0, (#[trigger] s[j]).0)
}

/// Some pair of `s` has the key `k`.
pub open spec fn has_key<T>(s: Seq<(Seq<u8>, T)>, k: Seq<u8>) -> bool {
    exists|i: int| 0 <= i < s.len() && (#[trigger] s[i]).0 == k
}

/// A position of `s` that holds the key `k`.
pub open spec fn index_of<T>(s: Seq<(Seq<u8>, T)>, k: Seq<u8>) -> int {
    choose|i: int| 0 <= i < s.len() && (#[trigger] s[i]).0 == k
}

/// The mapping that a sequence of pairs stands for.
pub open spec fn to_map<T>(s: Seq<(Seq<u8>, T)>) -> Map<Seq<u8>, T> {
    Map::new(|k: Seq<u8>| has_key(s, k), |k: Seq<u8>| s[index_of(s, k)].1)
}

/// Every key before position `p` is smaller than `k`, every key from `p` on is larger.
pub open spec fn splits_at<T>(s: Seq<(Seq<u8>, T)>, k: Seq<u8>, p: int) -> bool {
    &&& 0 <= p <= s.len()
    &&& forall|i: int| 0 <= i < p ==> bytes_lt((#[trigger] s[i]).0, k)
    &&& forall|i: int| p <= i < s.len() ==> bytes_lt(k, (#[trigger] s[i]).0)
}

/// In a sorted sequence a key stands at one position only.
pub proof fn lemma_unique_index<T>(s: Seq<(Seq<u8>, T)>, i: int, j: int)
    requires
        sorted(s),
        0 <= i < s.len(),
        0 <= j < s.len(),
        s[i].0 == s[j].0,
    ensures
        i == j,
{
    if i < j {
        lemma_lt_asymmetric(s[i].0, s[j].0);
    } else if j < i {
        lemma_lt_asymmetric(s[j].0, s[i].0);
    }
}

/// The mapping of a sorted sequence binds each of its keys to the value beside it.
pub proof fn lemma_map_at<T>(s: Seq<(Seq<u8>, T)>, i: int)
    requires
        sorted(s),
        0 <= i < s.len(),
    ensures
        has_key(s, s[i].0),
        to_map(s).contains_key(s[i].0),
        to_map(s)[s[i].0] == s[i].1,
{
    lemma_unique_index(s, i, index_of(s, s[i].0));
}

/// A key that splits the sequence is not among its keys.
pub proof fn lemma_split_absent<T>(s: Seq<(Seq<u8>, T)>, k: Seq<u8>, p: int)
    requires
        splits_at(s, k, p),
    ensures
        !has_key(s, k),
        !to_map(s).contains_key(k),
{
    if has_key(s, k) {
        let i = index_of(s, k);
        if i < p {
            lemma_lt_asymmetric(s[i].0, k);
        } else {
            lemma_lt_asymmetric(k, s[i].0);
        }
    }
}

/// Putting a new key at the position where it splits the sequence keeps the
/// sequence sorted and adds one binding to its mapping.
pub proof fn lemma_insert_new<T>(s: Seq<(Seq<u8>, T)>, k: Seq<u8>, v: T, p: int)
    requires
        sorted(s),
        splits_at(s, k, p),
    ensures
        sorted(s.insert(p, (k, v))),
        to_map(s.insert(p, (k, v))) == to_map(s).insert(k, v),
{
    let t = s.insert(p, (k, v));
    assert forall|i: int, j: int| 0 <= i < j < t.len() implies bytes_lt(
        (#[trigger] t[i]).0,
        (#[trigger] t[j]).0,
    ) by {
        if j < p {
            assert(t[i] == s[i] && t[j] == s[j]);
        } else if j == p {
            assert(t[i] == s[i]);
        } else if i < p {
            assert(t[i] == s[i] && t[j] == s[j - 1]);
            if j - 1 == i {
            } else {
                assert(bytes_lt(s[i].0, s[j - 1].0));
            }
            lemma_lt_transitive(s[i].0, k, s[j - 1].0);
        } else if i == p {
            assert(t[j] == s[j - 1]);
        } else {
            assert(t[i] == s[i - 1] && t[j] == s[j - 1]);
        }
    }
    lemma_split_absent(s, k, p);
    lemma_map_at(t, p);
    assert forall|q: Seq<u8>| to_map(t).contains_key(q) == to_map(s).insert(k, v).contains_key(
        q,
    ) by {
        if has_key(t, q) {
            let i = index_of(t, q);
            if i < p {
                assert(s[i].0 == q);
            } else if i > p {
                assert(s[i - 1].0 == q);
            }
        }
        if has_key(s, q) {
            let i = index_of(s, q);
            if i < p {
                assert(t[i].0 == q);
            } else {
                assert(t[i + 1].0 == q);
            }
        }
        if q == k {
            assert(t[p].0 == q);
        }
    }
    assert forall|q: Seq<u8>| to_map(t).contains_key(q) implies to_map(t)[q] == to_map(s).insert(
        k,
        v,
    )[q] by {
        let i = index_of(t, q);
        lemma_map_at(t, i);
        if i < p {
            lemma_map_at(s, i);
        } else if i > p {
            lemma_map_at(s, i - 1);
        }
    }
    assert(to_map(t) =~= to_map(s).insert(k, v));
}

/// Replacing the value beside a key keeps the sequence sorted and rebinds that
/// key in its mapping.
pub proof fn lemma_update_at<T>(s: Seq<(Seq<u8>, T)>, p: int, v: T)
    requires
        sorted(s),
        0 <= p < s.len(),
    ensures
        sorted(s.update(p, (s[p].0, v))),
        to_map(s.update(p, (s[p].0, v))) == to_map(s).insert(s[p].0, v),
{
    let k = s[p].0;
    let t = s.update(p, (k, v));
    assert forall|i: int, j: int| 0 <= i < j < t.len() implies bytes_lt(
        (#[trigger] t[i]).0,
        (#[trigger] t[j]).0,
    ) by {
        assert(t[i].0 == s[i].0 && t[j].0 == s[j].0);
    }
    assert forall|q: Seq<u8>| to_map(t).contains_key(q) == to_map(s).insert(k, v).contains_key(
        q,
    ) by {
        if has_key(t, q) {
            let i = index_of(t, q);
            assert(s[i].0 == q);
        }
        if has_key(s, q) {
            let i = index_of(s, q);
            assert(t[i].0 == q);
        }
        if q == k {
            assert(t[p].0 == q);
        }
    }
    assert forall|q: Seq<u8>| to_map(t).contains_key(q) implies to_map(t)[q] == to_map(s).insert(
        k,
        v,
    )[q] by {
        let i = index_of(t, q);
        lemma_map_at(t, i);
        if i != p {
            lemma_map_at(s, i);
        }
    }
    assert(to_map(t) =~= to_map(s).insert(k, v));
}

/// Taking a pair out keeps the sequence sorted and unbinds its key.
pub proof fn lemma_remove_at<T>(s: Seq<(Seq<u8>, T)>, p: int)
    requires
        sorted(s),
        0 <= p < s.len(),
    ensures
        sorted(s.remove(p)),
        to_map(s.remove(p)) == to_map(s).remove(s[p].0),
{
    let k = s[p].0;
    let t = s.remove(p);
    assert forall|i: int, j: int| 0 <= i < j < t.len() implies bytes_lt(
        (#[trigger] t[i]).0,
        (#[trigger] t[j]).0,
    ) by {
        let i0 = if i < p { i } else { i + 1 };
        let j0 = if j < p { j } else { j + 1 };
        assert(t[i] == s[i0] && t[j] == s[j0]);
    }
    assert forall|q: Seq<u8>| to_map(t).contains_key(q) == to_map(s).remove(k).contains_key(
        q,
    ) by {
        if has_key(t, q) {
            let i = index_of(t, q);
            let i0 = if i < p { i } else { i + 1 };
            assert(s[i0].0 == q);
            if q == k {
                lemma_unique_index(s, i0, p);
            }
        }
        if has_key(s, q) && q != k {
            let i = index_of(s, q);
            let i1 = if i < p { i } else { i - 1 };
            assert(t[i1].0 == q);
        }
    }
    assert forall|q: Seq<u8>| to_map(t).contains_key(q) implies to_map(t)[q] == to_map(s).remove(
        k,
    )[q] by {
        let i = index_of(t, q);
        lemma_map_at(t, i);
        let i0 = if i < p { i } else { i + 1 };
        lemma_map_at(s, i0);
    }
    assert(to_map(t) =~= to_map(s).remove(k));
}

/// A sorted sequence is determined by the mapping it stands for.
pub proof fn lemma_canonical<T>(s1: Seq<(Seq<u8>, T)>, s2: Seq<(Seq<u8>, T)>)
    requires
        sorted(s1),
        sorted(s2),
        to_map(s1) == to_map(s2),
    ensures
        s1 == s2,
    decreases s1.len(),
{
    if s1.len() == 0 {
        if s2.len() > 0 {
            lemma_map_at(s2, 0);
            assert(has_key(s1, s2[0].0));
        }
        assert(s1 =~= s2);
    } else {
        lemma_map_at(s1, 0);
        let k1 = s1[0].0;
        assert(has_key(s2, k1));
        let j = index_of(s2, k1);
        lemma_map_at(s2, 0);
        let k2 = s2[0].0;
        assert(has_key(s1, k2));
        let i = index_of(s1, k2);
        if j > 0 {
            assert(bytes_lt(s2[0].0, s2[j].0));
            lemma_lt_asymmetric(k2, k1);
            assert(i > 0);
            assert(bytes_lt(s1[0].0, s1[i].0));
            lemma_lt_asymmetric(k1, k2);
        }
        assert(k1 == k2);
        lemma_remove_at(s1, 0);
        lemma_remove_at(s2, 0);
        lemma_canonical(s1.remove(0), s2.remove(0));
        assert forall|n: int| 0 <= n < s1.len() implies s1[n] == s2[n] by {
            if n > 0 {
                assert(s1[n] == s1.remove(0)[n - 1]);
                assert(s2[n] == s2.remove(0)[n - 1]);
            }
        }
        assert(s1.len() == s1.remove(0).len() + 1);
        assert(s2.len() == s2.remove(0).len() + 1);
        assert(s1 =~= s2);
    }
}

/// A prefix of a sorted sequence is sorted, and one pair more adds one binding
/// to its mapping.
pub proof fn lemma_take_step<T>(s: Seq<(Seq<u8>, T)>, i: int)
    requires
        sorted(s),
        0 <= i < s.len(),
    ensures
        sorted(s.take(i)),
        to_map(s.take(i + 1)) == to_map(s.take(i)).insert(s[i].0, s[i].1),
{
    let front = s.take(i);
    assert forall|a: int, b: int| 0 <= a < b < front.len() implies bytes_lt(
        (#[trigger] front[a]).0,
        (#[trigger] front[b]).0,
    ) by {
        assert(front[a] == s[a] && front[b] == s[b]);
    }
    assert forall|a: int| 0 <= a < i implies bytes_lt((#[trigger] front[a]).0, s[i].0) by {
        assert(front[a] == s[a]);
    }
    assert(splits_at(front, s[i].0, i));
    lemma_insert_new(front, s[i].0, s[i].1, i);
    assert(s.take(i + 1) =~= front.insert(i, (s[i].0, s[i].1)));
}

/// A mapping has finitely many keys: some sorted sequence of pairs stands for it.
pub open spec fn representable<T>(m: Map<Seq<u8>, T>) -> bool {
    exists|s: Seq<(Seq<u8>, T)>| sorted(s) && to_map(s) == m
}

/// A key that is not in a sorted sequence has a place in it: a position
/// from `i` on at which it splits the sequence.
proof fn lemma_find_split<T>(s: Seq<(Seq<u8>, T)>, k: Seq<u8>, i: int) -> (p: int)
    requires
        sorted(s),
        !has_key(s, k),
        0 <= i <= s.len(),
        forall|j: int| 0 <= j < i ==> bytes_lt((#[trigger] s[j]).0, k),
    ensures
        splits_at(s, k, p),
    decreases s.len() - i,
{
    if i == s.len() {
        i
    } else {
        lemma_lt_total(s[i].0, k);
        if bytes_lt(s[i].0, k) {
            lemma_find_split(s, k, i + 1)
        } else {
            assert(bytes_lt(k, s[i].0));
            assert forall|j: int| i <= j < s.len() implies bytes_lt(k, (#[trigger] s[j]).0) by {
                if i < j {
                    assert(bytes_lt(s[i].0, s[j].0));
                    lemma_lt_transitive(k, s[i].0, s[j].0);
                }
            }
            i
        }
    }
}

/// A mapping with finitely many keys has finitely many after a key was bound.
pub proof fn lemma_representable_insert<T>(m: Map<Seq<u8>, T>, k: Seq<u8>, v: T)
    requires
        representable(m),
    ensures
        representable(m.insert(k, v)),
{
    let s = choose|s: Seq<(Seq<u8>, T)>| sorted(s) && to_map(s) == m;
    if has_key(s, k) {
        let i = index_of(s, k);
        lemma_update_at(s, i, v);
        let t = s.update(i, (s[i].0, v));
        assert(sorted(t) && to_map(t) == m.insert(k, v));
    } else {
        let p = lemma_find_split(s, k, 0);
        lemma_insert_new(s, k, v, p);
        let t = s.insert(p, (k, v));
        assert(sorted(t) && to_map(t) == m.insert(k, v));
    }
}

/// A mapping with finitely many keys has finitely many after a key was unbound.
pub proof fn lemma_representable_remove<T>(m: Map<Seq<u8>, T>, k: Seq<u8>)
    requires
        representable(m),
    ensures
        representable(m.remove(k)),
{
    let s = choose|s: Seq<(Seq<u8>, T)>| sorted(s) && to_map(s) == m;
    if has_key(s, k) {
        let i = index_of(s, k);
        lemma_remove_at(s, i);
        let t = s.remove(i);
        assert(sorted(t) && to_map(t) == m.remove(k));
    } else {
        assert(m.remove(k) =~= m);
    }
}

/// The mapping without keys has finitely many.
pub proof fn lemma_representable_empty<T>()
    ensures
        representable(Map::<Seq<u8>, T>::empty()),
{
    let s = Seq::<(Seq<u8>, T)>::empty();
    assert(sorted(s));
    assert(to_map(s) =~= Map::<Seq<u8>, T>::empty());
}

/// The bindings of a mapping as a sequence of pairs with increasing keys.
pub open spec fn sorted_pairs<T>(m: Map<Seq<u8>, T>) -> Seq<(Seq<u8>, T)> {
    choose|s: Seq<(Seq<u8>, T)>| sorted(s) && to_map(s) == m
}

/// The keys of a mapping in increasing order.
pub open spec fn sorted_keys<T>(m: Map<Seq<u8>, T>) -> Seq<Seq<u8>> {
    Seq::new(sorted_pairs(m).len(), |i: int| sorted_pairs(m)[i].0)
}

/// The values of a mapping in the order of their keys.
pub open spec fn sorted_values<T>(m: Map<Seq<u8>, T>) -> Seq<T> {
    Seq::new(sorted_pairs(m).len(), |i: int| sorted_pairs(m)[i].1)
}

/// The sorted pairs of the mapping of a sorted sequence are that sequence.
pub proof fn lemma_sorted_pairs<T>(s: Seq<(Seq<u8>, T)>)
    requires
        sorted(s),
    ensures
        sorted_pairs(to_map(s)) == s,
{
    lemma_canonical(sorted_pairs(to_map(s)), s);
}

/// One keyspace: a set of keys, each with one value, walked in key order.
#[derive(Debug, Clone, PartialEq)]
pub struct KeySpace<V> {
    entries: Vec<(Vec<u8>, V)>,
}

impl<V: DeepView> KeySpace<V> {
    /// The pairs of this keyspace in the order in which they are stored.
    pub closed spec fn pairs(&self) -> Seq<(Seq<u8>, V::V)> {
        Seq::new(
            self.entries@.len(),
            |i: int| (self.entries@[i].0@, self.entries@[i].1.deep_view()),
        )
    }

    /// The keys are stored in strictly increasing order.
    pub open spec fn wf(&self) -> bool {
        sorted(self.pairs())
    }

    /// The mapping from key to value that this keyspace holds.
    pub open spec fn view(&self) -> Map<Seq<u8>, V::V> {
        to_map(self.pairs())
    }

    /// A walk over the keyspace meets its bindings in the order of their keys.
    pub proof fn lemma_pairs(&self)
        requires
            self.wf(),
        ensures
            self.pairs() == sorted_pairs(self@),
            representable(self@),
    {
        lemma_sorted_pairs(self.pairs());
    }

    /// An empty keyspace.
    pub fn new() -> (r: Self)
        ensures
            r.wf(),
            r.pairs() == Seq::<(Seq<u8>, V::V)>::empty(),
            r@ == Map::<Seq<u8>, V::V>::empty(),
    {
        let r = KeySpace { entries: Vec::new() };
        proof {
            assert(r.pairs() =~= Seq::<(Seq<u8>, V::V)>::empty());
            assert(r@ =~= Map::<Seq<u8>, V::V>::empty());
        }
        r
    }

    /// The number of keys.
    pub fn len(&self) -> (n: usize)
        ensures
            n == self.pairs().len(),
    {
        self.entries.len()
    }

    /// The key at position `i` of the walk.
    pub fn key_at(&self, i: usize) -> (k: &Vec<u8>)
        requires
            i < self.pairs().len(),
        ensures
            k@ == self.pairs()[i as int].0,
    {
        &self.entries[i].0
    }

    /// The value at position `i` of the walk.
    pub fn value_at(&self, i: usize) -> (v: &V)
        requires
            i < self.pairs().len(),
        ensures
            v.deep_view() == self.pairs()[i as int].1,
    {
        &self.entries[i].1
    }

    /// Finds where `key` stands or would stand: the position, and whether the
    /// key is there.
    fn locate(&self, key: &[u8]) -> (r: (usize, bool))
        requires
            self.wf(),
        ensures
            r.0 <= self.pairs().len(),
            r.1 ==> r.0 < self.pairs().len() && self.pairs()[r.0 as int].0 == key@,
            !r.1 ==> splits_at(self.pairs(), key@, r.0 as int),
    {
        let mut lo: usize = 0;
        let mut hi: usize = self.entries.len();
        while lo < hi
            invariant
                self.wf(),
                lo <= hi <= self.entries@.len(),
                self.entries@.len() == self.pairs().len(),
                forall|i: int| 0 <= i < lo ==> bytes_lt((#[trigger] self.pairs()[i]).0, key@),
                forall|i: int|
                    hi <= i < self.pairs().len() ==> bytes_lt(key@, (#[trigger] self.pairs()[i]).0),
            decreases hi - lo,
        {
            let mid: usize = lo + (hi - lo) / 2;
            let ghost s = self.pairs();
            match compare_bytes(self.entries[mid].0.as_slice(), key) {
                Order::Equal => {
                    return (mid, true);
                },
                Order::Less => {
                    proof {
                        assert(s[mid as int].0 == self.entries@[mid as int].0@);
                        assert forall|i: int| 0 <= i < mid + 1 implies bytes_lt(
                            (#[trigger] s[i]).0,
                            key@,
                        ) by {
                            if i < mid {
                                assert(bytes_lt(s[i].0, s[mid as int].0));
                                lemma_lt_transitive(s[i].0, s[mid as int].0, key@);
                            }
                        }
                    }
                    lo = mid + 1;
                },
                Order::Greater => {
                    proof {
                        assert(s[mid as int].0 == self.entries@[mid as int].0@);
                        assert forall|i: int| mid <= i < s.len() implies bytes_lt(
                            key@,
                            (#[trigger] s[i]).0,
                        ) by {
                            if mid < i {
                                assert(bytes_lt(s[mid as int].0, s[i].0));
                                lemma_lt_transitive(key@, s[mid as int].0, s[i].0);
                            }
                        }
                    }
                    hi = mid;
                },
            }
        }
        (lo, false)
    }

    /// The value bound to `key`, if there is one.
    pub fn get(&self, key: &[u8]) -> (r: Option<&V>)
        requires
            self.wf(),
        ensures
            r.is_some() == self@.contains_key(key@),
            r matches Some(v) ==> v.deep_view() == self@[key@],
    {
        let (p, found) = self.locate(key);
        if found {
            proof {
                lemma_map_at(self.pairs(), p as int);
            }
            Some(&self.entries[p].1)
        } else {
            proof {
                lemma_split_absent(self.pairs(), key@, p as int);
            }
            None
        }
    }

    /// Whether `key` is bound.
    pub fn contains_key(&self, key: &[u8]) -> (r: bool)
        requires
            self.wf(),
        ensures
            r == self@.contains_key(key@),
    {
        self.get(key).is_some()
    }

    /// Binds `key` to `value`, replacing an earlier binding of `key`.
    pub fn insert(&mut self, key: Vec<u8>, value: V)
        requires
            old(self).wf(),
        ensures
            final(self).wf(),
            final(self)@ == old(self)@.insert(key@, value.deep_view()),
    {
        let (p, found) = self.locate(key.as_slice());
        let ghost s = self.pairs();
        let ghost kv = (key@, value.deep_view());
        if found {
            self.entries[p] = (key, value);
            proof {
                assert(self.pairs() =~= s.update(p as int, kv));
                lemma_update_at(s, p as int, kv.1);
            }
        } else {
            self.entries.insert(p, (key, value));
            proof {
                assert(self.pairs() =~= s.insert(p as int, kv));
                lemma_insert_new(s, kv.0, kv.1, p as int);
            }
        }
    }

    /// Unbinds `key` and hands back the value it was bound to, if any.
    pub fn remove(&mut self, key: &[u8]) -> (r: Option<V>)
        requires
            old(self).wf(),
        ensures
            final(self).wf(),
            final(self)@ == old(self)@.remove(key@),
            r.is_some() == old(self)@.contains_key(key@),
            r matches Some(v) ==> v.deep_view() == old(self)@[key@],
    {
        let (p, found) = self.locate(key);
        let ghost s = self.pairs();
        if found {
            let (_, v) = self.entries.remove(p);
            proof {
                assert(self.pairs() =~= s.remove(p as int));
                lemma_remove_at(s, p as int);
                lemma_map_at(s, p as int);
            }
            Some(v)
        } else {
            proof {
                lemma_split_absent(s, key@, p as int);
                assert(self@ =~= old(self)@.remove(key@));
            }
            None
        }
    }
}

} // verus!
