//! A hash map of fixed bucket count: each bucket holds its entries in order
//! of insertion, and keys are hashed with a per-map secret.

use vstd::prelude::*;
use vstd::wrapping::u128_specs::{wrapping_add, wrapping_mul};
use crate::path::bytes_eq;
use crate::ramfs::copy_bytes;

verus! {

/// The number of buckets of a map.
pub const INITIAL_BUCKETS: usize = 64;

/// A key hashed and compared by its byte encoding.
pub trait HashKey: Sized {
    spec fn key_spec(&self) -> Seq<u8>;

    fn key_bytes(&self) -> (r: Vec<u8>)
        ensures
            r@ == self.key_spec(),
    ;
}

impl HashKey for u64 {
    /// The eight bytes of the number, least significant first.
    open spec fn key_spec(&self) -> Seq<u8> {
        Seq::new(8, |i: int| ((*self as int / pow256(i)) % 256) as u8)
    }

    fn key_bytes(&self) -> (r: Vec<u8>) {
        let mut r: Vec<u8> = Vec::new();
        let mut x: u64 = *self;
        let mut i: usize = 0;
        while i < 8
            invariant
                i <= 8,
                r@.len() == i,
                x as int == *self as int / pow256(i as int),
                forall|j: int| 0 <= j < i ==> r@[j] == ((*self as int / pow256(j)) % 256) as u8,
            decreases 8 - i,
        {
            proof {
                lemma_div_step(*self as int, i as int);
            }
            r.push((x % 256) as u8);
            x = x / 256;
            i = i + 1;
        }
        assert(r@ =~= self.key_spec());
        r
    }
}

impl HashKey for String {
    /// The UTF-8 bytes of the string.
    open spec fn key_spec(&self) -> Seq<u8> {
        vstd::utf8::encode_utf8(self@)
    }

    fn key_bytes(&self) -> (r: Vec<u8>) {
        copy_bytes(self.as_str().as_bytes())
    }
}

/// 256 to the power `i`.
pub open spec fn pow256(i: int) -> int
    decreases i,
{
    if i <= 0 {
        1
    } else {
        256 * pow256(i - 1)
    }
}

proof fn lemma_div_step(n: int, i: int)
    requires
        0 <= n,
        0 <= i,
    ensures
        (n / pow256(i)) / 256 == n / pow256(i + 1),
        pow256(i) > 0,
    decreases i,
{
    if i > 0 {
        lemma_div_step(n, i - 1);
    }
    assert(pow256(i + 1) == 256 * pow256(i));
    vstd::arithmetic::div_mod::lemma_div_denominator(n, pow256(i), 256);
    assert(pow256(i) * 256 == 256 * pow256(i)) by (nonlinear_arith);
}

/// The hash state after the bytes `b`, from `s`.
pub open spec fn mix(s: u128, b: Seq<u8>) -> u128
    decreases b.len(),
{
    if b.len() == 0 {
        s
    } else {
        wrapping_add(wrapping_mul(mix(s, b.drop_last()), 31), b.last() as u128)
    }
}

/// The 64 bits a hash state comes down to.
pub open spec fn finish(s: u128) -> u64 {
    ((s >> 64u128) as u64) ^ (s as u64)
}

/// The hash of a key of encoding `k` under `secret`.
pub open spec fn hash_of(secret: u128, k: Seq<u8>) -> usize {
    finish(mix(secret, k)) as usize
}

/// Index of the entry whose key is `k` (the last one, should there be
/// several), or -1.
pub open spec fn key_index<K: HashKey, V>(s: Seq<(K, V)>, k: Seq<u8>) -> int
    decreases s.len(),
{
    if s.len() == 0 {
        -1
    } else if s.last().0.key_spec() == k {
        s.len() - 1
    } else {
        key_index(s.drop_last(), k)
    }
}

proof fn lemma_key_index_push<K: HashKey, V>(s: Seq<(K, V)>, e: (K, V), k: Seq<u8>)
    ensures
        e.0.key_spec() != k ==> key_index(s.push(e), k) == key_index(s, k),
        e.0.key_spec() == k ==> key_index(s.push(e), k) == s.len(),
{
    assert(s.push(e).drop_last() =~= s);
}

proof fn lemma_key_index_range<K: HashKey, V>(s: Seq<(K, V)>, k: Seq<u8>)
    ensures
        -1 <= key_index(s, k) < s.len(),
        key_index(s, k) >= 0 ==> s[key_index(s, k)].0.key_spec() == k,
        key_index(s, k) < 0 ==> forall|j: int| 0 <= j < s.len() ==> (#[trigger] s[j]).0.key_spec() != k,
    decreases s.len(),
{
    if s.len() > 0 {
        lemma_key_index_range(s.drop_last(), k);
        assert forall|j: int| 0 <= j < s.len() - 1 implies s.drop_last()[j] == s[j] by {}
    }
}

/// A map whose buckets from `b` on are empty has no entries there.
proof fn lemma_rest_from_empty<K: HashKey, V>(m: &HashMap<K, V>, b: int)
    requires
        0 <= b,
        forall|c: int| b <= c < m.bucket_count() ==> #[trigger] m.bucket(c).len() == 0,
    ensures
        rest_from(m, b).len() == 0,
    decreases m.bucket_count() - b,
{
    if b < m.bucket_count() {
        lemma_rest_from_empty(m, b + 1);
    }
}

/// Changing the length of one bucket by `delta` changes the entries from any
/// earlier bucket on by as much.
proof fn lemma_rest_from_len<K: HashKey, V>(
    m1: &HashMap<K, V>,
    m2: &HashMap<K, V>,
    b: int,
    idx: int,
    delta: int,
)
    requires
        0 <= b,
        0 <= idx < m1.bucket_count(),
        m1.bucket_count() == m2.bucket_count(),
        forall|c: int| 0 <= c < m1.bucket_count() && c != idx ==> #[trigger] m2.bucket(c) == m1.bucket(c),
        m2.bucket(idx).len() == m1.bucket(idx).len() + delta,
    ensures
        rest_from(m2, b).len() == rest_from(m1, b).len() + if b <= idx {
            delta
        } else {
            0
        },
    decreases m1.bucket_count() - b,
{
    if b < m1.bucket_count() {
        lemma_rest_from_len(m1, m2, b + 1, idx, delta);
        if b != idx {
            assert(m2.bucket(b) == m1.bucket(b));
        }
    }
}

/// Putting an entry with the same key at the position found keeps every
/// other key where it was found.
proof fn lemma_key_index_update<K: HashKey, V>(s: Seq<(K, V)>, i: int, e: (K, V), k: Seq<u8>)
    requires
        0 <= i < s.len(),
        s[i].0.key_spec() == e.0.key_spec(),
        i == key_index(s, e.0.key_spec()),
    ensures
        k != e.0.key_spec() ==> key_index(s.update(i, e), k) == key_index(s, k),
        k == e.0.key_spec() ==> key_index(s.update(i, e), k) == i,
    decreases s.len(),
{
    let u = s.update(i, e);
    if i == s.len() - 1 {
        assert(u.drop_last() =~= s.drop_last());
    } else {
        assert(u.drop_last() =~= s.drop_last().update(i, e));
        lemma_key_index_update(s.drop_last(), i, e, k);
    }
}

/// A map with a fixed number of buckets.
pub struct HashMap<K, V> {
    buckets: Vec<Option<Vec<(K, V)>>>,
    size: usize,
    secret: u128,
}

impl<K: HashKey, V> HashMap<K, V> {
    pub closed spec fn secret_spec(&self) -> u128 {
        self.secret
    }

    /// The number of insertions of a new key.
    pub closed spec fn len_spec(&self) -> nat {
        self.size as nat
    }

    pub closed spec fn bucket_count(&self) -> nat {
        self.buckets@.len()
    }

    /// The entries of bucket `b`, in order.
    pub closed spec fn bucket(&self, b: int) -> Seq<(K, V)> {
        match self.buckets@[b] {
            Some(v) => v@,
            None => Seq::empty(),
        }
    }

    /// The bucket that holds the key of encoding `k`.
    pub closed spec fn bucket_of(&self, k: Seq<u8>) -> int {
        hash_of(self.secret, k) as int % self.buckets@.len() as int
    }

    /// The value under the key of encoding `k`.
    pub closed spec fn get_spec(&self, k: Seq<u8>) -> Option<V> {
        let s = self.bucket(self.bucket_of(k));
        let i = key_index(s, k);
        if i < 0 {
            None
        } else {
            Some(s[i].1)
        }
    }

    /// Each key stands once, in the bucket its hash picks, and the entries
    /// number as many as the map's size.
    pub open spec fn wf(&self) -> bool {
        &&& self.bucket_count() == INITIAL_BUCKETS
        &&& forall|b: int, j: int|
            0 <= b < self.bucket_count() && 0 <= j < self.bucket(b).len() ==> self.bucket_of(
                (#[trigger] self.bucket(b)[j]).0.key_spec(),
            ) == b
        &&& forall|b: int, i: int, j: int|
            0 <= b < self.bucket_count() && 0 <= i < j < self.bucket(b).len() ==> (
            #[trigger] self.bucket(b)[i]).0.key_spec() != (#[trigger] self.bucket(b)[j]).0.key_spec()
        &&& rest_from(self, 0).len() == self.len_spec()
    }

    /// An empty map whose keys are hashed with `secret`, a random number.
    pub fn new(secret: u128) -> (r: Self)
        ensures
            r.wf(),
            r.secret_spec() == secret,
            r.len_spec() == 0,
            forall|k: Seq<u8>| #[trigger] r.get_spec(k) is None,
            forall|b: int| 0 <= b < INITIAL_BUCKETS ==> #[trigger] r.bucket(b).len() == 0,
    {
        let mut buckets: Vec<Option<Vec<(K, V)>>> = Vec::new();
        let mut i: usize = 0;
        while i < INITIAL_BUCKETS
            invariant
                i <= INITIAL_BUCKETS,
                buckets@.len() == i,
                forall|b: int| 0 <= b < i ==> #[trigger] buckets@[b] is None,
            decreases INITIAL_BUCKETS - i,
        {
            buckets.push(None);
            i = i + 1;
        }
        let r = HashMap { buckets, size: 0, secret };
        proof {
            lemma_rest_from_empty(&r, 0);
        }
        r
    }

    /// The hash of key `k`.
    fn hash(&self, k: &K) -> (r: usize)
        ensures
            r == hash_of(self.secret, k.key_spec()),
    {
        let b = k.key_bytes();
        let mut s: u128 = self.secret;
        let mut i: usize = 0;
        while i < b.len()
            invariant
                i <= b@.len(),
                b@ == k.key_spec(),
                s == mix(self.secret, b@.take(i as int)),
            decreases b@.len() - i,
        {
            assert(b@.take(i + 1).drop_last() =~= b@.take(i as int));
            s = s.wrapping_mul(31).wrapping_add(b[i] as u128);
            i = i + 1;
        }
        assert(b@.take(b@.len() as int) =~= b@);
        (((s >> 64u128) as u64) ^ (s as u64)) as usize
    }

    /// Puts `v` under `k`, in place of the value there was, if any.
    pub fn insert(&mut self, k: K, v: V)
        requires
            old(self).wf(),
            old(self).len_spec() < usize::MAX,
        ensures
            final(self).wf(),
            final(self).secret_spec() == old(self).secret_spec(),
            forall|q: Seq<u8>| #[trigger]
                final(self).get_spec(q) == if q == k.key_spec() {
                    Some(v)
                } else {
                    old(self).get_spec(q)
                },
            final(self).len_spec() == old(self).len_spec() + if old(self).get_spec(k.key_spec()) is None {
                1nat
            } else {
                0nat
            },
    {
        let ghost kk = k.key_spec();
        let idx = self.hash(&k) % self.buckets.len();
        assert(idx as int == self.bucket_of(kk));
        let mut slot: Option<Vec<(K, V)>> = None;
        self.buckets.set_and_swap(idx, &mut slot);
        let ghost s0: Seq<(K, V)> = match &slot {
            Some(b) => b@,
            None => Seq::empty(),
        };
        let kb = k.key_bytes();
        let mut bucket: Vec<(K, V)> = match slot {
            Some(b) => b,
            None => Vec::new(),
        };
        assert(bucket@ == s0);
        let mut i: usize = bucket.len();
        assert(s0.take(i as int) =~= s0);
        let mut found: bool = false;
        while i > 0 && !found
            invariant
                i <= bucket@.len(),
                bucket@ == s0,
                kb@ == kk,
                found ==> 0 < i && key_index(s0, kk) == i - 1,
                !found ==> key_index(s0, kk) == key_index(s0.take(i as int), kk),
            decreases i + if found {
                0int
            } else {
                1int
            },
        {
            let eb = bucket[i - 1].0.key_bytes();
            if bytes_eq(eb.as_slice(), kb.as_slice()) {
                found = true;
            } else {
                assert(s0.take(i as int).drop_last() =~= s0.take(i - 1));
                i = i - 1;
            }
        }
        proof {
            if !found {
                assert(s0.take(0) =~= Seq::<(K, V)>::empty());
            }
            assert(old(self).bucket(idx as int) == s0);
        }
        let ghost e = (k, v);
        if found {
            proof {
                lemma_key_index_range(s0, kk);
                lemma_key_index_update(s0, i - 1, e, kk);
                assert forall|q: Seq<u8>| q != kk implies key_index(s0.update(i - 1, e), q) == key_index(s0, q) by {
                    lemma_key_index_update(s0, i - 1, e, q);
                }
            }
            bucket.set(i - 1, (k, v));
        } else {
            proof {
                lemma_key_index_push(s0, e, kk);
                assert forall|q: Seq<u8>| q != kk implies key_index(s0.push(e), q) == key_index(s0, q) by {
                    lemma_key_index_push(s0, e, q);
                }
            }
            bucket.push((k, v));
            self.size = self.size + 1;
        }
        let mut back = Some(bucket);
        self.buckets.set_and_swap(idx, &mut back);
        proof {
            assert forall|q: Seq<u8>| #[trigger]
                self.get_spec(q) == if q == kk {
                    Some(v)
                } else {
                    old(self).get_spec(q)
                } by {
                if self.bucket_of(q) != idx {
                    assert(self.bucket(self.bucket_of(q)) == old(self).bucket(old(self).bucket_of(q)));
                } else if q != kk {
                    lemma_key_index_range(s0, q);
                } else {
                    lemma_key_index_range(s0, q);
                }
            }
            let s1 = self.bucket(idx as int);
            let delta: int = if found { 0 } else { 1 };
            assert(s1 == if found { s0.update(i - 1, e) } else { s0.push(e) });
            assert forall|c: int|
                0 <= c < self.bucket_count() && c != idx implies #[trigger] self.bucket(c) == old(self).bucket(c) by {}
            lemma_rest_from_len(old(self), self, 0, idx as int, delta);
            lemma_key_index_range(s0, kk);
            assert forall|b: int, j: int|
                0 <= b < self.bucket_count() && 0 <= j < self.bucket(b).len() implies self.bucket_of(
                    (#[trigger] self.bucket(b)[j]).0.key_spec(),
                ) == b by {
                if b == idx {
                    if j < s0.len() && !(found && j == i - 1) {
                        assert(s1[j] == s0[j]);
                        assert(old(self).bucket(b)[j] == s0[j]);
                    }
                } else {
                    assert(self.bucket(b) == old(self).bucket(b));
                }
            }
            assert forall|b: int, a: int, j: int|
                0 <= b < self.bucket_count() && 0 <= a < j < self.bucket(b).len() implies (
                #[trigger] self.bucket(b)[a]).0.key_spec() != (#[trigger] self.bucket(b)[j]).0.key_spec() by {
                if b == idx {
                    assert(old(self).bucket(b) == s0);
                    if found {
                        if a != i - 1 && j != i - 1 {
                            assert(s1[a] == s0[a] && s1[j] == s0[j]);
                        } else if a == i - 1 {
                            assert(s1[j] == s0[j]);
                            assert(s0[a].0.key_spec() != s0[j].0.key_spec());
                        } else {
                            assert(s1[a] == s0[a]);
                            assert(s0[a].0.key_spec() != s0[j].0.key_spec());
                        }
                    } else {
                        assert(s1[a] == s0[a]);
                        if j < s0.len() {
                            assert(s1[j] == s0[j]);
                        }
                    }
                } else {
                    assert(self.bucket(b) == old(self).bucket(b));
                }
            }
        }
    }

    /// An iterator over the entries, bucket after bucket.
    pub fn iter(&self) -> (r: Iter<'_, K, V>)
        requires
            self.wf(),
        ensures
            r.map == self,
            r.bucket == 0,
            r.pos == 0,
            r.remaining() == rest_from(self, 0),
            r.remaining().len() == self.len_spec(),
    {
        let r = Iter { map: self, bucket: 0, pos: 0 };
        assert(self.bucket(0).skip(0) =~= self.bucket(0));
        r
    }
}

/// The entries of the buckets from `b` on, in order.
pub open spec fn rest_from<K: HashKey, V>(m: &HashMap<K, V>, b: int) -> Seq<(K, V)>
    decreases m.bucket_count() - b,
{
    if b < 0 || b >= m.bucket_count() {
        Seq::empty()
    } else {
        m.bucket(b) + rest_from(m, b + 1)
    }
}

/// A walk over the entries of a map: position `pos` of bucket `bucket`.
pub struct Iter<'a, K, V> {
    pub map: &'a HashMap<K, V>,
    pub bucket: usize,
    pub pos: usize,
}

impl<'a, K: HashKey, V> Iter<'a, K, V> {
    /// The entries still to come.
    pub open spec fn remaining(&self) -> Seq<(K, V)> {
        if self.bucket >= self.map.bucket_count() {
            Seq::empty()
        } else {
            self.map.bucket(self.bucket as int).skip(self.pos as int) + rest_from(
                self.map,
                self.bucket + 1,
            )
        }
    }

    /// The next entry, if any is left.
    pub fn next(&mut self) -> (r: Option<(&'a K, &'a V)>)
        requires
            old(self).pos <= old(self).map.bucket(old(self).bucket as int).len() || old(self).bucket
                >= old(self).map.bucket_count(),
        ensures
            final(self).map == old(self).map,
            final(self).pos <= final(self).map.bucket(final(self).bucket as int).len()
                || final(self).bucket >= final(self).map.bucket_count(),
            old(self).remaining().len() == 0 ==> r is None,
            old(self).remaining().len() > 0 ==> (r matches Some((k, v)) && (*k, *v)
                == old(self).remaining()[0] && final(self).remaining()
                == old(self).remaining().drop_first()),
        decreases old(self).map.bucket_count() - old(self).bucket,
    {
        if self.bucket >= self.map.buckets.len() {
            return None;
        }
        match &self.map.buckets[self.bucket] {
            Some(b) => {
                if self.pos < b.len() {
                    let e = &b[self.pos];
                    self.pos = self.pos + 1;
                    assert(old(self).remaining().drop_first() =~= self.remaining());
                    return Some((&e.0, &e.1));
                }
            },
            None => {},
        }
        assert(old(self).map.bucket(old(self).bucket as int).skip(old(self).pos as int).len() == 0);
        assert(old(self).remaining() =~= rest_from(old(self).map, old(self).bucket + 1));
        self.bucket = self.bucket + 1;
        self.pos = 0;
        assert(self.map.bucket(self.bucket as int).skip(0) =~= self.map.bucket(self.bucket as int));
        self.next()
    }
}

} // verus!
