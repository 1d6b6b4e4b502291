//! The in-memory hash index: a chained hash table over `Item` entries
//! with dynamic, load-factor driven growth.
//!
//! Collisions chain inside a bucket, append-only, so inserting a key twice
//! stores two entries (multiset semantics); a lookup returns the first
//! entry of the key's chain and a removal drops the first entry.  When the
//! live-entry count crosses three quarters of the capacity, the table
//! doubles its bucket array and re-chains every entry.

use vstd::prelude::*;
use crate::StoreError;
use crate::codec::append_record;
use crate::codec::decode_key;
use crate::codec::encode_key;
use crate::codec::lemma_appended_record;
use crate::codec::lemma_key_bytes_round_trip;
use crate::codec::lemma_same_record;
use crate::codec::read_record_key;
use crate::codec::read_record_value;
use crate::codec::record_key_at;
use crate::codec::record_value_at;
use crate::codec::spec_key_bytes;
use crate::codec::spec_key_of_bytes;
use crate::codec::spec_record;
use crate::codec::Item;
use crate::codec::KEY_BYTES;
use crate::codec::RECORD_BYTES;
use crate::codec::VALUE_BYTES;

verus! {

/// Numerator of the load-factor threshold.
pub const RESIZE_FACTOR_NUM: usize = 3;

/// Denominator of the load-factor threshold.
pub const RESIZE_FACTOR_DEN: usize = 4;

/// A xorshift round: the key widened to 64 bits and stirred.
pub open spec fn spec_mix64(key: u32) -> u64 {
    let x0 = key as u64;
    let x1 = x0 ^ (x0 << 13);
    let x2 = x1 ^ (x1 >> 7);
    x2 ^ (x2 << 17)
}

/// The bucket of `key` in a table of `cap` buckets: the mixed key reduced
/// modulo the capacity.
pub open spec fn spec_hash_mod(key: u32, cap: int) -> int
    recommends
        cap >= 1,
{
    spec_mix64(key) as int % cap
}

/// The values of the entries of `b` whose key is `k`, oldest first.
pub open spec fn chain_of(b: Seq<Item>, k: u32) -> Seq<Seq<u8>>
    decreases b.len(),
{
    if b.len() <= 0 {
        Seq::empty()
    } else if b[0].spec_key() == k {
        seq![b[0].spec_value()] + chain_of(b.subrange(1, b.len() as int), k)
    } else {
        chain_of(b.subrange(1, b.len() as int), k)
    }
}

/// Chains split over concatenation.
proof fn lemma_chain_concat(a: Seq<Item>, c: Seq<Item>, k: u32)
    ensures
        chain_of(a + c, k) == chain_of(a, k) + chain_of(c, k),
    decreases a.len(),
{
    if a.len() == 0 {
        assert(a + c =~= c);
        assert(chain_of(a, k) + chain_of(c, k) =~= chain_of(c, k));
    } else {
        assert((a + c)[0] == a[0]);
        assert((a + c).subrange(1, (a + c).len() as int) =~= a.subrange(1, a.len() as int) + c);
        lemma_chain_concat(a.subrange(1, a.len() as int), c, k);
        if a[0].spec_key() == k {
            assert(seq![a[0].spec_value()] + (chain_of(a.subrange(1, a.len() as int), k)
                + chain_of(c, k)) =~= (seq![a[0].spec_value()] + chain_of(
                a.subrange(1, a.len() as int),
                k,
            )) + chain_of(c, k));
        }
    }
}

/// Appending an entry extends exactly its own key's chain, at the end.
proof fn lemma_chain_push(b: Seq<Item>, it: Item, k: u32)
    ensures
        chain_of(b.push(it), k) == if it.spec_key() == k {
            chain_of(b, k).push(it.spec_value())
        } else {
            chain_of(b, k)
        },
{
    assert(b.push(it) =~= b + seq![it]);
    lemma_chain_concat(b, seq![it], k);
    assert(seq![it].subrange(1, 1) =~= Seq::<Item>::empty());
    assert(chain_of(Seq::<Item>::empty(), k) =~= Seq::<Seq<u8>>::empty());
    if it.spec_key() == k {
        assert(chain_of(seq![it], k) =~= seq![it.spec_value()]);
        assert(chain_of(b, k) + seq![it.spec_value()] =~= chain_of(b, k).push(it.spec_value()));
    } else {
        assert(chain_of(seq![it], k) =~= Seq::<Seq<u8>>::empty());
        assert(chain_of(b, k) + Seq::<Seq<u8>>::empty() =~= chain_of(b, k));
    }
}

/// A run of entries of other keys contributes nothing to `k`'s chain.
proof fn lemma_chain_no_match(b: Seq<Item>, k: u32)
    requires
        forall|j: int| 0 <= j < b.len() ==> (#[trigger] b[j]).spec_key() != k,
    ensures
        chain_of(b, k) == Seq::<Seq<u8>>::empty(),
    decreases b.len(),
{
    if b.len() > 0 {
        assert forall|j: int| 0 <= j < b.len() - 1 implies (#[trigger] b.subrange(
            1,
            b.len() as int,
        )[j]).spec_key() != k by {
            assert(b.subrange(1, b.len() as int)[j] == b[j + 1]);
        }
        lemma_chain_no_match(b.subrange(1, b.len() as int), k);
    }
}

/// Every entry of every bucket carries a record-width value and sits in
/// the bucket its key hashes to.
pub open spec fn buckets_wf(bs: Seq<Vec<Item>>, cap: int) -> bool {
    forall|b: int, j: int|
        0 <= b < bs.len() && 0 <= j < bs[b]@.len()
            ==> (#[trigger] bs[b]@[j]).wf() && spec_hash_mod(bs[b]@[j].spec_key(), cap) == b
}

/// The number of entries in the first `n` buckets.
pub open spec fn total_items(bs: Seq<Vec<Item>>, n: int) -> nat
    decreases n,
{
    if n <= 0 {
        0
    } else {
        total_items(bs, n - 1) + bs[n - 1]@.len()
    }
}

proof fn lemma_total_items_congruence(bs1: Seq<Vec<Item>>, bs2: Seq<Vec<Item>>, n: int)
    requires
        forall|q: int| 0 <= q < n ==> (#[trigger] bs1[q])@.len() == bs2[q]@.len(),
    ensures
        total_items(bs1, n) == total_items(bs2, n),
    decreases n,
{
    if n > 0 {
        lemma_total_items_congruence(bs1, bs2, n - 1);
    }
}

/// Changing one bucket moves the entry total by that bucket's change.
proof fn lemma_total_items_update(bs1: Seq<Vec<Item>>, bs2: Seq<Vec<Item>>, n: int, b: int)
    requires
        0 <= b < n,
        forall|q: int| 0 <= q < n && q != b ==> (#[trigger] bs1[q])@.len() == bs2[q]@.len(),
    ensures
        total_items(bs2, n) + bs1[b]@.len() == total_items(bs1, n) + bs2[b]@.len(),
    decreases n,
{
    if b == n - 1 {
        lemma_total_items_congruence(bs1, bs2, n - 1);
    } else {
        lemma_total_items_update(bs1, bs2, n - 1, b);
    }
}

/// The entry total dominates each single bucket's length.
proof fn lemma_total_items_ge_bucket(bs: Seq<Vec<Item>>, n: int, b: int)
    requires
        0 <= b < n,
    ensures
        total_items(bs, n) >= bs[b]@.len(),
    decreases n,
{
    if b < n - 1 {
        lemma_total_items_ge_bucket(bs, n - 1, b);
    }
}

/// The in-memory chained hash index.
#[derive(Debug)]
pub struct MemoryHashTable {
    buckets: Vec<Vec<Item>>,
    size: usize,
    capacity: usize,
}

impl View for MemoryHashTable {
    type V = Map<u32, Seq<Seq<u8>>>;

    /// The map from each stored key to its chain of values, oldest first.
    closed spec fn view(&self) -> Map<u32, Seq<Seq<u8>>> {
        Map::new(
            |k: u32| chain_of(self.buckets@[spec_hash_mod(k, self.capacity as int)]@, k).len() != 0,
            |k: u32| chain_of(self.buckets@[spec_hash_mod(k, self.capacity as int)]@, k),
        )
    }
}

impl MemoryHashTable {
    /// The number of live entries.
    pub closed spec fn spec_size(self) -> int {
        self.size as int
    }

    /// The number of buckets.
    pub closed spec fn spec_capacity(self) -> int {
        self.capacity as int
    }

    /// The chain of `k`: the values stored under it, oldest first.
    pub closed spec fn spec_chain(self, k: u32) -> Seq<Seq<u8>> {
        chain_of(self.buckets@[spec_hash_mod(k, self.capacity as int)]@, k)
    }

    /// The table's internal invariant.
    pub closed spec fn wf(self) -> bool {
        &&& self.capacity as int == self.buckets@.len()
        &&& self.capacity >= 1
        &&& buckets_wf(self.buckets@, self.capacity as int)
        &&& self.size as nat == total_items(self.buckets@, self.capacity as int)
    }

    /// Creates an empty table of `initial_capacity` buckets.
    pub fn new(initial_capacity: usize) -> (r: MemoryHashTable)
        requires
            1 <= initial_capacity,
        ensures
            r.wf(),
            r@ == Map::<u32, Seq<Seq<u8>>>::empty(),
            r.spec_size() == 0,
            r.spec_capacity() == initial_capacity,
    {
        let mut buckets: Vec<Vec<Item>> = Vec::new();
        let mut i: usize = 0;
        while i < initial_capacity
            invariant
                i <= initial_capacity,
                buckets@.len() == i,
                forall|q: int| 0 <= q < i ==> (#[trigger] buckets@[q])@.len() == 0,
            decreases initial_capacity - i,
        {
            buckets.push(Vec::new());
            i = i + 1;
        }
        let r = MemoryHashTable { buckets, size: 0, capacity: initial_capacity };
        proof {
            lemma_total_items_zero(r.buckets@, initial_capacity as int);
            assert forall|k: u32| #[trigger] r.spec_chain(k).len() == 0 by {
                assert(r.buckets@[spec_hash_mod(k, initial_capacity as int)]@ =~= Seq::<
                    Item,
                >::empty());
            }
            assert(r@ =~= Map::<u32, Seq<Seq<u8>>>::empty());
        }
        r
    }

    /// The bucket of `key`: a xorshift-mixed hash reduced modulo the
    /// current capacity.
    pub fn hash(&self, key: u32) -> (r: usize)
        requires
            self.wf(),
        ensures
            r == spec_hash_mod(key, self.spec_capacity()),
            r < self.spec_capacity(),
    {
        (mix64(key) % (self.capacity as u64)) as usize
    }

    /// The number of live entries.
    pub fn get_size(&self) -> (r: usize)
        ensures
            r == self.spec_size(),
    {
        self.size
    }

    /// The number of buckets.
    pub fn get_capacity(&self) -> (r: usize)
        ensures
            r == self.spec_capacity(),
    {
        self.capacity
    }

    /// Appends `(key, value)` to the key's chain.  A key already present
    /// keeps its older entries: the table stores duplicates rather than
    /// overwriting.  If the live-entry count has crossed the load-factor
    /// threshold, the table first doubles its capacity; the capacity
    /// never decreases.
    pub fn insert(&mut self, key: u32, value: Vec<u8>)
        requires
            old(self).wf(),
            value@.len() == VALUE_BYTES,
            old(self).spec_size() < usize::MAX,
        ensures
            final(self).wf(),
            final(self)@ == old(self)@.insert(
                key,
                (if old(self)@.dom().contains(key) {
                    old(self)@[key]
                } else {
                    Seq::empty()
                }).push(value@),
            ),
            final(self).spec_size() == old(self).spec_size() + 1,
            final(self).spec_capacity() >= old(self).spec_capacity(),
            old(self).spec_size() * RESIZE_FACTOR_DEN > old(self).spec_capacity()
                * RESIZE_FACTOR_NUM && 2 * old(self).spec_capacity() <= usize::MAX
                ==> final(self).spec_capacity() == 2 * old(self).spec_capacity(),
    {
        let over = (self.size as u128) * (RESIZE_FACTOR_DEN as u128) > (self.capacity as u128)
            * (RESIZE_FACTOR_NUM as u128);
        if over && self.capacity <= usize::MAX / 2 {
            self.grow();
        }
        let b = self.hash(key);
        let item = Item::new(key, value);
        let ghost bs0 = self.buckets@;
        let ghost m0 = self@;
        let ghost cap = self.capacity as int;
        self.buckets[b].push(item);
        self.size = self.size + 1;
        proof {
            assert(self.buckets@[b as int]@ =~= bs0[b as int]@.push(item));
            assert forall|q: int| 0 <= q < cap && q != b implies (#[trigger] bs0[q])@.len()
                == self.buckets@[q]@.len() by {}
            lemma_total_items_update(bs0, self.buckets@, cap, b as int);
            assert forall|k: u32| #[trigger] chain_of(
                self.buckets@[spec_hash_mod(k, cap)]@,
                k,
            ) == (if k == key {
                chain_of(bs0[spec_hash_mod(k, cap)]@, k).push(value@)
            } else {
                chain_of(bs0[spec_hash_mod(k, cap)]@, k)
            }) by {
                if spec_hash_mod(k, cap) == b as int {
                    lemma_chain_push(bs0[b as int]@, item, k);
                }
            }
            if !m0.dom().contains(key) {
                assert(chain_of(bs0[spec_hash_mod(key, cap)]@, key) =~= Seq::<Seq<u8>>::empty());
            }
            assert(self@ =~= m0.insert(
                key,
                (if m0.dom().contains(key) {
                    m0[key]
                } else {
                    Seq::empty()
                }).push(value@),
            ));
        }
    }

    /// Returns a borrow of the first value of the key's chain, or
    /// `KeyNotFound` exactly when the key is absent.
    pub fn get(&self, key: u32) -> (r: Result<&Vec<u8>, StoreError>)
        requires
            self.wf(),
        ensures
            match r {
                Ok(v) => self@.dom().contains(key) && v@ == self@[key][0],
                Err(e) => e == StoreError::KeyNotFound && !self@.dom().contains(key),
            },
    {
        let b = self.hash(key);
        let bucket = &self.buckets[b];
        let n = bucket.len();
        let mut i: usize = 0;
        while i < n
            invariant
                self.wf(),
                i <= n,
                n == bucket@.len(),
                bucket@ == self.buckets@[spec_hash_mod(key, self.spec_capacity())]@,
                forall|j: int| 0 <= j < i ==> (#[trigger] bucket@[j]).spec_key() != key,
            decreases n - i,
        {
            if bucket[i].key() == key {
                proof {
                    lemma_get_found(bucket@, key, i as int);
                }
                return Ok(bucket[i].value());
            }
            i = i + 1;
        }
        proof {
            lemma_chain_no_match(bucket@, key);
        }
        Err(StoreError::KeyNotFound)
    }

    /// Removes the first entry of the key's chain — older duplicates go
    /// first — or reports `KeyNotFound` exactly when the key is absent.
    pub fn remove(&mut self, key: u32) -> (r: Result<(), StoreError>)
        requires
            old(self).wf(),
        ensures
            final(self).wf(),
            final(self).spec_capacity() == old(self).spec_capacity(),
            match r {
                Ok(()) => {
                    &&& old(self)@.dom().contains(key)
                    &&& final(self)@ == (if old(self)@[key].len() > 1 {
                        old(self)@.insert(key, old(self)@[key].drop_first())
                    } else {
                        old(self)@.remove(key)
                    })
                    &&& final(self).spec_size() == old(self).spec_size() - 1
                },
                Err(e) => {
                    &&& e == StoreError::KeyNotFound
                    &&& !old(self)@.dom().contains(key)
                    &&& final(self)@ == old(self)@
                    &&& final(self).spec_size() == old(self).spec_size()
                },
            },
    {
        let b = self.hash(key);
        let n = self.buckets[b].len();
        let mut i: usize = 0;
        while i < n
            invariant
                self.wf(),
                self == old(self),
                b as int == spec_hash_mod(key, self.spec_capacity()),
                b < self.buckets@.len(),
                i <= n,
                n == self.buckets@[b as int]@.len(),
                forall|j: int|
                    0 <= j < i ==> (#[trigger] self.buckets@[b as int]@[j]).spec_key() != key,
            decreases n - i,
        {
            if self.buckets[b].len() > i && self.buckets[b][i].key() == key {
                let ghost bs0 = self.buckets@;
                let ghost m0 = self@;
                let ghost cap = self.capacity as int;
                proof {
                    lemma_get_found(bs0[b as int]@, key, i as int);
                    lemma_total_items_ge_bucket(bs0, cap, b as int);
                }
                let _ = self.buckets[b].remove(i);
                self.size = self.size - 1;
                proof {
                    lemma_remove_at(bs0[b as int]@, key, i as int);
                    assert forall|q: int| 0 <= q < cap && q != b implies (#[trigger] bs0[q])@.len()
                        == self.buckets@[q]@.len() by {}
                    lemma_total_items_update(bs0, self.buckets@, cap, b as int);
                    assert forall|k2: u32| k2 != key implies #[trigger] chain_of(
                        self.buckets@[spec_hash_mod(k2, cap)]@,
                        k2,
                    ) == chain_of(bs0[spec_hash_mod(k2, cap)]@, k2) by {
                        if spec_hash_mod(k2, cap) == b as int {
                            lemma_remove_at_other(bs0[b as int]@, key, k2, i as int);
                        }
                    }
                    if m0[key].len() > 1 {
                        assert(self@ =~= m0.insert(key, m0[key].drop_first()));
                    } else {
                        assert(self@ =~= m0.remove(key));
                    }
                }
                return Ok(());
            }
            i = i + 1;
        }
        proof {
            lemma_chain_no_match(self.buckets@[b as int]@, key);
        }
        Err(StoreError::KeyNotFound)
    }

    /// Doubles the bucket array and re-chains every entry into its new
    /// bucket, preserving every key's chain and the entry count.
    pub fn grow(&mut self)
        requires
            old(self).wf(),
            2 * old(self).spec_capacity() <= usize::MAX,
        ensures
            final(self).wf(),
            final(self)@ == old(self)@,
            final(self).spec_size() == old(self).spec_size(),
            final(self).spec_capacity() == 2 * old(self).spec_capacity(),
    {
        let new_cap = 2 * self.capacity;
        let ghost cap = self.capacity as int;
        let ghost ncap = new_cap as int;
        let ghost g = *self;
        let mut nb: Vec<Vec<Item>> = Vec::new();
        let mut i: usize = 0;
        while i < new_cap
            invariant
                i <= new_cap,
                nb@.len() == i,
                forall|q: int| 0 <= q < i ==> (#[trigger] nb@[q])@.len() == 0,
            decreases new_cap - i,
        {
            nb.push(Vec::new());
            i = i + 1;
        }
        proof {
            lemma_total_items_zero(nb@, ncap);
            assert forall|k: u32| #[trigger] chain_of(nb@[spec_hash_mod(k, ncap)]@, k) + chain_of(
                self.buckets@[spec_hash_mod(k, cap)]@,
                k,
            ) == chain_of(g.buckets@[spec_hash_mod(k, cap)]@, k) by {
                assert(nb@[spec_hash_mod(k, ncap)]@ =~= Seq::<Item>::empty());
                assert(Seq::<Seq<u8>>::empty() + chain_of(self.buckets@[spec_hash_mod(k, cap)]@, k)
                    =~= chain_of(self.buckets@[spec_hash_mod(k, cap)]@, k));
            }
        }
        let mut b: usize = 0;
        while b < self.capacity
            invariant
                b <= self.capacity,
                self.capacity as int == cap,
                self.size == g.size,
                new_cap as int == ncap,
                ncap == 2 * cap,
                cap >= 1,
                self.buckets@.len() == cap,
                nb@.len() == ncap,
                g.wf(),
                g.capacity as int == cap,
                buckets_wf(self.buckets@, cap),
                buckets_wf(nb@, ncap),
                forall|q: int| 0 <= q < b ==> (#[trigger] self.buckets@[q])@.len() == 0,
                total_items(nb@, ncap) + total_items(self.buckets@, cap) == total_items(
                    g.buckets@,
                    cap,
                ),
                forall|k: u32| #[trigger] chain_of(nb@[spec_hash_mod(k, ncap)]@, k) + chain_of(
                    self.buckets@[spec_hash_mod(k, cap)]@,
                    k,
                ) == chain_of(g.buckets@[spec_hash_mod(k, cap)]@, k),
            decreases self.capacity - b,
        {
            while self.buckets[b].len() > 0
                invariant
                    b < cap,
                    self.capacity as int == cap,
                    self.size == g.size,
                    new_cap as int == ncap,
                    ncap == 2 * cap,
                    cap >= 1,
                    self.buckets@.len() == cap,
                    nb@.len() == ncap,
                    g.wf(),
                    g.capacity as int == cap,
                    buckets_wf(self.buckets@, cap),
                    buckets_wf(nb@, ncap),
                    forall|q: int| 0 <= q < b ==> (#[trigger] self.buckets@[q])@.len() == 0,
                    total_items(nb@, ncap) + total_items(self.buckets@, cap) == total_items(
                        g.buckets@,
                        cap,
                    ),
                    forall|k: u32| #[trigger] chain_of(nb@[spec_hash_mod(k, ncap)]@, k)
                        + chain_of(self.buckets@[spec_hash_mod(k, cap)]@, k) == chain_of(
                        g.buckets@[spec_hash_mod(k, cap)]@,
                        k,
                    ),
                decreases self.buckets@[b as int]@.len(),
            {
                let ghost bs0 = self.buckets@;
                let ghost nb0 = nb@;
                let it = self.buckets[b].remove(0);
                let t = (mix64(it.key()) % (new_cap as u64)) as usize;
                let ghost it_snap = it;
                nb[t].push(it);
                proof {
                    lemma_grow_step(
                        bs0,
                        self.buckets@,
                        nb0,
                        nb@,
                        g.buckets@,
                        cap,
                        ncap,
                        b as int,
                        t as int,
                        it_snap,
                    );
                }
            }
            b = b + 1;
        }
        let ghost emptied = self.buckets@;
        self.buckets = nb;
        self.capacity = new_cap;
        proof {
            lemma_total_items_zero(emptied, cap);
            assert forall|k: u32| #[trigger] chain_of(
                self.buckets@[spec_hash_mod(k, ncap)]@,
                k,
            ) == chain_of(g.buckets@[spec_hash_mod(k, cap)]@, k) by {
                assert(emptied[spec_hash_mod(k, cap)]@ =~= Seq::<Item>::empty());
                assert(chain_of(emptied[spec_hash_mod(k, cap)]@, k) =~= Seq::<Seq<u8>>::empty());
            }
            assert(self@ =~= g@);
        }
    }
}

proof fn lemma_total_items_zero(bs: Seq<Vec<Item>>, n: int)
    requires
        forall|q: int| 0 <= q < n ==> (#[trigger] bs[q])@.len() == 0,
    ensures
        total_items(bs, n) == 0,
    decreases n,
{
    if n > 0 {
        lemma_total_items_zero(bs, n - 1);
    }
}

/// The chain facts at the first matching entry of a bucket: the chain is
/// non-empty and starts with that entry's value.
proof fn lemma_get_found(b: Seq<Item>, k: u32, i: int)
    requires
        0 <= i < b.len(),
        b[i].spec_key() == k,
        forall|j: int| 0 <= j < i ==> (#[trigger] b[j]).spec_key() != k,
    ensures
        chain_of(b, k).len() >= 1,
        chain_of(b, k)[0] == b[i].spec_value(),
    decreases i,
{
    if i == 0 {
        assert(chain_of(b, k) == seq![b[0].spec_value()] + chain_of(
            b.subrange(1, b.len() as int),
            k,
        ));
    } else {
        assert forall|j: int| 0 <= j < i - 1 implies (#[trigger] b.subrange(
            1,
            b.len() as int,
        )[j]).spec_key() != k by {
            assert(b.subrange(1, b.len() as int)[j] == b[j + 1]);
        }
        assert(b.subrange(1, b.len() as int)[i - 1] == b[i]);
        lemma_get_found(b.subrange(1, b.len() as int), k, i - 1);
    }
}

/// Removing the first matching entry drops the first element of its
/// key's chain.
proof fn lemma_remove_at(b: Seq<Item>, k: u32, i: int)
    requires
        0 <= i < b.len(),
        b[i].spec_key() == k,
        forall|j: int| 0 <= j < i ==> (#[trigger] b[j]).spec_key() != k,
    ensures
        chain_of(b.remove(i), k) == chain_of(b, k).drop_first(),
    decreases i,
{
    if i == 0 {
        assert(b.remove(0) =~= b.subrange(1, b.len() as int));
        assert(chain_of(b, k) == seq![b[0].spec_value()] + chain_of(
            b.subrange(1, b.len() as int),
            k,
        ));
        assert(chain_of(b, k).drop_first() =~= chain_of(b.subrange(1, b.len() as int), k));
    } else {
        assert forall|j: int| 0 <= j < i - 1 implies (#[trigger] b.subrange(
            1,
            b.len() as int,
        )[j]).spec_key() != k by {
            assert(b.subrange(1, b.len() as int)[j] == b[j + 1]);
        }
        assert(b.subrange(1, b.len() as int)[i - 1] == b[i]);
        lemma_remove_at(b.subrange(1, b.len() as int), k, i - 1);
        assert(b.remove(i)[0] == b[0]);
        assert(b.remove(i).subrange(1, b.remove(i).len() as int) =~= b.subrange(
            1,
            b.len() as int,
        ).remove(i - 1));
    }
}

/// Removing an entry of one key leaves every other key's chain alone.
proof fn lemma_remove_at_other(b: Seq<Item>, k: u32, k2: u32, i: int)
    requires
        0 <= i < b.len(),
        b[i].spec_key() == k,
        k2 != k,
    ensures
        chain_of(b.remove(i), k2) == chain_of(b, k2),
    decreases i,
{
    if i == 0 {
        assert(b.remove(0) =~= b.subrange(1, b.len() as int));
    } else {
        assert(b.subrange(1, b.len() as int)[i - 1] == b[i]);
        lemma_remove_at_other(b.subrange(1, b.len() as int), k, k2, i - 1);
        assert(b.remove(i)[0] == b[0]);
        assert(b.remove(i).subrange(1, b.remove(i).len() as int) =~= b.subrange(
            1,
            b.len() as int,
        ).remove(i - 1));
    }
}

/// One step of the re-chaining pass: the head entry of bucket `b` moves
/// to its new bucket `t`, and every chain sum is preserved.
proof fn lemma_grow_step(
    bs0: Seq<Vec<Item>>,
    bs1: Seq<Vec<Item>>,
    nb0: Seq<Vec<Item>>,
    nb1: Seq<Vec<Item>>,
    gbs: Seq<Vec<Item>>,
    cap: int,
    ncap: int,
    b: int,
    t: int,
    it: Item,
)
    requires
        ncap == 2 * cap,
        cap >= 1,
        0 <= b < cap,
        0 <= t < ncap,
        bs0.len() == cap,
        bs1.len() == cap,
        nb0.len() == ncap,
        nb1.len() == ncap,
        bs0[b]@.len() >= 1,
        it == bs0[b]@[0],
        t == spec_hash_mod(it.spec_key(), ncap),
        b == spec_hash_mod(it.spec_key(), cap),
        bs1 == bs0.update(b, bs1[b]),
        bs1[b]@ == bs0[b]@.remove(0),
        nb1 == nb0.update(t, nb1[t]),
        nb1[t]@ == nb0[t]@.push(it),
        forall|k: u32| #[trigger] chain_of(nb0[spec_hash_mod(k, ncap)]@, k) + chain_of(
            bs0[spec_hash_mod(k, cap)]@,
            k,
        ) == chain_of(gbs[spec_hash_mod(k, cap)]@, k),
        total_items(nb0, ncap) + total_items(bs0, cap) == total_items(gbs, cap),
    ensures
        forall|k: u32| #[trigger] chain_of(nb1[spec_hash_mod(k, ncap)]@, k) + chain_of(
            bs1[spec_hash_mod(k, cap)]@,
            k,
        ) == chain_of(gbs[spec_hash_mod(k, cap)]@, k),
        total_items(nb1, ncap) + total_items(bs1, cap) == total_items(gbs, cap),
{
    assert forall|q: int| 0 <= q < cap && q != b implies (#[trigger] bs0[q])@.len()
        == bs1[q]@.len() by {}
    lemma_total_items_update(bs0, bs1, cap, b);
    assert forall|q: int| 0 <= q < ncap && q != t implies (#[trigger] nb0[q])@.len()
        == nb1[q]@.len() by {}
    lemma_total_items_update(nb0, nb1, ncap, t);
    assert forall|k: u32| #[trigger] chain_of(nb1[spec_hash_mod(k, ncap)]@, k) + chain_of(
        bs1[spec_hash_mod(k, cap)]@,
        k,
    ) == chain_of(gbs[spec_hash_mod(k, cap)]@, k) by {
        let hn = spec_hash_mod(k, ncap);
        let ho = spec_hash_mod(k, cap);
        if hn == t {
            lemma_chain_push(nb0[t]@, it, k);
        }
        if ho == b {
            if k == it.spec_key() {
                assert(chain_of(bs0[b]@, k) == seq![bs0[b]@[0].spec_value()] + chain_of(
                    bs0[b]@.subrange(1, bs0[b]@.len() as int),
                    k,
                ));
                assert(bs1[b]@ =~= bs0[b]@.subrange(1, bs0[b]@.len() as int));
                assert(hn == t);
                assert(chain_of(nb0[t]@, k).push(it.spec_value()) + chain_of(bs1[b]@, k)
                    =~= chain_of(nb0[t]@, k) + (seq![it.spec_value()] + chain_of(bs1[b]@, k)));
            } else {
                assert(bs1[b]@ =~= bs0[b]@.subrange(1, bs0[b]@.len() as int));
                assert(chain_of(bs0[b]@, k) == chain_of(
                    bs0[b]@.subrange(1, bs0[b]@.len() as int),
                    k,
                ));
            }
        }
    }
}

/// The executable xorshift round, matching `spec_mix64`.
fn mix64(key: u32) -> (r: u64)
    ensures
        r == spec_mix64(key),
{
    let x0 = key as u64;
    let x1 = x0 ^ (x0 << 13u64);
    let x2 = x1 ^ (x1 >> 7u64);
    x2 ^ (x2 << 17u64)
}

/// The encoding of the first `j` entries of one bucket, in chain order.
pub open spec fn bucket_bytes(b: Seq<Item>, j: int) -> Seq<u8>
    decreases j,
{
    if j <= 0 {
        Seq::empty()
    } else {
        bucket_bytes(b, j - 1) + spec_record(b[j - 1].spec_key(), b[j - 1].spec_value())
    }
}

/// The encoding of the entries of the first `n` buckets, bucket by
/// bucket.
pub open spec fn buckets_bytes(bs: Seq<Vec<Item>>, n: int) -> Seq<u8>
    decreases n,
{
    if n <= 0 {
        Seq::empty()
    } else {
        buckets_bytes(bs, n - 1) + bucket_bytes(bs[n - 1]@, bs[n - 1]@.len() as int)
    }
}

/// The chain of `k` as read from the first `n` records of a record area:
/// the values of the records keyed `k`, in record order.
pub open spec fn records_chain(area: Seq<u8>, n: int, k: u32) -> Seq<Seq<u8>>
    decreases n,
{
    if n <= 0 {
        Seq::empty()
    } else if record_key_at(area, n - 1) == k {
        records_chain(area, n - 1, k).push(record_value_at(area, n - 1))
    } else {
        records_chain(area, n - 1, k)
    }
}

proof fn lemma_bucket_bytes_len(b: Seq<Item>, j: int)
    requires
        0 <= j <= b.len(),
        forall|q: int| 0 <= q < b.len() ==> (#[trigger] b[q]).wf(),
    ensures
        bucket_bytes(b, j).len() == RECORD_BYTES * j,
    decreases j,
{
    if j > 0 {
        lemma_bucket_bytes_len(b, j - 1);
    }
}

proof fn lemma_buckets_bytes_len(bs: Seq<Vec<Item>>, cap: int, n: int)
    requires
        0 <= n,
        bs.len() >= n,
        buckets_wf(bs, cap),
    ensures
        buckets_bytes(bs, n).len() == RECORD_BYTES * total_items(bs, n),
    decreases n,
{
    if n > 0 {
        lemma_buckets_bytes_len(bs, cap, n - 1);
        assert forall|q: int| 0 <= q < bs[n - 1]@.len() implies (#[trigger] bs[n
            - 1]@[q]).wf() by {}
        lemma_bucket_bytes_len(bs[n - 1]@, bs[n - 1]@.len() as int);
    }
}

/// Two areas that agree byte for byte over their first `n` records hold
/// the same chains there.
proof fn lemma_records_chain_prefix(a1: Seq<u8>, a2: Seq<u8>, n: int, k: u32)
    requires
        0 <= n,
        RECORD_BYTES * n <= a1.len(),
        RECORD_BYTES * n <= a2.len(),
        forall|i: int| 0 <= i < RECORD_BYTES * n ==> a1[i] == a2[i],
    ensures
        records_chain(a1, n, k) == records_chain(a2, n, k),
    decreases n,
{
    if n > 0 {
        lemma_records_chain_prefix(a1, a2, n - 1, k);
        lemma_same_record(a1, a2, n - 1);
    }
}

/// Appending one bucket's encoding appends that bucket's chain.
proof fn lemma_records_chain_append(a: Seq<u8>, bucket: Seq<Item>, n: int, m: int, k: u32)
    requires
        0 <= n,
        0 <= m <= bucket.len(),
        a.len() == RECORD_BYTES * n,
        forall|q: int| 0 <= q < bucket.len() ==> (#[trigger] bucket[q]).wf(),
    ensures
        records_chain(a + bucket_bytes(bucket, m), n + m, k) == records_chain(a, n, k)
            + chain_of(bucket.subrange(0, m), k),
    decreases m,
{
    if m == 0 {
        assert(a + bucket_bytes(bucket, 0) =~= a);
        assert(chain_of(bucket.subrange(0, 0), k) =~= Seq::<Seq<u8>>::empty());
        assert(records_chain(a, n, k) + Seq::<Seq<u8>>::empty() =~= records_chain(a, n, k));
    } else {
        lemma_records_chain_append(a, bucket, n, m - 1, k);
        lemma_bucket_bytes_len(bucket, m - 1);
        let prev = a + bucket_bytes(bucket, m - 1);
        let it = bucket[m - 1];
        let area = a + bucket_bytes(bucket, m);
        assert(area =~= prev + spec_record(it.spec_key(), it.spec_value()));
        lemma_appended_record(prev, n + m - 1, it.spec_key(), it.spec_value());
        assert forall|i: int| 0 <= i < RECORD_BYTES * (n + m - 1) implies prev[i] == area[i] by {}
        lemma_records_chain_prefix(prev, area, n + m - 1, k);
        assert(bucket.subrange(0, m) =~= bucket.subrange(0, m - 1).push(it));
        lemma_chain_push(bucket.subrange(0, m - 1), it, k);
        if it.spec_key() == k {
            assert((records_chain(a, n, k) + chain_of(bucket.subrange(0, m - 1), k)).push(
                it.spec_value(),
            ) =~= records_chain(a, n, k) + chain_of(bucket.subrange(0, m - 1), k).push(
                it.spec_value(),
            ));
        }
    }
}

/// The chains encoded in the first `b` buckets' records: a key's chain
/// once its home bucket has been written out, nothing before that.
proof fn lemma_snapshot_area_chains(bs: Seq<Vec<Item>>, cap: int, b: int, k: u32)
    requires
        cap >= 1,
        bs.len() == cap,
        buckets_wf(bs, cap),
        0 <= b <= cap,
    ensures
        records_chain(buckets_bytes(bs, b), total_items(bs, b) as int, k) == if spec_hash_mod(k, cap)
            < b {
            chain_of(bs[spec_hash_mod(k, cap)]@, k)
        } else {
            Seq::<Seq<u8>>::empty()
        },
    decreases b,
{
    if b > 0 {
        let hb = spec_hash_mod(k, cap);
        lemma_snapshot_area_chains(bs, cap, b - 1, k);
        lemma_buckets_bytes_len(bs, cap, b - 1);
        assert forall|q: int| 0 <= q < bs[b - 1]@.len() implies (#[trigger] bs[b
            - 1]@[q]).wf() by {}
        lemma_records_chain_append(
            buckets_bytes(bs, b - 1),
            bs[b - 1]@,
            total_items(bs, b - 1) as int,
            bs[b - 1]@.len() as int,
            k,
        );
        assert(bs[b - 1]@.subrange(0, bs[b - 1]@.len() as int) =~= bs[b - 1]@);
        if hb != b - 1 {
            assert forall|j: int| 0 <= j < bs[b - 1]@.len() implies (#[trigger] bs[b
                - 1]@[j]).spec_key() != k by {
                if bs[b - 1]@[j].spec_key() == k {
                    assert(spec_hash_mod(k, cap) == b - 1);
                }
            }
            lemma_chain_no_match(bs[b - 1]@, k);
        }
        if hb < b {
            assert(records_chain(buckets_bytes(bs, b), total_items(bs, b) as int, k) =~= chain_of(
                bs[hb]@,
                k,
            ));
        } else {
            assert(records_chain(buckets_bytes(bs, b), total_items(bs, b) as int, k) =~= Seq::<
                Seq<u8>,
            >::empty());
        }
    }
}

proof fn lemma_total_items_prefix_le(bs: Seq<Vec<Item>>, b: int, n: int)
    requires
        0 <= b <= n,
    ensures
        total_items(bs, b) <= total_items(bs, n),
    decreases n - b,
{
    if b < n {
        lemma_total_items_prefix_le(bs, b + 1, n);
    }
}

impl MemoryHashTable {
    /// The snapshot blob of this table: its capacity and live-entry count
    /// as big-endian words, then every entry as one fixed record, in
    /// bucket order.
    pub closed spec fn spec_snapshot(self) -> Seq<u8> {
        spec_key_bytes(self.capacity as u32) + spec_key_bytes(self.size as u32) + buckets_bytes(
            self.buckets@,
            self.capacity as int,
        )
    }

    /// Serializes the whole table to its snapshot blob.
    pub fn snapshot_bytes(&self) -> (r: Vec<u8>)
        requires
            self.wf(),
            self.spec_capacity() <= 0xffff_ffff,
            self.spec_size() <= 0xffff_ffff,
            2 * KEY_BYTES + RECORD_BYTES * self.spec_size() <= usize::MAX,
        ensures
            r@ == self.spec_snapshot(),
            r@.len() == 2 * KEY_BYTES + RECORD_BYTES * self.spec_size(),
    {
        let ghost cap = self.capacity as int;
        let mut out = encode_key(self.capacity as u32);
        let second = encode_key(self.size as u32);
        out.push(second[0]);
        out.push(second[1]);
        out.push(second[2]);
        out.push(second[3]);
        proof {
            assert(out@ =~= spec_key_bytes(self.capacity as u32) + spec_key_bytes(
                self.size as u32,
            ));
            assert(buckets_bytes(self.buckets@, 0) =~= Seq::<u8>::empty());
            assert(out@ + buckets_bytes(self.buckets@, 0) =~= out@);
        }
        let ghost header = out@;
        let mut b: usize = 0;
        while b < self.capacity
            invariant
                self.wf(),
                b <= self.capacity,
                cap == self.capacity as int,
                self.spec_size() <= 0xffff_ffff,
                2 * KEY_BYTES + RECORD_BYTES * self.spec_size() <= usize::MAX,
                header.len() == 2 * KEY_BYTES,
                out@ == header + buckets_bytes(self.buckets@, b as int),
                out@.len() == 2 * KEY_BYTES + RECORD_BYTES * total_items(self.buckets@, b as int),
            decreases self.capacity - b,
        {
            let bucket = &self.buckets[b];
            let n = bucket.len();
            let mut j: usize = 0;
            proof {
                assert(bucket_bytes(bucket@, 0) =~= Seq::<u8>::empty());
                assert(out@ + bucket_bytes(bucket@, 0) =~= out@);
            }
            while j < n
                invariant
                    self.wf(),
                    b < self.capacity,
                    cap == self.capacity as int,
                    self.spec_size() <= 0xffff_ffff,
                    2 * KEY_BYTES + RECORD_BYTES * self.spec_size() <= usize::MAX,
                    header.len() == 2 * KEY_BYTES,
                    j <= n,
                    n == bucket@.len(),
                    bucket@ == self.buckets@[b as int]@,
                    out@ == header + buckets_bytes(self.buckets@, b as int) + bucket_bytes(
                        bucket@,
                        j as int,
                    ),
                    out@.len() == 2 * KEY_BYTES + RECORD_BYTES * (total_items(
                        self.buckets@,
                        b as int,
                    ) + j),
                decreases n - j,
            {
                proof {
                    lemma_total_items_prefix_le(self.buckets@, b as int + 1, cap);
                    assert(total_items(self.buckets@, b as int + 1) == total_items(
                        self.buckets@,
                        b as int,
                    ) + n);
                    assert(out@.len() + RECORD_BYTES <= usize::MAX);
                }
                let it = &bucket[j];
                append_record(&mut out, it.key(), it.value());
                proof {
                    assert(out@ =~= header + buckets_bytes(self.buckets@, b as int)
                        + bucket_bytes(bucket@, j + 1));
                }
                j = j + 1;
            }
            proof {
                assert(out@ =~= header + buckets_bytes(self.buckets@, b as int + 1));
            }
            b = b + 1;
        }
        out
    }

    /// Decodes a snapshot blob back into an equivalent table: same
    /// capacity, same entry count, and, key by key, the same chain of
    /// values.  Reports `DecodeFailure` exactly when the blob is
    /// malformed: shorter than its header, a zero capacity, or a length
    /// that does not match its entry count.
    pub fn restore(bytes: &Vec<u8>) -> (r: Result<MemoryHashTable, StoreError>)
        ensures
            match r {
                Ok(t) => {
                    &&& bytes@.len() >= 2 * KEY_BYTES
                    &&& t.wf()
                    &&& t.spec_capacity() == spec_key_of_bytes(
                        bytes@[0],
                        bytes@[1],
                        bytes@[2],
                        bytes@[3],
                    )
                    &&& t.spec_size() == spec_key_of_bytes(
                        bytes@[4],
                        bytes@[5],
                        bytes@[6],
                        bytes@[7],
                    )
                    &&& bytes@.len() == 2 * KEY_BYTES + RECORD_BYTES * t.spec_size()
                    &&& forall|k: u32|
                        #[trigger] t.spec_chain(k) == records_chain(
                            bytes@.subrange(2 * KEY_BYTES as int, bytes@.len() as int),
                            t.spec_size(),
                            k,
                        )
                },
                Err(e) => {
                    &&& e == StoreError::DecodeFailure
                    &&& (bytes@.len() < 2 * KEY_BYTES || spec_key_of_bytes(
                        bytes@[0],
                        bytes@[1],
                        bytes@[2],
                        bytes@[3],
                    ) == 0 || bytes@.len() != 2 * KEY_BYTES + RECORD_BYTES * spec_key_of_bytes(
                        bytes@[4],
                        bytes@[5],
                        bytes@[6],
                        bytes@[7],
                    ))
                },
            },
    {
        if bytes.len() < 2 * KEY_BYTES {
            return Err(StoreError::DecodeFailure);
        }
        let cap32 = decode_key(bytes[0], bytes[1], bytes[2], bytes[3]);
        let count32 = decode_key(bytes[4], bytes[5], bytes[6], bytes[7]);
        if cap32 == 0 {
            return Err(StoreError::DecodeFailure);
        }
        let expected: u64 = 2 * (KEY_BYTES as u64) + (RECORD_BYTES as u64) * (count32 as u64);
        if (bytes.len() as u64) != expected {
            return Err(StoreError::DecodeFailure);
        }
        let count = count32 as usize;
        let cap = cap32 as usize;
        let ghost icap = cap as int;
        // copy the record area so records are indexed from zero
        let mut area: Vec<u8> = Vec::new();
        let total = bytes.len();
        let mut p: usize = 2 * KEY_BYTES;
        while p < total
            invariant
                2 * KEY_BYTES <= p <= total,
                total == bytes@.len(),
                area@ == bytes@.subrange(2 * KEY_BYTES as int, p as int),
            decreases total - p,
        {
            area.push(bytes[p]);
            proof {
                assert(area@ =~= bytes@.subrange(2 * KEY_BYTES as int, p + 1));
            }
            p = p + 1;
        }
        let mut t = MemoryHashTable::new(cap);
        proof {
            assert forall|k: u32| #[trigger] t.spec_chain(k) == records_chain(area@, 0, k) by {
                assert(records_chain(area@, 0, k) =~= Seq::<Seq<u8>>::empty());
                lemma_view_chain(t, k);
                if t.spec_chain(k).len() != 0 {
                    assert(t@.dom().contains(k));
                }
                assert(t.spec_chain(k) =~= Seq::<Seq<u8>>::empty());
            }
        }
        let mut e: usize = 0;
        while e < count
            invariant
                t.wf(),
                e <= count,
                count <= 0xffff_ffff,
                t.spec_capacity() == icap,
                icap >= 1,
                area@.len() == RECORD_BYTES * count,
                t.spec_size() == e,
                forall|k: u32|
                    #[trigger] t.spec_chain(k) == records_chain(area@, e as int, k),
            decreases count - e,
        {
            let key = read_record_key(&area, e);
            let value = read_record_value(&area, e);
            t.raw_append(key, value);
            e = e + 1;
        }
        proof {
            assert(area@ =~= bytes@.subrange(2 * KEY_BYTES as int, bytes@.len() as int));
        }
        Ok(t)
    }

    /// Appends one entry to its bucket without a load-factor check: the
    /// restore path, which re-chains a decoded snapshot at its recorded
    /// capacity.
    fn raw_append(&mut self, key: u32, value: Vec<u8>)
        requires
            old(self).wf(),
            value@.len() == VALUE_BYTES,
            old(self).spec_size() < usize::MAX,
        ensures
            final(self).wf(),
            final(self).spec_capacity() == old(self).spec_capacity(),
            final(self).spec_size() == old(self).spec_size() + 1,
            forall|k: u32|
                #[trigger] final(self).spec_chain(k) == (if k == key {
                    old(self).spec_chain(k).push(value@)
                } else {
                    old(self).spec_chain(k)
                }),
    {
        let b = self.hash(key);
        let item = Item::new(key, value);
        let ghost bs0 = self.buckets@;
        let ghost cap = self.capacity as int;
        self.buckets[b].push(item);
        self.size = self.size + 1;
        proof {
            assert(self.buckets@[b as int]@ =~= bs0[b as int]@.push(item));
            assert forall|q: int| 0 <= q < cap && q != b implies (#[trigger] bs0[q])@.len()
                == self.buckets@[q]@.len() by {}
            lemma_total_items_update(bs0, self.buckets@, cap, b as int);
            assert forall|k: u32| #[trigger] chain_of(
                self.buckets@[spec_hash_mod(k, cap)]@,
                k,
            ) == (if k == key {
                chain_of(bs0[spec_hash_mod(k, cap)]@, k).push(value@)
            } else {
                chain_of(bs0[spec_hash_mod(k, cap)]@, k)
            }) by {
                if spec_hash_mod(k, cap) == b as int {
                    lemma_chain_push(bs0[b as int]@, item, k);
                }
            }
        }
    }
}

/// Persist/restore round trip: a table's snapshot blob decodes back to
/// the table's own contents.  Its header words are the capacity and the
/// entry count, its length matches that count, and its record area holds,
/// for every key, exactly that key's chain — so a restore of the blob
/// (which `restore`'s contract ties to these same header words and
/// chains) yields a table with the same capacity, size and entries.
pub proof fn lemma_snapshot_round_trip(t: MemoryHashTable, k: u32)
    requires
        t.wf(),
        t.spec_capacity() <= 0xffff_ffff,
        t.spec_size() <= 0xffff_ffff,
    ensures
        t.spec_snapshot().len() == 2 * KEY_BYTES + RECORD_BYTES * t.spec_size(),
        spec_key_of_bytes(
            t.spec_snapshot()[0],
            t.spec_snapshot()[1],
            t.spec_snapshot()[2],
            t.spec_snapshot()[3],
        ) == t.spec_capacity(),
        spec_key_of_bytes(
            t.spec_snapshot()[4],
            t.spec_snapshot()[5],
            t.spec_snapshot()[6],
            t.spec_snapshot()[7],
        ) == t.spec_size(),
        records_chain(
            t.spec_snapshot().subrange(2 * KEY_BYTES as int, t.spec_snapshot().len() as int),
            t.spec_size(),
            k,
        ) == t.spec_chain(k),
{
    let cap = t.spec_capacity();
    let snap = t.spec_snapshot();
    lemma_buckets_bytes_len(t.buckets@, cap, cap);
    lemma_key_bytes_round_trip(t.capacity as u32);
    lemma_key_bytes_round_trip(t.size as u32);
    let area = snap.subrange(2 * KEY_BYTES as int, snap.len() as int);
    assert(area =~= buckets_bytes(t.buckets@, cap));
    lemma_snapshot_area_chains(t.buckets@, cap, cap, k);
}

/// The view stores exactly the non-empty chains: a key is present when
/// its chain is non-empty, and it maps to that chain.
pub proof fn lemma_view_chain(t: MemoryHashTable, k: u32)
    ensures
        t@.dom().contains(k) == (t.spec_chain(k).len() != 0),
        t@.dom().contains(k) ==> t@[k] == t.spec_chain(k),
{
}

/// Round trip: after an insert of `(key, value)` the key is stored, a
/// fresh key's lookup returns exactly `value`, and a key that already had
/// entries keeps its oldest value first — so an earlier insert's lookup
/// result stands until that entry is removed.
pub proof fn lemma_round_trip(
    pre: Map<u32, Seq<Seq<u8>>>,
    post: Map<u32, Seq<Seq<u8>>>,
    key: u32,
    value: Seq<u8>,
)
    requires
        post == pre.insert(
            key,
            (if pre.dom().contains(key) {
                pre[key]
            } else {
                Seq::empty()
            }).push(value),
        ),
    ensures
        post.dom().contains(key),
        !pre.dom().contains(key) ==> post[key] == seq![value],
        pre.dom().contains(key) && pre[key].len() >= 1 ==> post[key][0] == pre[key][0],
{
    if !pre.dom().contains(key) {
        assert(Seq::<Seq<u8>>::empty().push(value) =~= seq![value]);
    }
}

/// Post-removal miss: removing a key's only entry leaves the table
/// without that key, so a subsequent lookup fails.  (A key inserted more
/// than once keeps its younger entries: removal drops only the oldest.)
pub proof fn lemma_post_removal_miss(
    pre: Map<u32, Seq<Seq<u8>>>,
    post: Map<u32, Seq<Seq<u8>>>,
    key: u32,
)
    requires
        post == pre.remove(key),
    ensures
        !post.dom().contains(key),
{
}

/// Growth preserves membership: doubling the table rewrites no chain, so
/// every stored key keeps its values; an insert, growth or not, changes
/// only the inserted key's chain.
pub proof fn lemma_growth_preserves_membership(
    pre: Map<u32, Seq<Seq<u8>>>,
    post: Map<u32, Seq<Seq<u8>>>,
    key: u32,
    value: Seq<u8>,
)
    requires
        post == pre.insert(
            key,
            (if pre.dom().contains(key) {
                pre[key]
            } else {
                Seq::empty()
            }).push(value),
        ),
    ensures
        forall|k2: u32| pre.dom().contains(k2) ==> post.dom().contains(k2),
        forall|k2: u32| pre.dom().contains(k2) && k2 != key ==> post[k2] == pre[k2],
{
}

} // verus!
