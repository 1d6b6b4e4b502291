//! The disk-resident hash index: an open-addressed hash table whose
//! buckets are fixed-size pages mapped directly onto file offsets.
//!
//! The table works on the byte image of its backing file, held here as a
//! byte vector; the caller mirrors that image to the physical file after
//! every mutating call.  Each page holds one 100-byte slot; a slot is
//! either empty (its key is the sentinel `0xffff_ffff`) or holds a record
//! whose key hashes onto exactly that page.  Growth doubles the page count
//! and rewrites the whole image by rehashing every occupied slot.

use vstd::prelude::*;
use vstd::arithmetic::div_mod::lemma_mod_mod;
use vstd::arithmetic::power2::lemma2_to64;
use vstd::arithmetic::power2::lemma_pow2_pos;
use vstd::arithmetic::power2::lemma_pow2_unfold;
use vstd::arithmetic::power2::pow2;
use crate::StoreError;
use crate::codec::append_record;
use crate::codec::filler_value;
use crate::codec::lemma_appended_record;
use crate::codec::lemma_same_record;
use crate::codec::read_record_key;
use crate::codec::read_record_value;
use crate::codec::record_key_at;
use crate::codec::record_value_at;
use crate::codec::spec_filler_value;
use crate::codec::write_record_at;
use crate::codec::Item;
use crate::codec::EMPTY_ITEM_KEY;
use crate::codec::RECORD_BYTES;
use crate::codec::VALUE_BYTES;

verus! {

/// Number of record slots per page.
pub const ITEMS_PER_PAGE: usize = 1;

/// Whether slot `i` of a table image holds a record (a non-sentinel key).
pub open spec fn slot_occupied(im: Seq<u8>, i: int) -> bool {
    record_key_at(im, i) != EMPTY_ITEM_KEY
}

/// How many of the first `n` slots of a table image are occupied.
pub open spec fn count_occupied(im: Seq<u8>, n: int) -> nat
    decreases n,
{
    if n <= 0 {
        0
    } else {
        count_occupied(im, n - 1) + if slot_occupied(im, n - 1) {
            1nat
        } else {
            0nat
        }
    }
}

/// Every occupied slot of the image sits on its key's own page.
pub open spec fn image_home_ok(im: Seq<u8>, cap: int) -> bool {
    forall|i: int|
        0 <= i < cap && slot_occupied(im, i)
            ==> (#[trigger] record_key_at(im, i)) as int % cap == i
}

/// A well-formed table image: one slot per page, `cap` pages, every
/// occupied slot on its home page, and every empty slot carrying the
/// exact empty-slot bytes — the sentinel key and the 96 filler bytes —
/// since the image is mirrored verbatim to the backing file.
pub open spec fn image_wf(im: Seq<u8>, cap: int) -> bool {
    &&& 1 <= cap
    &&& cap <= 0xffff_ffff
    &&& im.len() == RECORD_BYTES * cap
    &&& image_home_ok(im, cap)
    &&& forall|i: int|
        0 <= i < cap && !(#[trigger] slot_occupied(im, i))
            ==> record_value_at(im, i) == spec_filler_value()
}

/// Whether the image stores key `k`: its home slot holds `k`.
pub open spec fn image_contains(im: Seq<u8>, cap: int, k: u32) -> bool
    recommends
        image_wf(im, cap),
{
    k != EMPTY_ITEM_KEY && record_key_at(im, k as int % cap) == k
}

/// The key-to-value map stored in a table image.
pub open spec fn image_map(im: Seq<u8>, cap: int) -> Map<u32, Seq<u8>>
    recommends
        image_wf(im, cap),
{
    Map::new(
        |k: u32| image_contains(im, cap, k),
        |k: u32| record_value_at(im, k as int % cap),
    )
}

/// No key of `m` hashes onto the page of `key` at capacity `cap`.
pub open spec fn home_page_free(m: Map<u32, Seq<u8>>, cap: int, key: u32) -> bool {
    forall|k2: u32|
        #[trigger] m.dom().contains(k2) ==> k2 as int % cap != key as int % cap
}

/// Whether repeated doubling from `cap` reaches a capacity at which no
/// key of `m` occupies the page of `key`.  One doubling step is
/// permitted while the capacity is within the growth guard: at most
/// `0x7fff_ffff` pages, and small enough that the doubled image still
/// fits in a byte vector.  An insert succeeds exactly when this holds
/// of the table it was called on.
pub open spec fn growth_reaches(m: Map<u32, Seq<u8>>, cap: int, key: u32) -> bool
    decreases 0x1_0000_0000 - cap,
{
    if home_page_free(m, cap, key) {
        true
    } else if 1 <= cap && cap <= 0x7fff_ffff && cap <= usize::MAX / 200 {
        growth_reaches(m, 2 * cap, key)
    } else {
        false
    }
}

/// A stored key blocks its own page at every capacity, so no growth can
/// ever free it: inserting a key a second time always fails.
pub proof fn lemma_growth_reaches_contains(m: Map<u32, Seq<u8>>, cap: int, key: u32)
    requires
        m.dom().contains(key),
    ensures
        !growth_reaches(m, cap, key),
    decreases 0x1_0000_0000 - cap,
{
    assert(!home_page_free(m, cap, key));
    if 1 <= cap && cap <= 0x7fff_ffff && cap <= usize::MAX / 200 {
        lemma_growth_reaches_contains(m, 2 * cap, key);
    }
}

proof fn lemma_count_occupied_all_empty(im: Seq<u8>, n: int)
    requires
        forall|i: int| 0 <= i < n ==> !slot_occupied(im, i),
    ensures
        count_occupied(im, n) == 0,
    decreases n,
{
    if n > 0 {
        lemma_count_occupied_all_empty(im, n - 1);
    }
}

proof fn lemma_count_occupied_congruence(im1: Seq<u8>, im2: Seq<u8>, n: int)
    requires
        forall|q: int| 0 <= q < n ==> slot_occupied(im1, q) == slot_occupied(im2, q),
    ensures
        count_occupied(im1, n) == count_occupied(im2, n),
    decreases n,
{
    if n > 0 {
        lemma_count_occupied_congruence(im1, im2, n - 1);
    }
}

/// Changing the image only inside slot `p` moves the occupied count by the
/// difference at `p`.
proof fn lemma_count_occupied_update(im1: Seq<u8>, im2: Seq<u8>, n: int, p: int)
    requires
        0 <= p < n,
        forall|q: int|
            0 <= q < n && q != p ==> slot_occupied(im1, q) == slot_occupied(im2, q),
    ensures
        count_occupied(im2, n) + (if slot_occupied(im1, p) {
            1nat
        } else {
            0nat
        }) == count_occupied(im1, n) + (if slot_occupied(im2, p) {
            1nat
        } else {
            0nat
        }),
    decreases n,
{
    if p == n - 1 {
        lemma_count_occupied_congruence(im1, im2, n - 1);
    } else {
        lemma_count_occupied_update(im1, im2, n - 1, p);
    }
}

/// Builds the byte image of an empty table: `cap` pages of sentinel slots.
fn make_empty_image(cap: usize) -> (r: Vec<u8>)
    requires
        1 <= cap,
        RECORD_BYTES * cap <= usize::MAX,
    ensures
        r@.len() == RECORD_BYTES * cap,
        forall|i: int| 0 <= i < cap ==> #[trigger] record_key_at(r@, i) == EMPTY_ITEM_KEY,
        forall|i: int|
            0 <= i < cap ==> #[trigger] record_value_at(r@, i) == spec_filler_value(),
{
    let filler = filler_value();
    let mut data: Vec<u8> = Vec::new();
    let mut i: usize = 0;
    while i < cap
        invariant
            i <= cap,
            RECORD_BYTES * cap <= usize::MAX,
            filler@ == spec_filler_value(),
            data@.len() == RECORD_BYTES * i,
            forall|q: int| 0 <= q < i ==> #[trigger] record_key_at(data@, q) == EMPTY_ITEM_KEY,
            forall|q: int|
                0 <= q < i ==> #[trigger] record_value_at(data@, q) == spec_filler_value(),
        decreases cap - i,
    {
        let ghost pre = data@;
        append_record(&mut data, EMPTY_ITEM_KEY, &filler);
        proof {
            lemma_appended_record(pre, i as int, EMPTY_ITEM_KEY, filler@);
            assert forall|q: int| 0 <= q < i + 1 implies #[trigger] record_key_at(data@, q)
                == EMPTY_ITEM_KEY by {
                if q < i {
                    lemma_same_record(pre, data@, q);
                }
            }
            assert forall|q: int| 0 <= q < i + 1 implies #[trigger] record_value_at(data@, q)
                == spec_filler_value() by {
                if q < i {
                    lemma_same_record(pre, data@, q);
                }
            }
        }
        i = i + 1;
    }
    data
}

/// The disk-resident hash index.  `size` counts the live entries,
/// `capacity` the pages, `file_name` names the backing file, and `image`
/// is the byte image of that file.
#[derive(Debug)]
pub struct DynamicHashTable {
    size: usize,
    capacity: usize,
    file_name: String,
    image: Vec<u8>,
}

impl View for DynamicHashTable {
    type V = Map<u32, Seq<u8>>;

    /// The key-to-value map this table stores.
    closed spec fn view(&self) -> Map<u32, Seq<u8>> {
        image_map(self.image@, self.capacity as int)
    }
}

impl DynamicHashTable {
    /// The number of live entries.
    pub closed spec fn spec_size(self) -> int {
        self.size as int
    }

    /// The number of pages.
    pub closed spec fn spec_capacity(self) -> int {
        self.capacity as int
    }

    /// The byte image of the backing file.
    pub closed spec fn spec_image(self) -> Seq<u8> {
        self.image@
    }

    /// The name of the backing file.
    pub closed spec fn spec_file_name(self) -> Seq<char> {
        self.file_name@
    }

    /// The table's internal invariant: a well-formed image whose page
    /// count fits the machine, and a size counter equal to the number of
    /// occupied slots.
    pub closed spec fn wf(self) -> bool {
        &&& image_wf(self.image@, self.capacity as int)
        &&& RECORD_BYTES * self.capacity <= usize::MAX
        &&& self.size == count_occupied(self.image@, self.capacity as int)
    }

    /// Creates an empty table of `initial_capacity` pages, every slot set
    /// to the sentinel key and the filler value.
    pub fn new(initial_capacity: usize, file_name: String) -> (r: DynamicHashTable)
        requires
            1 <= initial_capacity,
            initial_capacity <= 0xffff_ffff,
            RECORD_BYTES * initial_capacity <= usize::MAX,
        ensures
            r.wf(),
            r@ == Map::<u32, Seq<u8>>::empty(),
            r.spec_size() == 0,
            r.spec_capacity() == initial_capacity,
            r.spec_file_name() == file_name@,
            r.spec_image().len() == RECORD_BYTES * initial_capacity,
            forall|i: int|
                0 <= i < initial_capacity
                    ==> #[trigger] record_key_at(r.spec_image(), i) == EMPTY_ITEM_KEY,
            forall|i: int|
                0 <= i < initial_capacity
                    ==> #[trigger] record_value_at(r.spec_image(), i) == spec_filler_value(),
    {
        let image = make_empty_image(initial_capacity);
        let r = DynamicHashTable { size: 0, capacity: initial_capacity, file_name, image };
        proof {
            assert forall|i: int|
                0 <= i < initial_capacity implies !slot_occupied(r.image@, i) by {}
            lemma_count_occupied_all_empty(r.image@, initial_capacity as int);
            assert(r@ =~= Map::<u32, Seq<u8>>::empty());
        }
        r
    }

    /// The page index of `key`: the key reduced modulo the capacity.
    pub fn hash(&self, key: u32) -> (r: u64)
        requires
            self.wf(),
        ensures
            r == key as int % self.spec_capacity(),
    {
        (key as u64) % (self.capacity as u64)
    }

    /// The number of pages.
    pub fn get_capacity(&self) -> (r: usize)
        ensures
            r == self.spec_capacity(),
    {
        self.capacity
    }

    /// The number of live entries (the maintained counter, not a rescan
    /// of the image).
    pub fn get_size(&self) -> (r: usize)
        ensures
            r == self.spec_size(),
    {
        self.size
    }

    /// A borrow of the byte image of the backing file, for the caller to
    /// mirror to disk.
    pub fn file_image(&self) -> (r: &Vec<u8>)
        ensures
            r@ == self.spec_image(),
    {
        &self.image
    }

    /// A borrow of the backing file's name.
    pub fn get_file_name(&self) -> (r: &String)
        ensures
            r@ == self.spec_file_name(),
    {
        &self.file_name
    }

    /// Looks the key up on its page.  Returns the stored record, or
    /// `KeyNotFound` exactly when the key is absent; the sentinel key is
    /// never treated as stored.
    pub fn read_key(&self, key: u32) -> (r: Result<Item, StoreError>)
        requires
            self.wf(),
        ensures
            match r {
                Ok(item) => {
                    &&& self@.dom().contains(key)
                    &&& item.wf()
                    &&& item.spec_key() == key
                    &&& item.spec_value() == self@[key]
                },
                Err(e) => e == StoreError::KeyNotFound && !self@.dom().contains(key),
            },
    {
        let p = ((key as u64) % (self.capacity as u64)) as usize;
        let slot_key = read_record_key(&self.image, p);
        if slot_key != EMPTY_ITEM_KEY && slot_key == key {
            let value = read_record_value(&self.image, p);
            let item = Item::new(key, value);
            proof {
                assert(self@.dom().contains(key));
            }
            Ok(item)
        } else {
            proof {
                assert(!image_contains(self.image@, self.capacity as int, key));
            }
            Err(StoreError::KeyNotFound)
        }
    }

    /// Inserts `(key, value)` into the first free slot of the key's page.
    /// A key that is already stored can never be placed — its own page is
    /// occupied by it at every capacity — so the page scan detects it and
    /// reports `GrowthFailure` at once, leaving the table unchanged.
    /// Otherwise, while the page is full and the growth guard permits,
    /// the whole table is rehashed at double the capacity; the insert
    /// succeeds exactly when some permitted run of doublings frees the
    /// key's page (`growth_reaches`), and it stops growing at the first
    /// capacity that does.  Capacity never decreases, and without growth
    /// the image changes in the key's slot alone.
    pub fn insert(&mut self, key: u32, value: &Vec<u8>) -> (r: Result<(), StoreError>)
        requires
            old(self).wf(),
            key != EMPTY_ITEM_KEY,
            value@.len() == VALUE_BYTES,
        ensures
            final(self).wf(),
            final(self).spec_capacity() >= old(self).spec_capacity(),
            final(self).spec_file_name() == old(self).spec_file_name(),
            match r {
                Ok(()) => {
                    &&& !old(self)@.dom().contains(key)
                    &&& final(self)@ == old(self)@.insert(key, value@)
                    &&& final(self).spec_size() == old(self).spec_size() + 1
                    &&& home_page_free(old(self)@, final(self).spec_capacity(), key)
                },
                Err(e) => {
                    &&& e == StoreError::GrowthFailure
                    &&& final(self)@ == old(self)@
                    &&& final(self).spec_size() == old(self).spec_size()
                },
            },
            r is Ok <==> growth_reaches(old(self)@, old(self).spec_capacity(), key),
            r is Err && old(self)@.dom().contains(key) ==> final(self).spec_capacity() == old(
                self,
            ).spec_capacity() && final(self).spec_image() == old(self).spec_image(),
            home_page_free(old(self)@, old(self).spec_capacity(), key)
                ==> final(self).spec_capacity() == old(self).spec_capacity(),
            r is Ok && !home_page_free(old(self)@, old(self).spec_capacity(), key)
                ==> final(self).spec_capacity() >= 2 * old(self).spec_capacity(),
            final(self).spec_capacity() != old(self).spec_capacity()
                ==> !home_page_free(old(self)@, final(self).spec_capacity() / 2, key),
            exists|m: nat|
                final(self).spec_capacity() == old(self).spec_capacity() * #[trigger] pow2(m),
            r is Ok && final(self).spec_capacity() == old(self).spec_capacity() ==> {
                &&& final(self).spec_image().len() == old(self).spec_image().len()
                &&& record_key_at(
                    final(self).spec_image(),
                    key as int % old(self).spec_capacity(),
                ) == key
                &&& record_value_at(
                    final(self).spec_image(),
                    key as int % old(self).spec_capacity(),
                ) == value@
                &&& forall|pb: int|
                    0 <= pb < old(self).spec_image().len() && !(RECORD_BYTES * (key as int % old(
                        self,
                    ).spec_capacity()) <= pb < RECORD_BYTES * (key as int % old(
                        self,
                    ).spec_capacity() + 1)) ==> final(self).spec_image()[pb] == old(
                        self,
                    ).spec_image()[pb]
            },
    {
        proof {
            lemma2_to64();
            assert(old(self).spec_capacity() == old(self).spec_capacity() * pow2(0));
        }
        loop
            invariant
                old(self).wf(),
                self.wf(),
                key != EMPTY_ITEM_KEY,
                value@.len() == VALUE_BYTES,
                self@ == old(self)@,
                self.spec_size() == old(self).spec_size(),
                self.spec_capacity() >= old(self).spec_capacity(),
                self.spec_file_name() == old(self).spec_file_name(),
                home_page_free(old(self)@, old(self).spec_capacity(), key)
                    ==> self.spec_capacity() == old(self).spec_capacity(),
                old(self)@.dom().contains(key) ==> self.spec_capacity() == old(
                    self,
                ).spec_capacity(),
                growth_reaches(old(self)@, old(self).spec_capacity(), key)
                    ==> growth_reaches(old(self)@, self.spec_capacity(), key),
                growth_reaches(old(self)@, self.spec_capacity(), key) ==> growth_reaches(
                    old(self)@,
                    old(self).spec_capacity(),
                    key,
                ),
                self.spec_capacity() != old(self).spec_capacity() ==> !home_page_free(
                    old(self)@,
                    self.spec_capacity() / 2,
                    key,
                ),
                self.spec_capacity() == old(self).spec_capacity() ==> self.spec_image() == old(
                    self,
                ).spec_image(),
                exists|m: nat|
                    self.spec_capacity() == old(self).spec_capacity() * #[trigger] pow2(m),
            decreases 0xffff_ffff - self.spec_capacity(),
        {
            let ghost cap = self.capacity as int;
            let ghost old_cap = old(self).spec_capacity();
            let p = ((key as u64) % (self.capacity as u64)) as usize;
            let slot_key = read_record_key(&self.image, p);
            if slot_key == EMPTY_ITEM_KEY {
                let ghost pre = self.image@;
                let ghost m0 = self@;
                proof {
                    assert(!image_contains(pre, cap, key));
                    lemma_count_occupied_le(pre, cap);
                    // the free home slot means no stored key shares this page
                    assert forall|k2: u32| #[trigger] m0.dom().contains(k2) implies k2 as int % cap
                        != key as int % cap by {
                        if k2 as int % cap == key as int % cap {
                            assert(image_contains(pre, cap, k2));
                            assert(slot_occupied(pre, p as int));
                        }
                    }
                    assert(home_page_free(old(self)@, cap, key));
                    if cap != old_cap {
                        // a capacity reached by doubling is at least double
                        let m = choose|m: nat| cap == old_cap * pow2(m);
                        lemma2_to64();
                        assert(m != 0) by {
                            if m == 0 {
                                assert(cap == old_cap * 1);
                            }
                        }
                        lemma_pow2_unfold(m);
                        lemma_pow2_pos((m - 1) as nat);
                        assert(cap >= 2 * old_cap) by (nonlinear_arith)
                            requires
                                cap == old_cap * pow2(m),
                                pow2(m) >= 2,
                                old_cap >= 1,
                        ;
                    }
                }
                write_record_at(&mut self.image, p, key, value);
                proof {
                    assert forall|q: int| 0 <= q < cap && q != p implies slot_occupied(pre, q)
                        == #[trigger] slot_occupied(self.image@, q) by {
                        lemma_same_record(pre, self.image@, q);
                    }
                    lemma_count_occupied_update(pre, self.image@, cap, p as int);
                }
                self.size = self.size + 1;
                proof {
                    assert forall|q: int|
                        0 <= q < cap && slot_occupied(self.image@, q) implies (
                    #[trigger] record_key_at(self.image@, q)) as int % cap == q by {
                        if q != p {
                            lemma_same_record(pre, self.image@, q);
                        }
                    }
                    assert(image_home_ok(self.image@, cap));
                    assert forall|q: int|
                        0 <= q < cap && !(#[trigger] slot_occupied(self.image@, q)) implies
                        record_value_at(self.image@, q) == spec_filler_value() by {
                        if q != p {
                            lemma_same_record(pre, self.image@, q);
                        }
                    }
                    assert forall|k2: u32| #[trigger] image_contains(self.image@, cap, k2)
                        <==> (m0.dom().contains(k2) || k2 == key) by {
                        if k2 != key && k2 as int % cap != p as int {
                            lemma_same_record(pre, self.image@, k2 as int % cap);
                        }
                    }
                    assert forall|k2: u32| #[trigger] image_contains(self.image@, cap, k2)
                        && k2 != key implies record_value_at(self.image@, k2 as int % cap)
                        == m0[k2] by {
                        lemma_same_record(pre, self.image@, k2 as int % cap);
                    }
                    assert(self@ =~= m0.insert(key, value@));
                }
                return Ok(());
            } else if slot_key == key {
                // the key is already stored: its own page can never come
                // free, so no amount of growth would place the pair
                proof {
                    assert(image_contains(self.image@, cap, key));
                    assert(self@.dom().contains(key));
                    lemma_growth_reaches_contains(old(self)@, old_cap, key);
                }
                return Err(StoreError::GrowthFailure);
            } else {
                proof {
                    let k2 = record_key_at(self.image@, p as int);
                    assert(slot_occupied(self.image@, p as int));
                    assert(k2 as int % cap == p as int);
                    assert(image_contains(self.image@, cap, k2));
                    assert(self@.dom().contains(k2));
                    assert(!home_page_free(self@, cap, key));
                }
                if self.capacity > 0x7fff_ffff || self.capacity > usize::MAX / 200 {
                    proof {
                        assert(!growth_reaches(old(self)@, cap, key));
                    }
                    return Err(StoreError::GrowthFailure);
                }
                let ghost m_pre = self@;
                let new_image = rehash_grown(&self.image, self.capacity);
                let new_cap = 2 * self.capacity;
                proof {
                    assert forall|k2: u32| #[trigger] m_pre.dom().contains(k2)
                        && k2 as int % (2 * cap) == key as int % (2 * cap) implies
                        k2 as int % cap == key as int % cap by {
                        lemma_mod_mod(k2 as int, cap, 2);
                        lemma_mod_mod(key as int, cap, 2);
                    }
                    // the capacity chain: one more doubling
                    let m = choose|m: nat| cap == old_cap * pow2(m);
                    lemma_pow2_unfold(m + 1);
                    assert(2 * cap == old_cap * pow2(m + 1)) by (nonlinear_arith)
                        requires
                            cap == old_cap * pow2(m),
                            pow2(m + 1) == 2 * pow2(m),
                    ;
                }
                self.image = new_image;
                self.capacity = new_cap;
            }
        }
    }

    /// Removes the key from its page by overwriting its slot with the
    /// sentinel key and the filler value — an immediate reuse, with no
    /// compaction.  Reports `KeyNotFound` exactly when the key is absent;
    /// the sentinel key is never treated as stored.
    pub fn remove_key(&mut self, key: u32) -> (r: Result<(), StoreError>)
        requires
            old(self).wf(),
        ensures
            final(self).wf(),
            final(self).spec_capacity() == old(self).spec_capacity(),
            final(self).spec_file_name() == old(self).spec_file_name(),
            match r {
                Ok(()) => {
                    &&& old(self)@.dom().contains(key)
                    &&& final(self)@ == old(self)@.remove(key)
                    &&& final(self).spec_size() == old(self).spec_size() - 1
                    &&& final(self).spec_image().len() == old(self).spec_image().len()
                    &&& record_key_at(
                        final(self).spec_image(),
                        key as int % old(self).spec_capacity(),
                    ) == EMPTY_ITEM_KEY
                    &&& record_value_at(
                        final(self).spec_image(),
                        key as int % old(self).spec_capacity(),
                    ) == spec_filler_value()
                    &&& forall|pb: int|
                        0 <= pb < old(self).spec_image().len() && !(RECORD_BYTES * (key as int
                            % old(self).spec_capacity()) <= pb < RECORD_BYTES * (key as int % old(
                            self,
                        ).spec_capacity() + 1)) ==> final(self).spec_image()[pb] == old(
                            self,
                        ).spec_image()[pb]
                },
                Err(e) => {
                    &&& e == StoreError::KeyNotFound
                    &&& !old(self)@.dom().contains(key)
                    &&& final(self)@ == old(self)@
                    &&& final(self).spec_size() == old(self).spec_size()
                    &&& final(self).spec_image() == old(self).spec_image()
                },
            },
    {
        let ghost cap = self.capacity as int;
        let p = ((key as u64) % (self.capacity as u64)) as usize;
        let slot_key = read_record_key(&self.image, p);
        if slot_key != EMPTY_ITEM_KEY && slot_key == key {
            let ghost pre = self.image@;
            let ghost m0 = self@;
            let filler = filler_value();
            proof {
                assert(image_contains(pre, cap, key));
                assert(m0.dom().contains(key));
            }
            write_record_at(&mut self.image, p, EMPTY_ITEM_KEY, &filler);
            proof {
                assert forall|q: int| 0 <= q < cap && q != p implies slot_occupied(pre, q)
                    == #[trigger] slot_occupied(self.image@, q) by {
                    lemma_same_record(pre, self.image@, q);
                }
                lemma_count_occupied_update(pre, self.image@, cap, p as int);
            }
            self.size = self.size - 1;
            proof {
                assert forall|q: int|
                    0 <= q < cap && slot_occupied(self.image@, q) implies (
                #[trigger] record_key_at(self.image@, q)) as int % cap == q by {
                    if q != p {
                        lemma_same_record(pre, self.image@, q);
                    }
                }
                assert(image_home_ok(self.image@, cap));
                assert forall|q: int|
                    0 <= q < cap && !(#[trigger] slot_occupied(self.image@, q)) implies
                    record_value_at(self.image@, q) == spec_filler_value() by {
                    if q != p {
                        lemma_same_record(pre, self.image@, q);
                    }
                }
                assert forall|k2: u32| #[trigger] image_contains(self.image@, cap, k2)
                    <==> (m0.dom().contains(k2) && k2 != key) by {
                    if k2 != key && k2 as int % cap != p as int {
                        lemma_same_record(pre, self.image@, k2 as int % cap);
                    }
                }
                assert forall|k2: u32| #[trigger] image_contains(self.image@, cap, k2)
                    implies record_value_at(self.image@, k2 as int % cap) == m0[k2] by {
                    lemma_same_record(pre, self.image@, k2 as int % cap);
                }
                assert(self@ =~= m0.remove(key));
            }
            Ok(())
        } else {
            proof {
                assert(!image_contains(self.image@, cap, key));
            }
            Err(StoreError::KeyNotFound)
        }
    }

    /// Decodes every slot of the image, in page order, sentinel slots
    /// included: the input of the rehash algorithm and of diagnostic
    /// listings.
    pub fn read_all_table(&self) -> (r: Vec<Item>)
        requires
            self.wf(),
        ensures
            r@.len() == self.spec_capacity(),
            forall|i: int|
                0 <= i < self.spec_capacity()
                    ==> (#[trigger] r@[i]).spec_key() == record_key_at(self.spec_image(), i),
            forall|i: int|
                0 <= i < self.spec_capacity()
                    ==> (#[trigger] r@[i]).spec_value() == record_value_at(self.spec_image(), i),
            forall|i: int| 0 <= i < self.spec_capacity() ==> (#[trigger] r@[i]).wf(),
    {
        let mut r: Vec<Item> = Vec::new();
        let mut i: usize = 0;
        while i < self.capacity
            invariant
                i <= self.capacity,
                self.wf(),
                r@.len() == i,
                forall|q: int|
                    0 <= q < i
                        ==> (#[trigger] r@[q]).spec_key() == record_key_at(self.spec_image(), q),
                forall|q: int|
                    0 <= q < i
                        ==> (#[trigger] r@[q]).spec_value()
                            == record_value_at(self.spec_image(), q),
                forall|q: int| 0 <= q < i ==> (#[trigger] r@[q]).wf(),
            decreases self.capacity - i,
        {
            let key = read_record_key(&self.image, i);
            let value = read_record_value(&self.image, i);
            r.push(Item::new(key, value));
            i = i + 1;
        }
        r
    }
}

/// How many slots are occupied never exceeds the slot count.
pub proof fn lemma_count_occupied_le(im: Seq<u8>, n: int)
    ensures
        count_occupied(im, n) <= if n <= 0 {
            0int
        } else {
            n
        },
    decreases n,
{
    if n > 0 {
        lemma_count_occupied_le(im, n - 1);
    }
}

/// Rebuilds the image at double the capacity: every occupied slot is
/// rehashed onto its home page of the doubled table.  Doubling never
/// collides: two keys that agree modulo `2 * cap` agree modulo `cap`, so
/// they already shared a page, and a page holds one slot.
fn rehash_grown(image: &Vec<u8>, cap: usize) -> (r: Vec<u8>)
    requires
        image_wf(image@, cap as int),
        2 * cap <= 0xffff_ffff,
        RECORD_BYTES * (2 * cap) <= usize::MAX,
    ensures
        image_wf(r@, 2 * cap as int),
        image_map(r@, 2 * cap as int) == image_map(image@, cap as int),
        count_occupied(r@, 2 * cap as int) == count_occupied(image@, cap as int),
{
    let n = 2 * cap;
    let ghost icap = cap as int;
    let ghost ncap = n as int;
    proof {
        assert(RECORD_BYTES * n <= usize::MAX);
    }
    let mut out = make_empty_image(n);
    proof {
        assert forall|q: int| 0 <= q < ncap implies !slot_occupied(out@, q) by {}
        lemma_count_occupied_all_empty(out@, ncap);
    }
    let mut i: usize = 0;
    while i < cap
        invariant
            i <= cap,
            n == 2 * cap,
            icap == cap as int,
            ncap == n as int,
            image_wf(image@, icap),
            RECORD_BYTES * n <= usize::MAX,
            out@.len() == RECORD_BYTES * n,
            count_occupied(out@, ncap) == count_occupied(image@, i as int),
            // every processed occupied slot landed on its doubled home page
            forall|q: int|
                0 <= q < i && #[trigger] slot_occupied(image@, q)
                    ==> record_key_at(out@, record_key_at(image@, q) as int % ncap)
                        == record_key_at(image@, q),
            forall|q: int|
                0 <= q < i && #[trigger] slot_occupied(image@, q)
                    ==> record_value_at(out@, record_key_at(image@, q) as int % ncap)
                        == record_value_at(image@, q),
            // every occupied slot of the new image came from a processed one
            forall|p: int|
                0 <= p < ncap && #[trigger] slot_occupied(out@, p)
                    ==> record_key_at(out@, p) as int % ncap == p,
            forall|p: int|
                0 <= p < ncap && #[trigger] slot_occupied(out@, p)
                    ==> record_key_at(out@, p) as int % icap < i,
            forall|p: int|
                0 <= p < ncap && #[trigger] slot_occupied(out@, p)
                    ==> record_key_at(image@, record_key_at(out@, p) as int % icap)
                        == record_key_at(out@, p),
            forall|p: int|
                0 <= p < ncap && #[trigger] slot_occupied(out@, p)
                    ==> record_value_at(out@, p)
                        == record_value_at(image@, record_key_at(out@, p) as int % icap),
            // untouched slots keep the exact empty-slot bytes
            forall|p: int|
                0 <= p < ncap && !(#[trigger] slot_occupied(out@, p))
                    ==> record_value_at(out@, p) == spec_filler_value(),
        decreases cap - i,
    {
        let k = read_record_key(image, i);
        if k != EMPTY_ITEM_KEY {
            let v = read_record_value(image, i);
            let p = ((k as u64) % (n as u64)) as usize;
            let ghost out_pre = out@;
            proof {
                assert(slot_occupied(image@, i as int));
                assert(k as int % icap == i as int);
                if slot_occupied(out@, p as int) {
                    let k2 = record_key_at(out@, p as int);
                    lemma_mod_mod(k2 as int, icap, 2);
                    lemma_mod_mod(k as int, icap, 2);
                    assert(k2 as int % icap == k as int % icap);
                    assert(false);
                }
            }
            write_record_at(&mut out, p, k, &v);
            proof {
                assert forall|q: int| 0 <= q < ncap && q != p implies slot_occupied(out_pre, q)
                    == #[trigger] slot_occupied(out@, q) by {
                    lemma_same_record(out_pre, out@, q);
                }
                lemma_count_occupied_update(out_pre, out@, ncap, p as int);
                assert forall|q: int|
                    0 <= q < i + 1 && #[trigger] slot_occupied(image@, q) implies record_key_at(
                    out@,
                    record_key_at(image@, q) as int % ncap,
                ) == record_key_at(image@, q) by {
                    if q < i {
                        let kq = record_key_at(image@, q);
                        if kq as int % ncap == p as int {
                            lemma_mod_mod(kq as int, icap, 2);
                            lemma_mod_mod(k as int, icap, 2);
                            assert(kq as int % icap == q);
                            assert(false);
                        } else {
                            lemma_same_record(out_pre, out@, kq as int % ncap);
                        }
                    }
                }
                assert forall|q: int|
                    0 <= q < i + 1 && #[trigger] slot_occupied(image@, q) implies record_value_at(
                    out@,
                    record_key_at(image@, q) as int % ncap,
                ) == record_value_at(image@, q) by {
                    if q < i {
                        let kq = record_key_at(image@, q);
                        if kq as int % ncap == p as int {
                            lemma_mod_mod(kq as int, icap, 2);
                            lemma_mod_mod(k as int, icap, 2);
                            assert(false);
                        } else {
                            lemma_same_record(out_pre, out@, kq as int % ncap);
                        }
                    }
                }
                assert forall|p2: int|
                    0 <= p2 < ncap && #[trigger] slot_occupied(out@, p2) implies record_key_at(
                    out@,
                    p2,
                ) as int % ncap == p2 by {
                    if p2 != p {
                        lemma_same_record(out_pre, out@, p2);
                    }
                }
                assert forall|p2: int|
                    0 <= p2 < ncap && #[trigger] slot_occupied(out@, p2) implies record_key_at(
                    out@,
                    p2,
                ) as int % icap < i + 1 by {
                    if p2 != p {
                        lemma_same_record(out_pre, out@, p2);
                    } else {
                        lemma_mod_mod(k as int, icap, 2);
                    }
                }
                assert forall|p2: int|
                    0 <= p2 < ncap && #[trigger] slot_occupied(out@, p2) implies record_key_at(
                    image@,
                    record_key_at(out@, p2) as int % icap,
                ) == record_key_at(out@, p2) by {
                    if p2 != p {
                        lemma_same_record(out_pre, out@, p2);
                    } else {
                        lemma_mod_mod(k as int, icap, 2);
                    }
                }
                assert forall|p2: int|
                    0 <= p2 < ncap && #[trigger] slot_occupied(out@, p2) implies record_value_at(
                    out@,
                    p2,
                ) == record_value_at(image@, record_key_at(out@, p2) as int % icap) by {
                    if p2 != p {
                        lemma_same_record(out_pre, out@, p2);
                    } else {
                        lemma_mod_mod(k as int, icap, 2);
                    }
                }
                assert forall|p2: int|
                    0 <= p2 < ncap && !(#[trigger] slot_occupied(out@, p2)) implies
                    record_value_at(out@, p2) == spec_filler_value() by {
                    if p2 != p {
                        lemma_same_record(out_pre, out@, p2);
                    }
                }
            }
        }
        i = i + 1;
    }
    proof {
        assert(image_home_ok(out@, ncap));
        assert forall|k2: u32| #[trigger] image_contains(out@, ncap, k2)
            <==> image_contains(image@, icap, k2) by {
            if image_contains(image@, icap, k2) {
                assert(slot_occupied(image@, k2 as int % icap));
            }
            if image_contains(out@, ncap, k2) {
                assert(slot_occupied(out@, k2 as int % ncap));
            }
        }
        assert forall|k2: u32| #[trigger] image_contains(out@, ncap, k2) implies
            record_value_at(out@, k2 as int % ncap)
                == record_value_at(image@, k2 as int % icap) by {
            assert(slot_occupied(out@, k2 as int % ncap));
            assert(slot_occupied(image@, k2 as int % icap));
        }
        assert(image_map(out@, ncap) =~= image_map(image@, icap));
    }
    out
}

/// What the invariant guarantees of the byte image that callers mirror
/// to the backing file: the image is well formed — its length is the
/// page count times the record width, every occupied slot sits on its
/// key's home page, and every empty slot holds the sentinel key and the
/// 96 filler bytes — the stored map read off the image is exactly the
/// table's view, and the size counter counts the occupied slots.
pub proof fn lemma_wf_image(t: DynamicHashTable)
    requires
        t.wf(),
    ensures
        image_wf(t.spec_image(), t.spec_capacity()),
        t@ == image_map(t.spec_image(), t.spec_capacity()),
        t.spec_size() == count_occupied(t.spec_image(), t.spec_capacity()),
{
}

/// Round trip: a table whose contents are those of `pre` extended with
/// `(key, value)` — what a successful insert leaves behind — maps `key`
/// to `value`, so a lookup of `key` succeeds and returns `value`.
pub proof fn lemma_round_trip(pre: Map<u32, Seq<u8>>, post: Map<u32, Seq<u8>>, key: u32, value: Seq<u8>)
    requires
        post == pre.insert(key, value),
    ensures
        post.dom().contains(key),
        post[key] == value,
{
}

/// Post-removal miss: a table whose contents are those of `pre` with
/// `key` removed — what a successful removal leaves behind — no longer
/// contains `key`, so a lookup of `key` fails.
pub proof fn lemma_post_removal_miss(pre: Map<u32, Seq<u8>>, post: Map<u32, Seq<u8>>, key: u32)
    requires
        post == pre.remove(key),
    ensures
        !post.dom().contains(key),
{
}

/// Growth preserves membership: an insert, whether or not it grew the
/// table on the way, keeps every previously stored key retrievable with
/// its original value.
pub proof fn lemma_growth_preserves_membership(
    pre: Map<u32, Seq<u8>>,
    post: Map<u32, Seq<u8>>,
    key: u32,
    value: Seq<u8>,
)
    requires
        post == pre.insert(key, value),
    ensures
        forall|k2: u32| pre.dom().contains(k2) ==> post.dom().contains(k2),
        forall|k2: u32| pre.dom().contains(k2) && k2 != key ==> post[k2] == pre[k2],
{
}

/// Sentinel exclusion: no table ever stores the sentinel key, whatever
/// sequence of operations produced it.
pub proof fn lemma_sentinel_never_stored(t: DynamicHashTable)
    ensures
        !t@.dom().contains(EMPTY_ITEM_KEY),
{
}

} // verus!
