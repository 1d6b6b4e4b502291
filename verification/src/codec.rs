//! The record codec: the fixed binary layout of one (key, value) pair.
//!
//! A record is exactly 100 bytes: bytes `[0, 4)` hold the key in big-endian
//! order and bytes `[4, 100)` hold the value, one byte per character.  The
//! reserved key `0xffff_ffff` marks an empty slot; a real key never equals
//! it.

use vstd::prelude::*;

verus! {

/// Total size of one encoded record in bytes.
pub const RECORD_BYTES: usize = 100;

/// Size of the encoded key in bytes.
pub const KEY_BYTES: usize = 4;

/// Size of the encoded value in bytes.
pub const VALUE_BYTES: usize = 96;

/// The reserved key that marks an empty slot.
pub const EMPTY_ITEM_KEY: u32 = 0xffff_ffff;

/// The byte that fills the value of an empty slot.
pub const EMPTY_ITEM_FILLER: u8 = 120;

/// The four bytes of `k` in big-endian order.
pub open spec fn spec_key_bytes(k: u32) -> Seq<u8> {
    seq![
        (k >> 24) as u8,
        (k >> 16) as u8,
        (k >> 8) as u8,
        k as u8,
    ]
}

/// The key read back from four bytes in big-endian order.
pub open spec fn spec_key_of_bytes(b0: u8, b1: u8, b2: u8, b3: u8) -> u32 {
    ((b0 as u32) << 24) | ((b1 as u32) << 16) | ((b2 as u32) << 8) | (b3 as u32)
}

/// The full 100-byte encoding of a record.
pub open spec fn spec_record(k: u32, v: Seq<u8>) -> Seq<u8>
    recommends
        v.len() == VALUE_BYTES,
{
    spec_key_bytes(k) + v
}

/// The value of an empty slot: 96 repetitions of the filler byte.
pub open spec fn spec_filler_value() -> Seq<u8> {
    Seq::new(VALUE_BYTES as nat, |i: int| EMPTY_ITEM_FILLER)
}

/// How many whole records a byte image holds.
pub open spec fn record_count(data: Seq<u8>) -> int {
    data.len() as int / RECORD_BYTES as int
}

/// The key of the record at index `i` of a byte image.
pub open spec fn record_key_at(data: Seq<u8>, i: int) -> u32
    recommends
        0 <= i,
        RECORD_BYTES * (i + 1) <= data.len(),
{
    spec_key_of_bytes(
        data[RECORD_BYTES * i],
        data[RECORD_BYTES * i + 1],
        data[RECORD_BYTES * i + 2],
        data[RECORD_BYTES * i + 3],
    )
}

/// The value bytes of the record at index `i` of a byte image.
pub open spec fn record_value_at(data: Seq<u8>, i: int) -> Seq<u8>
    recommends
        0 <= i,
        RECORD_BYTES * (i + 1) <= data.len(),
{
    data.subrange(RECORD_BYTES * i + KEY_BYTES as int, RECORD_BYTES * (i + 1))
}

/// Whether a byte is an ASCII digit or letter.
pub open spec fn is_alnum_byte(b: u8) -> bool {
    (48 <= b && b <= 57) || (65 <= b && b <= 90) || (97 <= b && b <= 122)
}

/// Whether a byte sequence is a well-formed generated value: exactly 96
/// ASCII alphanumeric bytes.
pub open spec fn is_alnum_value(v: Seq<u8>) -> bool {
    &&& v.len() == VALUE_BYTES
    &&& forall|i: int| 0 <= i < v.len() ==> is_alnum_byte(v[i])
}

/// Reading the four big-endian bytes of a key back yields the key.
pub proof fn lemma_key_bytes_round_trip(k: u32)
    ensures
        spec_key_of_bytes(
            (k >> 24) as u8,
            (k >> 16) as u8,
            (k >> 8) as u8,
            k as u8,
        ) == k,
{
    assert((((((k >> 24) as u8) as u32) << 24) | ((((k >> 16) as u8) as u32) << 16)
        | ((((k >> 8) as u8) as u32) << 8) | ((k as u8) as u32)) == k) by (bit_vector);
}

/// Writes the four big-endian key bytes of `k`.
pub fn encode_key(k: u32) -> (r: Vec<u8>)
    ensures
        r@ == spec_key_bytes(k),
{
    let mut r: Vec<u8> = Vec::new();
    r.push((k >> 24) as u8);
    r.push((k >> 16) as u8);
    r.push((k >> 8) as u8);
    r.push(k as u8);
    proof {
        assert(r@ =~= spec_key_bytes(k));
    }
    r
}

/// Reads a key from its four big-endian bytes.
pub fn decode_key(b0: u8, b1: u8, b2: u8, b3: u8) -> (r: u32)
    ensures
        r == spec_key_of_bytes(b0, b1, b2, b3),
{
    ((b0 as u32) << 24) | ((b1 as u32) << 16) | ((b2 as u32) << 8) | (b3 as u32)
}

/// Two byte images that agree on the bytes of record `q` hold the same
/// record there.
pub proof fn lemma_same_record(d1: Seq<u8>, d2: Seq<u8>, q: int)
    requires
        0 <= q,
        RECORD_BYTES * (q + 1) <= d1.len(),
        RECORD_BYTES * (q + 1) <= d2.len(),
        forall|j: int| RECORD_BYTES * q <= j < RECORD_BYTES * (q + 1) ==> d1[j] == d2[j],
    ensures
        record_key_at(d1, q) == record_key_at(d2, q),
        record_value_at(d1, q) == record_value_at(d2, q),
{
    assert(d1[RECORD_BYTES * q] == d2[RECORD_BYTES * q]);
    assert(d1[RECORD_BYTES * q + 1] == d2[RECORD_BYTES * q + 1]);
    assert(d1[RECORD_BYTES * q + 2] == d2[RECORD_BYTES * q + 2]);
    assert(d1[RECORD_BYTES * q + 3] == d2[RECORD_BYTES * q + 3]);
    assert(record_value_at(d1, q) =~= record_value_at(d2, q));
}

/// A record appended at the end of an image is read back intact.
pub proof fn lemma_appended_record(d: Seq<u8>, i: int, k: u32, v: Seq<u8>)
    requires
        v.len() == VALUE_BYTES,
        0 <= i,
        d.len() == RECORD_BYTES * i,
    ensures
        record_key_at(d + spec_record(k, v), i) == k,
        record_value_at(d + spec_record(k, v), i) == v,
{
    let e = d + spec_record(k, v);
    assert(e[RECORD_BYTES * i] == (k >> 24) as u8);
    assert(e[RECORD_BYTES * i + 1] == (k >> 16) as u8);
    assert(e[RECORD_BYTES * i + 2] == (k >> 8) as u8);
    assert(e[RECORD_BYTES * i + 3] == k as u8);
    lemma_key_bytes_round_trip(k);
    assert(record_value_at(e, i) =~= v);
}

/// Builds the 96-byte filler value of an empty slot.
pub fn filler_value() -> (r: Vec<u8>)
    ensures
        r@ == spec_filler_value(),
{
    let mut r: Vec<u8> = Vec::new();
    let mut j: usize = 0;
    while j < VALUE_BYTES
        invariant
            j <= VALUE_BYTES,
            r@.len() == j,
            forall|m: int| 0 <= m < j ==> r@[m] == EMPTY_ITEM_FILLER,
        decreases VALUE_BYTES - j,
    {
        r.push(EMPTY_ITEM_FILLER);
        j = j + 1;
    }
    proof {
        assert(r@ =~= spec_filler_value());
    }
    r
}

/// Reads the key of the record at index `i` of a byte image.
pub fn read_record_key(data: &Vec<u8>, i: usize) -> (r: u32)
    requires
        RECORD_BYTES * (i + 1) <= data@.len(),
    ensures
        r == record_key_at(data@, i as int),
{
    let n = data.len();
    let base = RECORD_BYTES * i;
    decode_key(data[base], data[base + 1], data[base + 2], data[base + 3])
}

/// Copies the value bytes of the record at index `i` of a byte image.
pub fn read_record_value(data: &Vec<u8>, i: usize) -> (r: Vec<u8>)
    requires
        RECORD_BYTES * (i + 1) <= data@.len(),
    ensures
        r@ == record_value_at(data@, i as int),
{
    let n = data.len();
    let base = RECORD_BYTES * i + KEY_BYTES;
    let mut r: Vec<u8> = Vec::new();
    let mut j: usize = 0;
    while j < VALUE_BYTES
        invariant
            j <= VALUE_BYTES,
            base == RECORD_BYTES * i + KEY_BYTES,
            RECORD_BYTES * (i + 1) <= data@.len(),
            data@.len() <= usize::MAX,
            r@.len() == j,
            forall|m: int| 0 <= m < j ==> r@[m] == data@[base + m],
        decreases VALUE_BYTES - j,
    {
        r.push(data[base + j]);
        j = j + 1;
    }
    proof {
        assert(r@ =~= record_value_at(data@, i as int));
    }
    r
}

/// Overwrites the record at index `i` of a byte image with the encoding of
/// `(key, value)`, leaving every other byte unchanged.
pub fn write_record_at(data: &mut Vec<u8>, i: usize, key: u32, value: &Vec<u8>)
    requires
        value@.len() == VALUE_BYTES,
        RECORD_BYTES * (i + 1) <= old(data)@.len(),
    ensures
        final(data)@.len() == old(data)@.len(),
        record_key_at(final(data)@, i as int) == key,
        record_value_at(final(data)@, i as int) == value@,
        forall|p: int|
            0 <= p < old(data)@.len() && !(RECORD_BYTES * i <= p < RECORD_BYTES * (i + 1))
                ==> final(data)@[p] == old(data)@[p],
{
    let n = data.len();
    let base = RECORD_BYTES * i;
    data.set(base, (key >> 24) as u8);
    data.set(base + 1, (key >> 16) as u8);
    data.set(base + 2, (key >> 8) as u8);
    data.set(base + 3, key as u8);
    let mut j: usize = 0;
    while j < VALUE_BYTES
        invariant
            j <= VALUE_BYTES,
            base == RECORD_BYTES * i,
            value@.len() == VALUE_BYTES,
            RECORD_BYTES * (i + 1) <= data@.len(),
            data@.len() <= usize::MAX,
            data@.len() == old(data)@.len(),
            data@[base as int] == (key >> 24) as u8,
            data@[base + 1] == (key >> 16) as u8,
            data@[base + 2] == (key >> 8) as u8,
            data@[base + 3] == key as u8,
            forall|m: int| 0 <= m < j ==> data@[base + KEY_BYTES + m] == value@[m],
            forall|p: int|
                0 <= p < old(data)@.len() && !(base <= p < base + KEY_BYTES + j)
                    ==> data@[p] == old(data)@[p],
        decreases VALUE_BYTES - j,
    {
        data.set(base + KEY_BYTES + j, value[j]);
        j = j + 1;
    }
    proof {
        lemma_key_bytes_round_trip(key);
        assert(record_value_at(data@, i as int) =~= value@);
    }
}

/// Appends the encoding of `(key, value)` at the end of a byte image.
pub fn append_record(data: &mut Vec<u8>, key: u32, value: &Vec<u8>)
    requires
        value@.len() == VALUE_BYTES,
        old(data)@.len() + RECORD_BYTES <= usize::MAX,
    ensures
        final(data)@ == old(data)@ + spec_record(key, value@),
{
    data.push((key >> 24) as u8);
    data.push((key >> 16) as u8);
    data.push((key >> 8) as u8);
    data.push(key as u8);
    let mut j: usize = 0;
    while j < VALUE_BYTES
        invariant
            j <= VALUE_BYTES,
            value@.len() == VALUE_BYTES,
            data@ == old(data)@ + spec_key_bytes(key) + value@.subrange(0, j as int),
        decreases VALUE_BYTES - j,
    {
        data.push(value[j]);
        proof {
            assert(data@ =~= old(data)@ + spec_key_bytes(key) + value@.subrange(0, j + 1));
        }
        j = j + 1;
    }
    proof {
        assert(value@.subrange(0, VALUE_BYTES as int) =~= value@);
        assert(data@ =~= old(data)@ + spec_record(key, value@));
    }
}

/// One decoded (key, value) pair, as stored in a hash index.
#[derive(Debug)]
pub struct Item {
    key: u32,
    value: Vec<u8>,
}

impl Item {
    /// The key of this item.
    pub closed spec fn spec_key(self) -> u32 {
        self.key
    }

    /// The value bytes of this item.
    pub closed spec fn spec_value(self) -> Seq<u8> {
        self.value@
    }

    /// Whether the item carries a value of the fixed record width.
    pub open spec fn wf(self) -> bool {
        self.spec_value().len() == VALUE_BYTES
    }

    /// Builds an item from a key and a 96-byte value.
    pub fn new(key: u32, value: Vec<u8>) -> (r: Item)
        requires
            value@.len() == VALUE_BYTES,
        ensures
            r.wf(),
            r.spec_key() == key,
            r.spec_value() == value@,
    {
        Item { key, value }
    }

    /// The key of this item.
    pub fn key(&self) -> (r: u32)
        ensures
            r == self.spec_key(),
    {
        self.key
    }

    /// A borrow of this item's value bytes.
    pub fn value(&self) -> (r: &Vec<u8>)
        ensures
            r@ == self.spec_value(),
    {
        &self.value
    }
}

} // verus!
