//! The fixed-record file store: a flat file of consecutive 100-byte
//! records, addressed by key through sequential scans.
//!
//! The functions here are the computational core of the store: they build,
//! scan and compact the file's byte image.  The caller owns the physical
//! file and hands its contents in as a byte vector.

use vstd::prelude::*;
use rand::Rng;
use crate::codec::append_record;
use crate::codec::is_alnum_value;
use crate::codec::lemma_appended_record;
use crate::codec::lemma_same_record;
use crate::codec::read_record_key;
use crate::codec::read_record_value;
use crate::codec::record_count;
use crate::codec::record_key_at;
use crate::codec::record_value_at;
use crate::codec::spec_record;
use crate::codec::write_record_at;
use crate::codec::RECORD_BYTES;
use crate::codec::VALUE_BYTES;

verus! {

/// Relies on rand 0.8: `thread_rng()` sampled through the `Alphanumeric`
/// distribution yields only ASCII alphanumeric bytes (`0-9`, `A-Z`,
/// `a-z`), one per sample.
#[verifier::external_body]
fn random_alnum_bytes() -> (r: Vec<u8>)
    ensures
        is_alnum_value(r@),
{
    rand::thread_rng()
        .sample_iter(rand::distributions::Alphanumeric)
        .take(VALUE_BYTES)
        .collect()
}

/// One generated record: a sequence number and a 96-byte generated name.
#[derive(Debug)]
pub struct Registro {
    nseq: u32,
    nome: Vec<u8>,
}

impl Registro {
    /// The sequence number of this record.
    pub closed spec fn spec_nseq(self) -> u32 {
        self.nseq
    }

    /// The name bytes of this record.
    pub closed spec fn spec_nome(self) -> Seq<u8> {
        self.nome@
    }

    /// Whether the record carries a name of the fixed record width.
    pub open spec fn wf(self) -> bool {
        self.spec_nome().len() == VALUE_BYTES
    }

    /// Builds a record with the given sequence number and a freshly
    /// generated alphanumeric name.
    pub fn new(nseq: u32) -> (r: Registro)
        ensures
            r.wf(),
            r.spec_nseq() == nseq,
            is_alnum_value(r.spec_nome()),
    {
        Registro { nseq, nome: random_alnum_bytes() }
    }

    /// Replaces the sequence number and regenerates the name.
    pub fn update(&mut self, nseq: u32)
        ensures
            final(self).wf(),
            final(self).spec_nseq() == nseq,
            is_alnum_value(final(self).spec_nome()),
    {
        self.nseq = nseq;
        self.nome = random_alnum_bytes();
    }

    /// Builds a record from a sequence number and explicit name bytes.
    pub fn from_parts(nseq: u32, nome: Vec<u8>) -> (r: Registro)
        requires
            nome@.len() == VALUE_BYTES,
        ensures
            r.wf(),
            r.spec_nseq() == nseq,
            r.spec_nome() == nome@,
    {
        Registro { nseq, nome }
    }

    /// The sequence number.
    pub fn get_nseq(&self) -> (r: u32)
        ensures
            r == self.spec_nseq(),
    {
        self.nseq
    }

    /// A copy of the name bytes.
    pub fn get_nome(&self) -> (r: Vec<u8>)
        ensures
            r@ == self.spec_nome(),
    {
        let mut r: Vec<u8> = Vec::new();
        let mut j: usize = 0;
        while j < self.nome.len()
            invariant
                j <= self.nome@.len(),
                r@ == self.nome@.subrange(0, j as int),
            decreases self.nome@.len() - j,
        {
            r.push(self.nome[j]);
            proof {
                assert(r@ =~= self.nome@.subrange(0, j + 1));
            }
            j = j + 1;
        }
        proof {
            assert(r@ =~= self.nome@);
        }
        r
    }
}

/// The concatenation of the first `n` whole records of `data` whose key
/// differs from `key`: the image left by a delete-by-compaction pass.
pub open spec fn spec_compact(data: Seq<u8>, n: int, key: u32) -> Seq<u8>
    decreases n,
{
    if n <= 0 {
        Seq::empty()
    } else if record_key_at(data, n - 1) == key {
        spec_compact(data, n - 1, key)
    } else {
        spec_compact(data, n - 1, key)
            + data.subrange(RECORD_BYTES * (n - 1), RECORD_BYTES * n)
    }
}

/// The fixed-record file store.  `file_name` names the backing file,
/// `file_size` counts the records written at creation, and `buffer_size`
/// is the number of records per write chunk when the file is produced.
#[derive(Debug)]
pub struct Arquivo {
    file_name: String,
    file_size: u32,
    buffer_size: u32,
}

impl Arquivo {
    /// The name of the backing file.
    pub closed spec fn spec_file_name(self) -> Seq<char> {
        self.file_name@
    }

    /// The number of records the store was created with.
    pub closed spec fn spec_file_size(self) -> u32 {
        self.file_size
    }

    /// The number of records per write chunk.
    pub closed spec fn spec_buffer_size(self) -> u32 {
        self.buffer_size
    }

    /// Builds a store description.  Buffer size is measured in records;
    /// every record is 100 bytes.
    pub fn new(number_of_registers: u32, buffer_size: u32, file_name: String) -> (r: Arquivo)
        ensures
            r.spec_file_size() == number_of_registers,
            r.spec_buffer_size() == buffer_size,
            r.spec_file_name() == file_name@,
    {
        Arquivo { file_name, file_size: number_of_registers, buffer_size }
    }

    /// A borrow of the backing file's name.
    pub fn get_file_name(&self) -> (r: &String)
        ensures
            r@ == self.spec_file_name(),
    {
        &self.file_name
    }

    /// Builds the full byte image of a fresh store: `file_size` records,
    /// keyed by their sequence number, each with a generated name.
    pub fn write_in_file(&self) -> (r: Vec<u8>)
        requires
            RECORD_BYTES * self.spec_file_size() <= usize::MAX,
        ensures
            r@.len() == RECORD_BYTES * self.spec_file_size(),
            forall|q: int|
                0 <= q < self.spec_file_size() ==> #[trigger] record_key_at(r@, q) == q,
            forall|q: int|
                0 <= q < self.spec_file_size()
                    ==> is_alnum_value(#[trigger] record_value_at(r@, q)),
    {
        let mut data: Vec<u8> = Vec::new();
        let mut i: u32 = 0;
        while i < self.file_size
            invariant
                i <= self.file_size,
                RECORD_BYTES * self.file_size <= usize::MAX,
                data@.len() == RECORD_BYTES * i,
                forall|q: int| 0 <= q < i ==> #[trigger] record_key_at(data@, q) == q,
                forall|q: int|
                    0 <= q < i ==> is_alnum_value(#[trigger] record_value_at(data@, q)),
            decreases self.file_size - i,
        {
            let reg = Registro::new(i);
            let ghost pre = data@;
            append_record(&mut data, i, &reg.nome);
            proof {
                lemma_appended_record(pre, i as int, i, reg.nome@);
                assert forall|q: int| 0 <= q < i + 1 implies #[trigger] record_key_at(data@, q)
                    == q by {
                    if q < i {
                        lemma_same_record(pre, data@, q);
                    }
                }
                assert forall|q: int| 0 <= q < i + 1 implies is_alnum_value(
                    #[trigger] record_value_at(data@, q),
                ) by {
                    if q < i {
                        lemma_same_record(pre, data@, q);
                    }
                }
            }
            i = i + 1;
        }
        data
    }

    /// Scans the byte image sequentially for the first record whose key is
    /// `nseq`.  Sequence numbers beyond the store's record count are
    /// rejected without scanning, as at creation no such record exists.
    pub fn sequential_read(&self, data: &Vec<u8>, nseq: u32) -> (r: Option<Registro>)
        ensures
            match r {
                Some(reg) => {
                    &&& nseq <= self.spec_file_size()
                    &&& reg.wf()
                    &&& reg.spec_nseq() == nseq
                    &&& exists|i: int|
                        {
                            &&& 0 <= i < record_count(data@)
                            &&& #[trigger] record_key_at(data@, i) == nseq
                            &&& forall|j: int| 0 <= j < i ==> record_key_at(data@, j) != nseq
                            &&& reg.spec_nome() == record_value_at(data@, i)
                        }
                },
                None => nseq > self.spec_file_size() || forall|i: int|
                    0 <= i < record_count(data@) ==> record_key_at(data@, i) != nseq,
            },
    {
        if nseq > self.file_size {
            return None;
        }
        let n = data.len();
        let count = n / RECORD_BYTES;
        let mut i: usize = 0;
        while i < count
            invariant
                i <= count,
                count == record_count(data@),
                RECORD_BYTES * count <= data@.len(),
                nseq <= self.spec_file_size(),
                forall|j: int| 0 <= j < i ==> record_key_at(data@, j) != nseq,
            decreases count - i,
        {
            proof {
                assert(RECORD_BYTES * (i + 1) <= RECORD_BYTES * count);
            }
            let key = read_record_key(data, i);
            if key == nseq {
                let nome = read_record_value(data, i);
                let r = Registro::from_parts(nseq, nome);
                proof {
                    assert((i as int) < record_count(data@)
                        && record_key_at(data@, i as int) == nseq
                        && (forall|j: int| 0 <= j < i ==> record_key_at(data@, j) != nseq)
                        && r.spec_nome() == record_value_at(data@, i as int));
                }
                return Some(r);
            }
            i = i + 1;
        }
        None
    }

    /// Appends one freshly generated record, keyed by the store's current
    /// record count, at the end of the byte image.
    pub fn insert_at_end(&mut self, data: &mut Vec<u8>)
        requires
            old(self).spec_file_size() < u32::MAX,
            old(data)@.len() + RECORD_BYTES <= usize::MAX,
        ensures
            final(self).spec_file_size() == old(self).spec_file_size() + 1,
            final(self).spec_file_name() == old(self).spec_file_name(),
            final(self).spec_buffer_size() == old(self).spec_buffer_size(),
            exists|v: Seq<u8>|
                is_alnum_value(v) && final(data)@ == old(data)@
                    + #[trigger] spec_record(old(self).spec_file_size(), v),
    {
        let reg = Registro::new(self.file_size);
        append_record(data, self.file_size, &reg.nome);
        self.file_size = self.file_size + 1;
    }

    /// Overwrites the record slot `nseq` of the byte image with a freshly
    /// generated record keyed `nseq`.
    pub fn update_random(&self, data: &mut Vec<u8>, nseq: u32)
        requires
            RECORD_BYTES * (nseq + 1) <= old(data)@.len(),
        ensures
            final(data)@.len() == old(data)@.len(),
            record_key_at(final(data)@, nseq as int) == nseq,
            is_alnum_value(record_value_at(final(data)@, nseq as int)),
            forall|p: int|
                0 <= p < old(data)@.len()
                    && !(RECORD_BYTES * nseq <= p < RECORD_BYTES * (nseq + 1))
                    ==> final(data)@[p] == old(data)@[p],
    {
        let reg = Registro::new(nseq);
        write_record_at(data, nseq as usize, nseq, &reg.nome);
    }

    /// Deletes every record keyed `nseq` by a single compaction pass: all
    /// other records are rewritten contiguously from the start, so the
    /// image shrinks by one record width per deleted record.  Returns
    /// whether a matching record was found.
    pub fn delete_register(&self, data: &mut Vec<u8>, nseq: u32) -> (found: bool)
        ensures
            final(data)@ == spec_compact(old(data)@, record_count(old(data)@), nseq),
            found == exists|i: int|
                0 <= i < record_count(old(data)@) && #[trigger] record_key_at(old(data)@, i) == nseq,
    {
        let n = data.len();
        let count = n / RECORD_BYTES;
        let mut out: Vec<u8> = Vec::new();
        let mut found = false;
        let mut i: usize = 0;
        while i < count
            invariant
                i <= count,
                count == record_count(data@),
                RECORD_BYTES * count <= data@.len(),
                data@.len() <= usize::MAX,
                data@ == old(data)@,
                out@ == spec_compact(data@, i as int, nseq),
                out@.len() <= RECORD_BYTES * i,
                found == exists|q: int|
                    0 <= q < i && #[trigger] record_key_at(data@, q) == nseq,
            decreases count - i,
        {
            let key = read_record_key(data, i);
            if key == nseq {
                found = true;
            } else {
                let mut j: usize = 0;
                let ghost pre = out@;
                while j < RECORD_BYTES
                    invariant
                        j <= RECORD_BYTES,
                        i < count,
                        count == record_count(data@),
                        RECORD_BYTES * count <= data@.len(),
                        data@.len() <= usize::MAX,
                        pre.len() <= RECORD_BYTES * i,
                        out@ == pre
                            + data@.subrange(
                            RECORD_BYTES * (i as int),
                            RECORD_BYTES * (i as int) + j,
                        ),
                    decreases RECORD_BYTES - j,
                {
                    out.push(data[RECORD_BYTES * i + j]);
                    proof {
                        assert(out@ =~= pre
                            + data@.subrange(
                            RECORD_BYTES * (i as int),
                            RECORD_BYTES * (i as int) + j + 1,
                        ));
                    }
                    j = j + 1;
                }
            }
            i = i + 1;
        }
        *data = out;
        found
    }
}

} // verus!
