//! The Bloom filter: a probabilistic set over byte strings built from two
//! base hashes (djb2 and sdbm) and, beyond two hash functions, the
//! Kirsch-Mitzenmacher extension `h0 + i * h1`.

use vstd::prelude::*;
use vstd::bytes::*;
use vstd::wrapping::u64_specs;
use vstd::wrapping::usize_specs;

use crate::bv::BitVec;
use crate::bv::BitVecV;
use crate::bv;
use crate::err::DbError;
use crate::srl;

verus! {

/// The djb2 hash of a byte string over 64-bit wrapping arithmetic:
/// `h := 5381; h := (h << 5) + h + b` for each byte `b`.
pub open spec fn spec_djb2(bytes: Seq<u8>) -> u64
    decreases bytes.len(),
{
    if bytes.len() == 0 {
        5381u64
    } else {
        let h = spec_djb2(bytes.drop_last());
        u64_specs::wrapping_add(u64_specs::wrapping_add(h << 5u64, h), bytes.last() as u64)
    }
}

/// The sdbm hash of a byte string over 64-bit wrapping arithmetic:
/// `h := 0; h := b + (h << 6) + (h << 16) - h` for each byte `b`.
pub open spec fn spec_sdbm(bytes: Seq<u8>) -> u64
    decreases bytes.len(),
{
    if bytes.len() == 0 {
        0u64
    } else {
        let h = spec_sdbm(bytes.drop_last());
        u64_specs::wrapping_sub(
            u64_specs::wrapping_add(
                u64_specs::wrapping_add(bytes.last() as u64, h << 6u64),
                h << 16u64,
            ),
            h,
        )
    }
}

/// The mathematical value of a [`BloomFilter`].
#[verifier::ext_equal]
pub struct BloomV {
    pub bits: BitVecV,
    pub hfn_cnt: nat,
    pub bit_cnt: nat,
}

impl BloomV {
    /// Well-formed: the bit vector is well-formed and covers the bit
    /// domain, there is at least one bit, and at least two hash functions.
    pub open spec fn wf(self) -> bool {
        &&& self.bits.wf()
        &&& 1 <= self.bit_cnt <= self.bits.size
        &&& 2 <= self.hfn_cnt < usize::MAX
    }

    /// The first base index: djb2 reduced modulo the bit domain.
    pub open spec fn h0(self, bytes: Seq<u8>) -> int {
        spec_djb2(bytes) as int % self.bit_cnt as int
    }

    /// The second base index: sdbm reduced modulo the bit domain.
    pub open spec fn h1(self, bytes: Seq<u8>) -> int {
        spec_sdbm(bytes) as int % self.bit_cnt as int
    }

    /// The Kirsch-Mitzenmacher index for hash function `i >= 3`:
    /// `(h0 + h1 * i)` in wrapping word arithmetic, modulo the bit domain.
    pub open spec fn km(self, bytes: Seq<u8>, i: int) -> int {
        (usize_specs::wrapping_add(
            self.h0(bytes) as usize,
            usize_specs::wrapping_mul(self.h1(bytes) as usize, i as usize),
        ) as int) % self.bit_cnt as int
    }

    /// The `k`-th bit index this filter probes for a byte string, for
    /// `0 <= k < hfn_cnt`: first the two base hashes, then the extension.
    pub open spec fn nth_index(self, bytes: Seq<u8>, k: int) -> int {
        if k == 0 {
            self.h0(bytes)
        } else if k == 1 {
            self.h1(bytes)
        } else {
            self.km(bytes, k + 1)
        }
    }

    /// Whether every probed bit of `bytes` is set: what `has` reports.
    pub open spec fn contains(self, bytes: Seq<u8>) -> bool {
        forall|k: int|
            0 <= k < self.hfn_cnt ==> self.bits.bit(#[trigger] self.nth_index(bytes, k))
    }

    /// The bit vector after setting the first `k` probed indices of `bytes`.
    pub open spec fn set_upto(self, bytes: Seq<u8>, k: int) -> BitVecV
        decreases k,
    {
        if k <= 0 {
            self.bits
        } else {
            self.set_upto(bytes, k - 1).set_bit(self.nth_index(bytes, k - 1))
        }
    }

    /// The filter after adding one element: every probed index set.
    pub open spec fn add_elt(self, bytes: Seq<u8>) -> BloomV {
        BloomV {
            bits: self.set_upto(bytes, self.hfn_cnt as int),
            hfn_cnt: self.hfn_cnt,
            bit_cnt: self.bit_cnt,
        }
    }

    /// The filter after adding a sequence of elements in order.
    pub open spec fn add_all(self, elems: Seq<Seq<u8>>) -> BloomV
        decreases elems.len(),
    {
        if elems.len() == 0 {
            self
        } else {
            self.add_all(elems.drop_last()).add_elt(elems.last())
        }
    }
}

/// Every probed index falls inside the bit domain.
pub proof fn lemma_nth_index_in_range(f: BloomV, bytes: Seq<u8>, k: int)
    requires
        f.wf(),
    ensures
        0 <= f.nth_index(bytes, k) < f.bit_cnt,
{
}

/// Setting the first `k` probed indices keeps the vector well-formed and
/// sets exactly the old bits plus those indices.
proof fn lemma_set_upto(f: BloomV, bytes: Seq<u8>, k: int)
    requires
        f.wf(),
        0 <= k,
    ensures
        f.set_upto(bytes, k).wf(),
        f.set_upto(bytes, k).size == f.bits.size,
        forall|j: int|
            0 <= j < f.bits.size ==> (#[trigger] f.set_upto(bytes, k).bit(j)) == (f.bits.bit(j)
                || exists|t: int| 0 <= t < k && f.nth_index(bytes, t) == j),
    decreases k,
{
    if k > 0 {
        lemma_set_upto(f, bytes, k - 1);
        let prev = f.set_upto(bytes, k - 1);
        let idx = f.nth_index(bytes, k - 1);
        lemma_nth_index_in_range(f, bytes, k - 1);
        bv::lemma_set_then_is_set(prev, idx);
        assert(f.set_upto(bytes, k) == prev.set_bit(idx));
        assert forall|j: int| 0 <= j < f.bits.size implies (#[trigger] f.set_upto(bytes, k).bit(
            j,
        )) == (f.bits.bit(j) || exists|t: int| 0 <= t < k && f.nth_index(bytes, t) == j) by {
            if j == idx {
                assert(f.set_upto(bytes, k).bit(j));
                assert(0 <= k - 1 < k && f.nth_index(bytes, k - 1) == j);
                assert(exists|t: int| 0 <= t < k && f.nth_index(bytes, t) == j);
            } else {
                assert(f.set_upto(bytes, k).bit(j) == prev.bit(j));
                assert(prev.bit(j) == (f.bits.bit(j) || exists|t: int|
                    0 <= t < k - 1 && f.nth_index(bytes, t) == j));
                if prev.bit(j) && !f.bits.bit(j) {
                    let t = choose|t: int| 0 <= t < k - 1 && f.nth_index(bytes, t) == j;
                    assert(0 <= t < k && f.nth_index(bytes, t) == j);
                    assert(exists|t2: int| 0 <= t2 < k && f.nth_index(bytes, t2) == j);
                }
                if exists|t: int| 0 <= t < k && f.nth_index(bytes, t) == j {
                    let t = choose|t: int| 0 <= t < k && f.nth_index(bytes, t) == j;
                    assert(t != k - 1);
                    assert(0 <= t < k - 1 && f.nth_index(bytes, t) == j);
                    assert(exists|t2: int| 0 <= t2 < k - 1 && f.nth_index(bytes, t2) == j);
                    assert(prev.bit(j));
                }
            }
        }
    }
}

/// Adding an element keeps the filter well-formed, keeps its parameters,
/// sets exactly the probed indices on top of the old bits, and in
/// particular makes the element report present.
pub proof fn lemma_add_elt(f: BloomV, bytes: Seq<u8>)
    requires
        f.wf(),
    ensures
        f.add_elt(bytes).wf(),
        f.add_elt(bytes).bit_cnt == f.bit_cnt,
        f.add_elt(bytes).hfn_cnt == f.hfn_cnt,
        f.add_elt(bytes).bits.size == f.bits.size,
        f.add_elt(bytes).contains(bytes),
        forall|j: int|
            0 <= j < f.bits.size ==> (#[trigger] f.add_elt(bytes).bits.bit(j)) == (f.bits.bit(j)
                || exists|t: int| 0 <= t < f.hfn_cnt && f.nth_index(bytes, t) == j),
{
    lemma_set_upto(f, bytes, f.hfn_cnt as int);
    let g = f.add_elt(bytes);
    assert(g.bits == f.set_upto(bytes, f.hfn_cnt as int));
    assert forall|k: int| 0 <= k < g.hfn_cnt implies g.bits.bit(
        #[trigger] g.nth_index(bytes, k),
    ) by {
        lemma_nth_index_in_range(f, bytes, k);
        assert(g.nth_index(bytes, k) == f.nth_index(bytes, k));
        assert(0 <= k < f.hfn_cnt && f.nth_index(bytes, k) == f.nth_index(bytes, k));
        assert(exists|t: int| 0 <= t < f.hfn_cnt && f.nth_index(bytes, t) == f.nth_index(bytes, k));
    }
}

/// Adding an element never clears a bit, so whatever was reported present
/// stays present.
pub proof fn lemma_add_elt_preserves_contains(f: BloomV, x: Seq<u8>, y: Seq<u8>)
    requires
        f.wf(),
        f.contains(x),
    ensures
        f.add_elt(y).contains(x),
{
    lemma_add_elt(f, y);
    let g = f.add_elt(y);
    assert forall|k: int| 0 <= k < g.hfn_cnt implies g.bits.bit(
        #[trigger] g.nth_index(x, k),
    ) by {
        lemma_nth_index_in_range(f, x, k);
        assert(g.nth_index(x, k) == f.nth_index(x, k));
        assert(f.bits.bit(f.nth_index(x, k)));
    }
}

/// Law: a Bloom filter has no false negatives. After any sequence of added
/// elements, every element of that sequence is reported present.
pub proof fn lemma_no_false_negative(f: BloomV, elems: Seq<Seq<u8>>, i: int)
    requires
        f.wf(),
        0 <= i < elems.len(),
    ensures
        f.add_all(elems).wf(),
        f.add_all(elems).contains(elems[i]),
    decreases elems.len(),
{
    let prev = f.add_all(elems.drop_last());
    lemma_add_all_wf(f, elems.drop_last());
    lemma_add_all_wf(f, elems);
    assert(f.add_all(elems) == prev.add_elt(elems.last()));
    if i == elems.len() - 1 {
        lemma_add_elt(prev, elems.last());
    } else {
        lemma_no_false_negative(f, elems.drop_last(), i);
        assert(elems.drop_last()[i] == elems[i]);
        lemma_add_elt_preserves_contains(prev, elems[i], elems.last());
    }
}

/// Adding any sequence of elements keeps the filter well-formed and keeps
/// its parameters.
pub proof fn lemma_add_all_wf(f: BloomV, elems: Seq<Seq<u8>>)
    requires
        f.wf(),
    ensures
        f.add_all(elems).wf(),
        f.add_all(elems).bit_cnt == f.bit_cnt,
        f.add_all(elems).hfn_cnt == f.hfn_cnt,
        f.add_all(elems).bits.size == f.bits.size,
    decreases elems.len(),
{
    if elems.len() > 0 {
        lemma_add_all_wf(f, elems.drop_last());
        lemma_add_elt(f.add_all(elems.drop_last()), elems.last());
    }
}

/// The probabilistic set itself: a bit vector, the number of simulated
/// hash functions, and the size of the bit domain.
#[derive(Debug)]
pub struct BloomFilter {
    pub bits: BitVec,
    pub hfn_cnt: usize,
    pub bit_cnt: usize,
}

impl View for BloomFilter {
    type V = BloomV;

    open spec fn view(&self) -> BloomV {
        BloomV { bits: self.bits@, hfn_cnt: self.hfn_cnt as nat, bit_cnt: self.bit_cnt as nat }
    }
}

impl Default for BloomFilter {
    /// The stock filter: 1000 bits and 2 hash functions.
    fn default() -> (r: Self)
        ensures
            r@.wf(),
            r@.bit_cnt == 1000,
            r@.hfn_cnt == 2,
            r@.bits.size == 1000,
            forall|i: int| 0 <= i < 1000 ==> !r@.bits.bit(i),
            forall|k: int| 0 <= k < r@.bits.words.len() ==> r@.bits.words[k] == 0u64,
    {
        Self { bits: BitVec::with_capacity(1000), bit_cnt: 1000, hfn_cnt: 2 }
    }
}

impl BloomFilter {
    /// A filter with `cpty` allocated bits, a `bit_cnt`-bit domain and
    /// `hfn_cnt` hash functions. The domain must fit the allocation, hold
    /// at least one bit, and use at least two hash functions.
    #[must_use]
    pub fn new(cpty: usize, bit_cnt: usize, hfn_cnt: usize) -> (r: Self)
        requires
            1 <= bit_cnt <= cpty,
            2 <= hfn_cnt < usize::MAX,
        ensures
            r@.wf(),
            r@.bit_cnt == bit_cnt,
            r@.hfn_cnt == hfn_cnt,
            r@.bits.size == cpty,
            forall|i: int| 0 <= i < cpty ==> !r@.bits.bit(i),
    {
        Self { bits: BitVec::with_capacity(cpty), bit_cnt, hfn_cnt }
    }

    /// The djb2 hash of `bytes`, reduced modulo the bit domain.
    #[inline]
    fn hash0(&self, bytes: &[u8]) -> (r: usize)
        requires
            self@.bit_cnt >= 1,
        ensures
            r == self@.h0(bytes@),
    {
        let mut h: u64 = 5381;
        let mut i: usize = 0;
        while i < bytes.len()
            invariant
                i <= bytes@.len(),
                h == spec_djb2(bytes@.subrange(0, i as int)),
            decreases bytes@.len() - i,
        {
            h = ((h << 5u64).wrapping_add(h)).wrapping_add(bytes[i] as u64);
            proof {
                assert(bytes@.subrange(0, i + 1).drop_last() =~= bytes@.subrange(0, i as int));
                assert(bytes@.subrange(0, i + 1).last() == bytes@[i as int]);
            }
            i = i + 1;
        }
        proof {
            assert(bytes@.subrange(0, bytes@.len() as int) =~= bytes@);
        }
        (h % (self.bit_cnt as u64)) as usize
    }

    /// The sdbm hash of `bytes`, reduced modulo the bit domain.
    #[inline]
    fn hash1(&self, bytes: &[u8]) -> (r: usize)
        requires
            self@.bit_cnt >= 1,
        ensures
            r == self@.h1(bytes@),
    {
        let mut h: u64 = 0;
        let mut i: usize = 0;
        while i < bytes.len()
            invariant
                i <= bytes@.len(),
                h == spec_sdbm(bytes@.subrange(0, i as int)),
            decreases bytes@.len() - i,
        {
            h = ((bytes[i] as u64).wrapping_add(h << 6u64).wrapping_add(h << 16u64)).wrapping_sub(
                h,
            );
            proof {
                assert(bytes@.subrange(0, i + 1).drop_last() =~= bytes@.subrange(0, i as int));
                assert(bytes@.subrange(0, i + 1).last() == bytes@[i as int]);
            }
            i = i + 1;
        }
        proof {
            assert(bytes@.subrange(0, bytes@.len() as int) =~= bytes@);
        }
        (h % (self.bit_cnt as u64)) as usize
    }

    /// Adds one element: sets every probed bit. Never fails on a
    /// well-formed filter.
    #[inline]
    pub fn add(&mut self, bytes: &[u8]) -> (r: Result<(), DbError>)
        requires
            old(self)@.wf(),
        ensures
            r == Ok::<(), DbError>(()),
            final(self)@ == old(self)@.add_elt(bytes@),
            final(self)@.wf(),
    {
        proof {
            lemma_add_elt(old(self)@, bytes@);
        }
        let ghost f = self@;
        let h0 = self.hash0(bytes);
        let h1 = self.hash1(bytes);
        proof {
            lemma_nth_index_in_range(f, bytes@, 0);
        }
        match self.bits.set(h0) {
            Ok(()) => {},
            Err(e) => {
                return Err(e);
            },
        }
        proof {
            lemma_nth_index_in_range(f, bytes@, 1);
            assert(f.set_upto(bytes@, 0) == f.bits);
            assert(self@.bits == f.set_upto(bytes@, 1));
        }
        match self.bits.set(h1) {
            Ok(()) => {},
            Err(e) => {
                return Err(e);
            },
        }
        proof {
            assert(self@.bits == f.set_upto(bytes@, 2));
        }
        if self.hfn_cnt < 3 {
            proof {
                assert(f.set_upto(bytes@, 2) == f.set_upto(bytes@, f.hfn_cnt as int));
                assert(self@ =~= f.add_elt(bytes@));
            }
            return Ok(());
        }
        let mut i: usize = 3;
        while i <= self.hfn_cnt
            invariant
                3 <= i <= self.hfn_cnt + 1,
                self.hfn_cnt == f.hfn_cnt,
                self.bit_cnt == f.bit_cnt,
                f.wf(),
                self@.bits == f.set_upto(bytes@, i - 1),
                h0 == f.h0(bytes@),
                h1 == f.h1(bytes@),
            decreases f.hfn_cnt + 1 - i,
        {
            let idx = (h0.wrapping_add(h1.wrapping_mul(i))) % self.bit_cnt;
            proof {
                assert(idx == f.nth_index(bytes@, i - 1));
                lemma_nth_index_in_range(f, bytes@, i - 1);
                lemma_set_upto(f, bytes@, i - 1);
            }
            match self.bits.set(idx) {
                Ok(()) => {},
                Err(e) => {
                    return Err(e);
                },
            }
            proof {
                assert(self@.bits == f.set_upto(bytes@, i as int));
            }
            i = i + 1;
        }
        proof {
            assert(self@.bits == f.set_upto(bytes@, f.hfn_cnt as int));
            assert(self@ =~= f.add_elt(bytes@));
        }
        Ok(())
    }

    /// Reports whether the element is possibly present: true exactly when
    /// every probed bit is set. Never fails on a well-formed filter.
    #[inline]
    pub fn has(&self, bytes: &[u8]) -> (r: Result<bool, DbError>)
        requires
            self@.wf(),
        ensures
            r == Ok::<bool, DbError>(self@.contains(bytes@)),
    {
        let ghost f = self@;
        let h0 = self.hash0(bytes);
        let h1 = self.hash1(bytes);
        proof {
            lemma_nth_index_in_range(f, bytes@, 0);
            lemma_nth_index_in_range(f, bytes@, 1);
        }
        let b0 = match self.bits.is_set(h0) {
            Ok(b) => b,
            Err(e) => {
                return Err(e);
            },
        };
        let b1 = match self.bits.is_set(h1) {
            Ok(b) => b,
            Err(e) => {
                return Err(e);
            },
        };
        if !b0 || !b1 {
            proof {
                if !b0 {
                    assert(!f.bits.bit(f.nth_index(bytes@, 0)));
                } else {
                    assert(!f.bits.bit(f.nth_index(bytes@, 1)));
                }
            }
            return Ok(false);
        }
        if self.hfn_cnt < 3 {
            proof {
                assert forall|k: int| 0 <= k < f.hfn_cnt implies f.bits.bit(
                    #[trigger] f.nth_index(bytes@, k),
                ) by {
                    assert(k == 0 || k == 1);
                }
            }
            return Ok(true);
        }
        let mut i: usize = 3;
        while i <= self.hfn_cnt
            invariant
                3 <= i <= self.hfn_cnt + 1,
                self@ == f,
                f.wf(),
                h0 == f.h0(bytes@),
                h1 == f.h1(bytes@),
                forall|k: int| 0 <= k < i - 1 ==> f.bits.bit(#[trigger] f.nth_index(bytes@, k)),
            decreases f.hfn_cnt + 1 - i,
        {
            let idx = (h0.wrapping_add(h1.wrapping_mul(i))) % self.bit_cnt;
            proof {
                assert(idx == f.nth_index(bytes@, i - 1));
                lemma_nth_index_in_range(f, bytes@, i - 1);
            }
            let b = match self.bits.is_set(idx) {
                Ok(b) => b,
                Err(e) => {
                    return Err(e);
                },
            };
            if !b {
                proof {
                    assert(!f.bits.bit(f.nth_index(bytes@, i - 1)));
                }
                return Ok(false);
            }
            i = i + 1;
        }
        proof {
            assert forall|k: int| 0 <= k < f.hfn_cnt implies f.bits.bit(
                #[trigger] f.nth_index(bytes@, k),
            ) by {}
        }
        Ok(true)
    }
}

/// The mathematical value of a [`BloomFilterStructure`].
#[verifier::ext_equal]
pub struct BloomFilterStructureV {
    pub dbid: u8,
    pub id: u8,
    pub inner: BloomV,
}

impl BloomFilterStructureV {
    pub open spec fn wf(self) -> bool {
        self.inner.wf()
    }
}

/// The persisted wrapper of a filter: its id, its parent database's id,
/// and the filter itself.
#[derive(Debug)]
pub struct BloomFilterStructure {
    pub dbid: u8,
    pub id: u8,
    pub inner: BloomFilter,
}

impl View for BloomFilterStructure {
    type V = BloomFilterStructureV;

    open spec fn view(&self) -> BloomFilterStructureV {
        BloomFilterStructureV { dbid: self.dbid, id: self.id, inner: self.inner@ }
    }
}

impl BloomFilterStructure {
    /// A wrapper around the stock filter.
    #[must_use]
    pub fn new_default(id: u8, dbid: u8) -> (r: Self)
        ensures
            r@.wf(),
            r@.id == id,
            r@.dbid == dbid,
            r@.inner.bit_cnt == 1000,
            r@.inner.hfn_cnt == 2,
            r@.inner.bits.size == 1000,
            forall|i: int| 0 <= i < 1000 ==> !r@.inner.bits.bit(i),
            forall|k: int| 0 <= k < r@.inner.bits.words.len() ==> r@.inner.bits.words[k] == 0u64,
    {
        Self { dbid, id, inner: BloomFilter::default() }
    }

    /// A wrapper around a filter with explicit parameters.
    #[must_use]
    pub fn new(id: u8, dbid: u8, cpty: usize, bit_cnt: usize, hfn_cnt: usize) -> (r: Self)
        requires
            1 <= bit_cnt <= cpty,
            2 <= hfn_cnt < usize::MAX,
        ensures
            r@.wf(),
            r@.id == id,
            r@.dbid == dbid,
            r@.inner.bit_cnt == bit_cnt,
            r@.inner.hfn_cnt == hfn_cnt,
            r@.inner.bits.size == cpty,
    {
        Self { dbid, id, inner: BloomFilter::new(cpty, bit_cnt, hfn_cnt) }
    }
}

/// The value bytes of a serialized filter wrapper: its id, its parent's
/// id, the hash-function count squeezed into one byte, the bit domain as
/// an 8-byte LE word, then the bit vector as a nested TLV.
pub open spec fn spec_bfs_val_bytes(f: BloomFilterStructureV) -> Seq<u8> {
    seq![f.id, f.dbid, f.inner.hfn_cnt as u8] + spec_u64_to_le_bytes(f.inner.bit_cnt as u64)
        + srl::spec_tlv_bytes(
        srl::SerializableType::BitVec.tag(),
        bv::spec_bitvec_val_bytes(f.inner.bits),
    )
}

/// How a TLV value reads back as a filter wrapper, or why it cannot: fewer
/// than 11 bytes is a short buffer; then the nested bit-vector TLV must
/// parse, and the bit domain must be indexable, non-empty and covered by
/// the bit vector, else the value is invalid data. The stored
/// hash-function byte is ignored: a reloaded filter always has two hash
/// functions.
pub open spec fn spec_parse_bfs(v: Seq<u8>) -> Result<BloomFilterStructureV, DbError> {
    if v.len() < 11 {
        Err(DbError::UnexpectedEof)
    } else {
        match srl::spec_parse_tlv(v.skip(11)) {
            Err(e) => Err(e),
            Ok((t, bval)) => match bv::spec_parse_bitvec(bval) {
                Err(e) => Err(e),
                Ok(bits) => {
                    let bc = spec_u64_from_le_bytes(v.subrange(3, 11));
                    if bc > usize::MAX {
                        Err(DbError::InvalidData)
                    } else if bc < 1 || bc > bits.size {
                        Err(DbError::InvalidData)
                    } else {
                        Ok(
                            BloomFilterStructureV {
                                id: v[0],
                                dbid: v[1],
                                inner: BloomV { bits, hfn_cnt: 2, bit_cnt: bc as nat },
                            },
                        )
                    }
                },
            },
        }
    }
}

impl srl::Deserializable for BloomFilterStructure {
    /// Reads a filter wrapper back from its TLV, exactly as
    /// [`spec_parse_bfs`] says; the result is well-formed and has two hash
    /// functions.
    fn deserialize(tlv: &srl::DeserTLV) -> (r: Result<Self, DbError>)
        ensures
            match r {
                Ok(b) => spec_parse_bfs(tlv.val@) == Ok::<BloomFilterStructureV, DbError>(b@)
                    && b@.wf() && b@.inner.hfn_cnt == 2,
                Err(e) => spec_parse_bfs(tlv.val@) == Err::<BloomFilterStructureV, DbError>(e),
            },
    {
        let buf = tlv.val.as_slice();
        if buf.len() < 11 {
            return Err(DbError::UnexpectedEof);
        }
        proof {
            assert(tlv.val@.skip(11) =~= tlv.val@.subrange(11, tlv.val@.len() as int));
        }
        let bv_tlv = match srl::DeserTLV::new(vstd::slice::slice_subrange(buf, 11, buf.len())) {
            Ok(t) => t,
            Err(e) => {
                return Err(e);
            },
        };
        let bits = match <BitVec as srl::Deserializable>::deserialize(&bv_tlv) {
            Ok(b) => b,
            Err(e) => {
                return Err(e);
            },
        };
        let bit_cnt = match srl::DeserTLV::deserialize_usize(
            vstd::slice::slice_subrange(buf, 3, 11),
        ) {
            Ok(c) => c,
            Err(e) => {
                proof {
                    assert(tlv.val@.subrange(3, 11).subrange(0, 8) =~= tlv.val@.subrange(3, 11));
                }
                return Err(e);
            },
        };
        proof {
            assert(tlv.val@.subrange(3, 11).subrange(0, 8) =~= tlv.val@.subrange(3, 11));
        }
        if bit_cnt < 1 || bit_cnt > bits.size {
            return Err(DbError::InvalidData);
        }
        let bf = BloomFilter { hfn_cnt: 2, bit_cnt, bits };
        let dbid = buf[1];
        let id = buf[0];
        Ok(Self { dbid, id, inner: bf })
    }
}

impl srl::Serializable<BloomFilterStructure> for BloomFilterStructure {
    /// Writes id, parent id, hash-function byte, bit domain and the nested
    /// bit-vector TLV into a TLV tagged `BloomFilterStructure`. The only
    /// error is a bit vector too large for the host to measure.
    fn serialize(&self) -> (r: Result<srl::SerTLV, DbError>)
        ensures
            match r {
                Ok(tlv) => tlv.srl_type == srl::SerializableType::BloomFilterStructure && tlv.val@
                    == spec_bfs_val_bytes(self@),
                Err(e) => 8 + 8 * self@.inner.bits.words.len() > usize::MAX && e
                    == DbError::InvalidData,
            },
    {
        let mut tlv = srl::SerTLV::new(srl::SerializableType::BloomFilterStructure);
        tlv.serialize_u8(self.id);
        tlv.serialize_u8(self.dbid);
        #[allow(clippy::cast_possible_truncation)]
        tlv.serialize_u8(self.inner.hfn_cnt as u8);
        let r = tlv.serialize_usize(self.inner.bit_cnt);
        match r {
            Ok(()) => {},
            Err(_) => {
                return Err(DbError::InvalidData);
            },
        }
        let bv_tlv = match <BitVec as srl::Serializable<BitVec>>::serialize(&self.inner.bits) {
            Ok(t) => t,
            Err(e) => {
                return Err(e);
            },
        };
        let r2 = tlv.serialize_sertlv(&bv_tlv);
        match r2 {
            Ok(()) => {},
            Err(_) => {
                return Err(DbError::InvalidData);
            },
        }
        proof {
            assert(tlv.val@ =~= spec_bfs_val_bytes(self@));
        }
        Ok(tlv)
    }
}

/// Law: a well-formed filter wrapper that writes itself out reads back
/// with the same id, parent id, bit domain and bits. The hash-function
/// count reads back as 2, so the round trip is the identity exactly on
/// filters with two hash functions.
pub proof fn lemma_bfs_round_trip(f: BloomFilterStructureV)
    requires
        f.wf(),
    ensures
        spec_parse_bfs(spec_bfs_val_bytes(f)) == Ok::<BloomFilterStructureV, DbError>(
            BloomFilterStructureV {
                id: f.id,
                dbid: f.dbid,
                inner: BloomV { bits: f.inner.bits, hfn_cnt: 2, bit_cnt: f.inner.bit_cnt },
            },
        ),
{
    let v = spec_bfs_val_bytes(f);
    lemma_auto_spec_u64_to_from_le_bytes();
    let bvb = bv::spec_bitvec_val_bytes(f.inner.bits);
    srl::lemma_words_to_le_bytes_len(f.inner.bits.words);
    let inner_tlv = srl::spec_tlv_bytes(srl::SerializableType::BitVec.tag(), bvb);
    assert(v.skip(11) =~= inner_tlv);
    assert(inner_tlv.subrange(1, 9) =~= spec_u64_to_le_bytes(bvb.len() as u64));
    assert(inner_tlv.subrange(9, 9 + bvb.len() as int) =~= bvb);
    assert(srl::spec_parse_tlv(inner_tlv) == Ok::<_, DbError>(
        (srl::SerializableType::BitVec, bvb),
    ));
    bv::lemma_bitvec_round_trip(f.inner.bits);
    assert(v.subrange(3, 11) =~= spec_u64_to_le_bytes(f.inner.bit_cnt as u64));
    assert(v[0] == f.id);
    assert(v[1] == f.dbid);
}

} // verus!

