//! A dense bit vector over 64-bit words, with get/set by bit index and a
//! TLV serialization.

use vstd::prelude::*;
use vstd::bytes::*;

use crate::err::DbError;
use crate::srl;

verus! {

/// The mathematical value of a [`BitVec`]: its words and its logical bit
/// count.
#[verifier::ext_equal]
pub struct BitVecV {
    pub words: Seq<u64>,
    pub size: nat,
}

/// How many words a bit vector of `size` bits keeps: at least one word,
/// even when `size == 0`.
pub open spec fn spec_word_count(size: nat) -> nat {
    if size == 0 {
        1
    } else {
        ((size + 63) / 64) as nat
    }
}

impl BitVecV {
    /// Well-formed: exactly the required number of words, and a size an
    /// index can reach.
    pub open spec fn wf(self) -> bool {
        &&& self.words.len() == spec_word_count(self.size)
        &&& self.size <= usize::MAX
    }

    /// Bit `i`: bit `i % 64` of word `i / 64`, little-endian within a word.
    pub open spec fn bit(self, i: int) -> bool
        recommends
            0 <= i < self.size,
            self.wf(),
    {
        (1u64 << ((i % 64) as u64)) & self.words[i / 64] != 0
    }

    /// This value with bit `i` turned on and everything else unchanged.
    pub open spec fn set_bit(self, i: int) -> BitVecV
        recommends
            0 <= i < self.size,
            self.wf(),
    {
        BitVecV {
            words: self.words.update(i / 64, (1u64 << ((i % 64) as u64)) | self.words[i / 64]),
            size: self.size,
        }
    }
}

proof fn lemma_or_mask_bit(w: u64, a: u64, b: u64)
    requires
        a < 64,
        b < 64,
    ensures
        ((1u64 << a) & ((1u64 << b) | w) != 0) == (a == b || (1u64 << a) & w != 0),
{
    assert(((1u64 << a) & ((1u64 << b) | w) != 0) == (a == b || (1u64 << a) & w != 0))
        by (bit_vector)
        requires
            a < 64,
            b < 64,
    ;
}

proof fn lemma_zero_word_bit(a: u64)
    requires
        a < 64,
    ensures
        (1u64 << a) & 0u64 == 0,
{
    assert((1u64 << a) & 0u64 == 0) by (bit_vector);
}

/// An in-range bit index lands inside the allocated words.
proof fn lemma_word_index_in_range(i: int, size: nat)
    requires
        0 <= i < size,
    ensures
        0 <= i / 64 < spec_word_count(size),
        0 <= i % 64 < 64,
{
    assert(i / 64 < (size + 63) / 64) by (nonlinear_arith)
        requires
            0 <= i < size,
    ;
}

/// Law: setting bit `i` of a well-formed bit vector makes bit `i` read back
/// true, leaves every other bit as it was, and keeps the vector well-formed
/// with the same size.
pub proof fn lemma_set_then_is_set(v: BitVecV, i: int)
    requires
        v.wf(),
        0 <= i < v.size,
    ensures
        v.set_bit(i).wf(),
        v.set_bit(i).size == v.size,
        v.set_bit(i).bit(i),
        forall|j: int| 0 <= j < v.size && j != i ==> v.set_bit(i).bit(j) == v.bit(j),
{
    lemma_word_index_in_range(i, v.size);
    let w = v.set_bit(i);
    lemma_or_mask_bit(v.words[i / 64], (i % 64) as u64, (i % 64) as u64);
    assert(w.bit(i));
    assert forall|j: int| 0 <= j < v.size && j != i implies w.bit(j) == v.bit(j) by {
        lemma_word_index_in_range(j, v.size);
        if j / 64 == i / 64 {
            lemma_or_mask_bit(v.words[j / 64], (j % 64) as u64, (i % 64) as u64);
            assert((j % 64) != (i % 64)) by (nonlinear_arith)
                requires
                    j != i,
                    j / 64 == i / 64,
                    0 <= j,
                    0 <= i,
            ;
        }
    }
}

/// The bit array of the Bloom filter: `size` logical bits packed into
/// 64-bit words.
#[derive(Debug)]
pub struct BitVec {
    pub words: Vec<u64>,
    pub size: usize,
}

impl View for BitVec {
    type V = BitVecV;

    open spec fn view(&self) -> BitVecV {
        BitVecV { words: self.words@, size: self.size as nat }
    }
}

impl BitVec {
    /// A zeroed bit vector of `size` bits.
    #[must_use]
    pub fn with_capacity(size: usize) -> (r: Self)
        ensures
            r@.wf(),
            r@.size == size,
            forall|i: int| 0 <= i < size ==> !r@.bit(i),
            forall|k: int| 0 <= k < r@.words.len() ==> r@.words[k] == 0u64,
    {
        let mut n: usize = size / 64;
        if size % 64 != 0 {
            n = n + 1;
        }
        if n == 0 {
            n = 1;
        }
        assert(n == spec_word_count(size as nat));
        let mut words = Vec::<u64>::new();
        let mut k: usize = 0;
        while k < n
            invariant
                k <= n,
                words@.len() == k,
                forall|t: int| 0 <= t < k ==> words@[t] == 0u64,
            decreases n - k,
        {
            words.push(0u64);
            k = k + 1;
        }
        let r = Self { words, size };
        proof {
            assert forall|i: int| 0 <= i < size implies !r@.bit(i) by {
                lemma_word_index_in_range(i, size as nat);
                lemma_zero_word_bit((i % 64) as u64);
            }
        }
        r
    }

    /// The word index and bit index of logical bit `i`; an out-of-range `i`
    /// is a recoverable error.
    #[inline]
    fn get_idxs(&self, i: usize) -> (r: Result<(usize, usize), DbError>)
        ensures
            i < self.size ==> r == Ok::<(usize, usize), DbError>((i / 64, i % 64)),
            i >= self.size ==> r == Err::<(usize, usize), DbError>(DbError::UnexpectedEof),
    {
        if i >= self.size {
            return Err(DbError::UnexpectedEof);
        }
        Ok((i / 64, i % 64))
    }

    /// Whether bit `i` is set; an out-of-range `i` is a recoverable error.
    #[inline]
    pub fn is_set(&self, i: usize) -> (r: Result<bool, DbError>)
        requires
            self@.wf(),
        ensures
            i < self@.size ==> r == Ok::<bool, DbError>(self@.bit(i as int)),
            i >= self@.size ==> r == Err::<bool, DbError>(DbError::UnexpectedEof),
    {
        let (byte_idx, bit_idx) = match self.get_idxs(i) {
            Ok(p) => p,
            Err(e) => {
                return Err(e);
            },
        };
        proof {
            lemma_word_index_in_range(i as int, self@.size);
        }
        Ok((1u64 << (bit_idx as u64)) & self.words[byte_idx] != 0)
    }

    /// Turns bit `i` on; an out-of-range `i` is a recoverable error and
    /// leaves the vector unchanged.
    #[inline]
    pub fn set(&mut self, i: usize) -> (r: Result<(), DbError>)
        requires
            old(self)@.wf(),
        ensures
            final(self)@.wf(),
            i < old(self)@.size ==> r == Ok::<(), DbError>(()) && final(self)@ == old(self)@.set_bit(i as int),
            i >= old(self)@.size ==> r == Err::<(), DbError>(DbError::UnexpectedEof) && final(self)@ == old(self)@,
    {
        let (byte_idx, bit_idx) = match self.get_idxs(i) {
            Ok(p) => p,
            Err(e) => {
                return Err(e);
            },
        };
        proof {
            lemma_word_index_in_range(i as int, self@.size);
        }
        let w = self.words[byte_idx];
        self.words[byte_idx] = (1u64 << (bit_idx as u64)) | w;
        proof {
            assert(final(self)@ =~= old(self)@.set_bit(i as int));
        }
        Ok(())
    }
}

/// The value bytes of a serialized bit vector: the size as an 8-byte LE
/// word, then each word as 8 LE bytes.
pub open spec fn spec_bitvec_val_bytes(v: BitVecV) -> Seq<u8> {
    spec_u64_to_le_bytes(v.size as u64) + srl::spec_words_to_le_bytes(v.words)
}

/// How a TLV value reads back as a bit vector, or why it cannot: a value
/// shorter than the 8 size bytes is a short buffer; a size that the host
/// cannot index, a word region that is not whole words, or a word count
/// that does not match the size is invalid data.
pub open spec fn spec_parse_bitvec(v: Seq<u8>) -> Result<BitVecV, DbError> {
    if v.len() < 8 {
        Err(DbError::UnexpectedEof)
    } else {
        let size64 = spec_u64_from_le_bytes(v.subrange(0, 8));
        if (v.len() - 8) % 8 != 0 {
            Err(DbError::InvalidData)
        } else if size64 > usize::MAX {
            Err(DbError::InvalidData)
        } else {
            let words = srl::spec_words_from_le_bytes(v.skip(8));
            if words.len() == spec_word_count(size64 as nat) {
                Ok(BitVecV { words, size: size64 as nat })
            } else {
                Err(DbError::InvalidData)
            }
        }
    }
}

impl srl::Deserializable for BitVec {
    /// Reads a bit vector back from its TLV, exactly as
    /// [`spec_parse_bitvec`] says; the result is well-formed.
    fn deserialize(tlv: &srl::DeserTLV) -> (r: Result<Self, DbError>)
        ensures
            match r {
                Ok(bv) => spec_parse_bitvec(tlv.val@) == Ok::<BitVecV, DbError>(bv@) && bv@.wf(),
                Err(e) => spec_parse_bitvec(tlv.val@) == Err::<BitVecV, DbError>(e),
            },
    {
        let buf = tlv.val.as_slice();
        if buf.len() < 8 {
            return Err(DbError::UnexpectedEof);
        }
        let words = match srl::DeserTLV::deserialize_vec_usize(
            vstd::slice::slice_subrange(buf, 8, buf.len()),
        ) {
            Ok(ws) => ws,
            Err(e) => {
                assert(tlv.val@.skip(8) =~= tlv.val@.subrange(8, tlv.val@.len() as int));
                return Err(e);
            },
        };
        let size = match srl::DeserTLV::deserialize_usize(buf) {
            Ok(s) => s,
            Err(e) => {
                return Err(e);
            },
        };
        proof {
            assert(tlv.val@.skip(8) =~= tlv.val@.subrange(8, tlv.val@.len() as int));
            srl::lemma_words_from_le_bytes_len(tlv.val@.skip(8));
        }
        let expected = if size == 0 {
            1
        } else {
            size / 64 + if size % 64 != 0 {
                1
            } else {
                0
            }
        };
        assert(expected == spec_word_count(size as nat));
        if words.len() != expected {
            return Err(DbError::InvalidData);
        }
        Ok(Self { words, size })
    }
}

impl srl::Serializable<BitVec> for BitVec {
    /// Writes the size and the words into a TLV tagged `BitVec`. The only
    /// error is a word region too large for the host to measure, which no
    /// in-memory vector reaches.
    fn serialize(&self) -> (r: Result<srl::SerTLV, DbError>)
        ensures
            match r {
                Ok(tlv) => tlv.srl_type == srl::SerializableType::BitVec && tlv.val@
                    == spec_bitvec_val_bytes(self@) && 8 + 8 * self@.words.len() <= usize::MAX,
                Err(e) => 8 + 8 * self@.words.len() > usize::MAX && e == DbError::InvalidData,
            },
    {
        if self.words.len() > (usize::MAX - 8) / 8 {
            proof {
                assert(8 * self@.words.len() > usize::MAX - 8) by (nonlinear_arith)
                    requires
                        self@.words.len() > (usize::MAX - 8) / 8,
                ;
            }
            return Err(DbError::InvalidData);
        }
        proof {
            assert(8 * self@.words.len() <= usize::MAX - 8) by (nonlinear_arith)
                requires
                    self@.words.len() <= (usize::MAX - 8) / 8,
            ;
        }
        let mut tlv = srl::SerTLV::new(srl::SerializableType::BitVec);
        let r = tlv.serialize_usize(self.size);
        match r {
            Ok(()) => {},
            Err(_) => {
                return Err(DbError::InvalidData);
            },
        }
        proof {
            lemma_auto_spec_u64_to_from_le_bytes();
            assert(tlv.val@.len() == 8);
        }
        let r2 = tlv.serialize_slice_usize(self.words.as_slice());
        match r2 {
            Ok(_) => {},
            Err(_) => {
                return Err(DbError::InvalidData);
            },
        }
        proof {
            assert(tlv.val@ =~= spec_bitvec_val_bytes(self@));
        }
        Ok(tlv)
    }
}

/// Law: a well-formed bit vector that writes itself out reads back equal,
/// field for field.
pub proof fn lemma_bitvec_round_trip(v: BitVecV)
    requires
        v.wf(),
    ensures
        spec_parse_bitvec(spec_bitvec_val_bytes(v)) == Ok::<BitVecV, DbError>(v),
{
    let b = spec_bitvec_val_bytes(v);
    lemma_auto_spec_u64_to_from_le_bytes();
    srl::lemma_words_to_le_bytes_len(v.words);
    assert(b.subrange(0, 8) =~= spec_u64_to_le_bytes(v.size as u64));
    assert(b.skip(8) =~= srl::spec_words_to_le_bytes(v.words));
    srl::lemma_words_le_bytes_round_trip(v.words);
    assert(spec_parse_bitvec(b) =~= Ok::<BitVecV, DbError>(v));
}

} // verus!
