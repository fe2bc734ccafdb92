//! Type-Length-Value framing for every persisted object, together with the
//! primitive encoders and decoders that fill in and read back a TLV's value.
//!
//! A TLV is `[1 byte: type tag] [8 bytes LE: value length] [value bytes]`.
//! Word-sized quantities travel as 8 little-endian bytes regardless of the
//! host word size.

use vstd::prelude::*;
use vstd::bytes::*;
use vstd::seq_lib::*;

use crate::err::DbError;

verus! {

/// The type tag of a persisted object.
#[derive(Debug, Clone, Copy, PartialEq, Eq, Structural)]
pub enum SerializableType {
    Ctl,
    Database,
    BloomFilterStructure,
    BitVec,
}

impl SerializableType {
    /// The wire byte of each tag.
    pub open spec fn tag(self) -> u8 {
        match self {
            SerializableType::Ctl => 0,
            SerializableType::Database => 1,
            SerializableType::BloomFilterStructure => 2,
            SerializableType::BitVec => 3,
        }
    }

    /// Which tag a wire byte decodes to; bytes above 3 are invalid.
    pub open spec fn spec_of_tag(byte: u8) -> Result<SerializableType, DbError> {
        if byte == 0 {
            Ok(SerializableType::Ctl)
        } else if byte == 1 {
            Ok(SerializableType::Database)
        } else if byte == 2 {
            Ok(SerializableType::BloomFilterStructure)
        } else if byte == 3 {
            Ok(SerializableType::BitVec)
        } else {
            Err(DbError::InvalidData)
        }
    }

    #[must_use]
    pub fn value(&self) -> (r: u8)
        ensures
            r == self.tag(),
    {
        match self {
            SerializableType::Ctl => 0,
            SerializableType::Database => 1,
            SerializableType::BloomFilterStructure => 2,
            SerializableType::BitVec => 3,
        }
    }

    pub fn try_from(byte: u8) -> (r: Result<SerializableType, DbError>)
        ensures
            r == Self::spec_of_tag(byte),
    {
        match byte {
            3 => Ok(SerializableType::BitVec),
            2 => Ok(SerializableType::BloomFilterStructure),
            1 => Ok(SerializableType::Database),
            0 => Ok(SerializableType::Ctl),
            _ => Err(DbError::InvalidData),
        }
    }
}

/// The bytes of one whole TLV with the given tag byte and value.
pub open spec fn spec_tlv_bytes(tag: u8, val: Seq<u8>) -> Seq<u8> {
    seq![tag] + spec_u64_to_le_bytes(val.len() as u64) + val
}

/// How a buffer splits into the leading TLV's tag and value, or why it
/// cannot: fewer than 10 bytes is a short buffer, an unknown tag byte or an
/// overflowing end offset is invalid data, and a value that runs past the
/// buffer's end is a short buffer again.
pub open spec fn spec_parse_tlv(buf: Seq<u8>) -> Result<(SerializableType, Seq<u8>), DbError> {
    if buf.len() < 10 {
        Err(DbError::UnexpectedEof)
    } else {
        match SerializableType::spec_of_tag(buf[0]) {
            Err(e) => Err(e),
            Ok(t) => {
                let len = spec_u64_from_le_bytes(buf.subrange(1, 9));
                if len > u64::MAX - 9 {
                    Err(DbError::InvalidData)
                } else if buf.len() < 9 + len {
                    Err(DbError::UnexpectedEof)
                } else {
                    Ok((t, buf.subrange(9, 9 + len as int)))
                }
            },
        }
    }
}

/// The concatenated little-endian bytes of a sequence of 64-bit words.
pub open spec fn spec_words_to_le_bytes(ws: Seq<u64>) -> Seq<u8>
    decreases ws.len(),
{
    if ws.len() == 0 {
        Seq::empty()
    } else {
        spec_u64_to_le_bytes(ws[0]) + spec_words_to_le_bytes(ws.skip(1))
    }
}

/// The 64-bit words read back from a byte sequence, 8 bytes at a time.
pub open spec fn spec_words_from_le_bytes(b: Seq<u8>) -> Seq<u64>
    recommends
        b.len() % 8 == 0,
    decreases b.len(),
{
    if b.len() < 8 {
        Seq::empty()
    } else {
        seq![spec_u64_from_le_bytes(b.subrange(0, 8))] + spec_words_from_le_bytes(b.skip(8))
    }
}

pub proof fn lemma_words_to_le_bytes_len(ws: Seq<u64>)
    ensures
        spec_words_to_le_bytes(ws).len() == 8 * ws.len(),
    decreases ws.len(),
{
    lemma_auto_spec_u64_to_from_le_bytes();
    if ws.len() > 0 {
        lemma_words_to_le_bytes_len(ws.skip(1));
    }
}

pub proof fn lemma_words_from_le_bytes_len(b: Seq<u8>)
    ensures
        b.len() % 8 == 0 ==> spec_words_from_le_bytes(b).len() == b.len() / 8,
    decreases b.len(),
{
    if b.len() >= 8 {
        lemma_words_from_le_bytes_len(b.skip(8));
    }
}

/// Appending one word's bytes extends the encoding by that word.
pub proof fn lemma_words_to_le_bytes_push(ws: Seq<u64>, w: u64)
    ensures
        spec_words_to_le_bytes(ws.push(w)) == spec_words_to_le_bytes(ws) + spec_u64_to_le_bytes(w),
    decreases ws.len(),
{
    lemma_auto_spec_u64_to_from_le_bytes();
    if ws.len() == 0 {
        assert(ws.push(w)[0] == w);
        assert(ws.push(w).skip(1) =~= Seq::<u64>::empty());
        assert(spec_words_to_le_bytes(Seq::<u64>::empty()) == Seq::<u8>::empty());
        assert(spec_words_to_le_bytes(ws.push(w)) =~= spec_words_to_le_bytes(ws)
            + spec_u64_to_le_bytes(w));
    } else {
        lemma_words_to_le_bytes_push(ws.skip(1), w);
        lemma_words_to_le_bytes_len(ws.skip(1));
        assert(ws.push(w).skip(1) =~= ws.skip(1).push(w));
        assert(ws.push(w)[0] == ws[0]);
        assert(spec_words_to_le_bytes(ws.push(w)) == spec_u64_to_le_bytes(ws[0])
            + spec_words_to_le_bytes(ws.skip(1).push(w)));
        assert(spec_words_to_le_bytes(ws.skip(1).push(w)) == spec_words_to_le_bytes(ws.skip(1))
            + spec_u64_to_le_bytes(w));
        assert(spec_u64_to_le_bytes(ws[0]) + (spec_words_to_le_bytes(ws.skip(1))
            + spec_u64_to_le_bytes(w)) =~= (spec_u64_to_le_bytes(ws[0]) + spec_words_to_le_bytes(
            ws.skip(1),
        )) + spec_u64_to_le_bytes(w));
        assert(spec_words_to_le_bytes(ws) == spec_u64_to_le_bytes(ws[0]) + spec_words_to_le_bytes(
            ws.skip(1),
        ));
    }
}

/// Appending 8 bytes to a word-aligned byte sequence appends one decoded word.
pub proof fn lemma_words_from_le_bytes_snoc(b: Seq<u8>, w8: Seq<u8>)
    requires
        b.len() % 8 == 0,
        w8.len() == 8,
    ensures
        spec_words_from_le_bytes(b + w8) == spec_words_from_le_bytes(b).push(
            spec_u64_from_le_bytes(w8),
        ),
    decreases b.len(),
{
    if b.len() == 0 {
        assert(b + w8 =~= w8);
        assert((b + w8).subrange(0, 8) =~= w8);
        assert((b + w8).skip(8) =~= Seq::<u8>::empty());
        assert(spec_words_from_le_bytes(Seq::<u8>::empty()) == Seq::<u64>::empty());
        assert(spec_words_from_le_bytes(b + w8) =~= spec_words_from_le_bytes(b).push(
            spec_u64_from_le_bytes(w8),
        ));
    } else {
        lemma_words_from_le_bytes_snoc(b.skip(8), w8);
        lemma_words_from_le_bytes_len(b.skip(8));
        assert((b + w8).subrange(0, 8) =~= b.subrange(0, 8));
        assert((b + w8).skip(8) =~= b.skip(8) + w8);
        assert(spec_words_from_le_bytes(b + w8) == seq![
            spec_u64_from_le_bytes(b.subrange(0, 8)),
        ] + spec_words_from_le_bytes(b.skip(8) + w8));
        assert(spec_words_from_le_bytes(b.skip(8) + w8) == spec_words_from_le_bytes(
            b.skip(8),
        ).push(spec_u64_from_le_bytes(w8)));
        assert(seq![spec_u64_from_le_bytes(b.subrange(0, 8))] + spec_words_from_le_bytes(
            b.skip(8),
        ).push(spec_u64_from_le_bytes(w8)) =~= (seq![
            spec_u64_from_le_bytes(b.subrange(0, 8)),
        ] + spec_words_from_le_bytes(b.skip(8))).push(spec_u64_from_le_bytes(w8)));
        assert(spec_words_from_le_bytes(b) == seq![
            spec_u64_from_le_bytes(b.subrange(0, 8)),
        ] + spec_words_from_le_bytes(b.skip(8)));
    }
}

/// Decoding inverts encoding on whole words.
pub proof fn lemma_words_le_bytes_round_trip(ws: Seq<u64>)
    ensures
        spec_words_from_le_bytes(spec_words_to_le_bytes(ws)) == ws,
    decreases ws.len(),
{
    lemma_auto_spec_u64_to_from_le_bytes();
    if ws.len() > 0 {
        lemma_words_le_bytes_round_trip(ws.skip(1));
        lemma_words_to_le_bytes_len(ws.skip(1));
        let b = spec_words_to_le_bytes(ws);
        assert(b.subrange(0, 8) =~= spec_u64_to_le_bytes(ws[0]));
        assert(b.skip(8) =~= spec_words_to_le_bytes(ws.skip(1)));
        assert(spec_words_from_le_bytes(b) =~= ws);
    }
}

/// A TLV written at the front of a buffer parses back to its own tag and
/// value, whatever follows it.
pub proof fn lemma_parse_tlv_encoding(t: SerializableType, val: Seq<u8>, tail: Seq<u8>)
    requires
        val.len() <= u64::MAX - 9,
        val.len() + tail.len() >= 1,
    ensures
        spec_parse_tlv(spec_tlv_bytes(t.tag(), val) + tail) == Ok::<_, DbError>((t, val)),
        (spec_tlv_bytes(t.tag(), val) + tail).len() == 9 + val.len() + tail.len(),
        (spec_tlv_bytes(t.tag(), val) + tail).skip(9 + val.len() as int) == tail,
{
    lemma_auto_spec_u64_to_from_le_bytes();
    let enc = spec_tlv_bytes(t.tag(), val);
    let buf = enc + tail;
    assert(buf.len() == 9 + val.len() + tail.len());
    assert(buf[0] == t.tag());
    assert(SerializableType::spec_of_tag(t.tag()) == Ok::<SerializableType, DbError>(t));
    assert(buf.subrange(1, 9) =~= spec_u64_to_le_bytes(val.len() as u64));
    assert(spec_u64_from_le_bytes(buf.subrange(1, 9)) == val.len() as u64);
    assert(buf.subrange(9, 9 + val.len() as int) =~= val);
    assert(buf.skip(9 + val.len() as int) =~= tail);
}

/// Appends every byte of `src` to `dst`.
pub(crate) fn push_bytes(dst: &mut Vec<u8>, src: &[u8])
    ensures
        final(dst)@ == old(dst)@ + src@,
{
    let ghost orig = dst@;
    let mut i: usize = 0;
    while i < src.len()
        invariant
            i <= src@.len(),
            dst@ == orig + src@.subrange(0, i as int),
        decreases src@.len() - i,
    {
        dst.push(src[i]);
        i = i + 1;
        assert(orig + src@.subrange(0, i as int) =~= dst@);
    }
    assert(orig + src@.subrange(0, src@.len() as int) =~= orig + src@);
}

/// A TLV read out of a byte buffer: its tag and a copy of its value bytes.
pub struct DeserTLV {
    pub srl_type: SerializableType,
    pub val: Vec<u8>,
}

impl DeserTLV {
    /// Splits the leading TLV off `buf`, exactly as [`spec_parse_tlv`] says.
    pub fn new(buf: &[u8]) -> (r: Result<DeserTLV, DbError>)
        ensures
            match r {
                Ok(d) => spec_parse_tlv(buf@) == Ok::<_, DbError>((d.srl_type, d.val@)),
                Err(e) => spec_parse_tlv(buf@) == Err::<(SerializableType, Seq<u8>), _>(e),
            },
    {
        if buf.len() < 10 {
            return Err(DbError::UnexpectedEof);
        }
        let srl_type = match SerializableType::try_from(buf[0]) {
            Ok(t) => t,
            Err(e) => {
                return Err(e);
            },
        };
        let len = u64_from_le_bytes(vstd::slice::slice_subrange(buf, 1, 9));
        if len > u64::MAX - 9 {
            return Err(DbError::InvalidData);
        }
        if (buf.len() as u64) < 9 + len {
            return Err(DbError::UnexpectedEof);
        }
        let end: usize = (9 + len) as usize;
        let val = vstd::slice::slice_to_vec(vstd::slice::slice_subrange(buf, 9, end));
        Ok(DeserTLV { srl_type, val })
    }

    /// How many bytes the whole TLV occupies: 1 tag byte, 8 length bytes,
    /// and the value.
    #[must_use]
    pub fn len(&self) -> (r: usize)
        requires
            self.val@.len() + 9 <= usize::MAX,
        ensures
            r == 9 + self.val@.len(),
    {
        1 + 8 + self.val.len()
    }

    /// Reads the byte at the front of a value buffer.
    pub fn deserialize_u8(buf: &[u8]) -> (r: Result<u8, DbError>)
        requires
            buf@.len() >= 1,
        ensures
            r == Ok::<u8, DbError>(buf@[0]),
    {
        Ok(buf[0])
    }

    /// Reads the 8-byte little-endian word at the front of a value buffer.
    pub fn deserialize_usize(buf: &[u8]) -> (r: Result<usize, DbError>)
        requires
            buf@.len() >= 8,
        ensures
            ({
                let x = spec_u64_from_le_bytes(buf@.subrange(0, 8));
                if x <= usize::MAX {
                    r == Ok::<usize, DbError>(x as usize)
                } else {
                    r == Err::<usize, DbError>(DbError::InvalidData)
                }
            }),
    {
        let x = u64_from_le_bytes(vstd::slice::slice_subrange(buf, 0, 8));
        if x <= usize::MAX as u64 {
            Ok(x as usize)
        } else {
            Err(DbError::InvalidData)
        }
    }

    /// Copies a value buffer out whole.
    pub fn deserialize_vec_u8(buf: &[u8]) -> (r: Result<Vec<u8>, DbError>)
        ensures
            match r {
                Ok(v) => v@ == buf@,
                Err(_) => false,
            },
    {
        Ok(vstd::slice::slice_to_vec(buf))
    }

    /// Reads a value buffer back as 64-bit little-endian words; a buffer that
    /// is not a whole number of words is invalid data.
    pub fn deserialize_vec_usize(buf: &[u8]) -> (r: Result<Vec<u64>, DbError>)
        ensures
            if buf@.len() % 8 == 0 {
                match r {
                    Ok(v) => v@ == spec_words_from_le_bytes(buf@),
                    Err(_) => false,
                }
            } else {
                r == Err::<Vec<u64>, DbError>(DbError::InvalidData)
            },
    {
        if buf.len() % 8 != 0 {
            return Err(DbError::InvalidData);
        }
        let mut ret = Vec::<u64>::new();
        let mut idx: usize = 0;
        while idx < buf.len()
            invariant
                buf@.len() % 8 == 0,
                idx % 8 == 0,
                idx <= buf@.len(),
                ret@ == spec_words_from_le_bytes(buf@.subrange(0, idx as int)),
            decreases buf@.len() - idx,
        {
            let w = u64_from_le_bytes(vstd::slice::slice_subrange(buf, idx, idx + 8));
            ret.push(w);
            proof {
                lemma_words_from_le_bytes_snoc(
                    buf@.subrange(0, idx as int),
                    buf@.subrange(idx as int, idx + 8),
                );
                assert(buf@.subrange(0, idx as int) + buf@.subrange(idx as int, idx + 8)
                    =~= buf@.subrange(0, idx + 8));
            }
            idx = idx + 8;
        }
        assert(buf@.subrange(0, buf@.len() as int) =~= buf@);
        Ok(ret)
    }
}

/// A TLV being built up: its tag and the value bytes written so far.
pub struct SerTLV {
    pub srl_type: SerializableType,
    pub val: Vec<u8>,
}

impl SerTLV {
    /// The bytes this TLV writes out: tag, 8-byte LE value length, value.
    pub open spec fn spec_bytes(self) -> Seq<u8> {
        spec_tlv_bytes(self.srl_type.tag(), self.val@)
    }

    #[must_use]
    pub fn new(srl_type: SerializableType) -> (r: Self)
        ensures
            r.srl_type == srl_type,
            r.val@ == Seq::<u8>::empty(),
    {
        Self { srl_type, val: Vec::<u8>::new() }
    }

    /// How many bytes the whole TLV occupies once written.
    #[must_use]
    pub fn len(&self) -> (r: usize)
        requires
            self.val@.len() + 9 <= usize::MAX,
        ensures
            r == 9 + self.val@.len(),
    {
        1 + 8 + self.val.len()
    }

    /// Appends the whole TLV (tag, length, value) to `buf` and reports how
    /// many bytes were written.
    pub fn serialize_into_buf(&self, buf: &mut Vec<u8>) -> (r: Result<usize, DbError>)
        requires
            self.val@.len() + 9 <= usize::MAX,
        ensures
            final(buf)@ == old(buf)@ + self.spec_bytes(),
            r == Ok::<usize, DbError>((self.val@.len() + 9) as usize),
    {
        let len = self.val.len();
        buf.push(self.srl_type.value());
        let len_bytes = u64_to_le_bytes(len as u64);
        push_bytes(buf, len_bytes.as_slice());
        push_bytes(buf, self.val.as_slice());
        proof {
            assert(final(buf)@ =~= old(buf)@ + self.spec_bytes());
        }
        Ok(len + 9)
    }

    /// Appends one byte to the value.
    pub fn serialize_u8(&mut self, x: u8)
        ensures
            final(self).srl_type == old(self).srl_type,
            final(self).val@ == old(self).val@.push(x),
    {
        self.val.push(x);
    }

    /// Appends a word to the value as 8 little-endian bytes.
    pub fn serialize_usize(&mut self, x: usize) -> (r: Result<(), DbError>)
        ensures
            final(self).srl_type == old(self).srl_type,
            final(self).val@ == old(self).val@ + spec_u64_to_le_bytes(x as u64),
            r == Ok::<(), DbError>(()),
    {
        let bytes = u64_to_le_bytes(x as u64);
        push_bytes(&mut self.val, bytes.as_slice());
        Ok(())
    }

    /// Appends raw bytes to the value and reports how many were appended.
    pub fn serialize_slice_u8(&mut self, x: &[u8]) -> (r: Result<usize, DbError>)
        ensures
            final(self).srl_type == old(self).srl_type,
            final(self).val@ == old(self).val@ + x@,
            r == Ok::<usize, DbError>(x@.len() as usize),
    {
        let ret = x.len();
        push_bytes(&mut self.val, x);
        Ok(ret)
    }

    /// Appends a slice of words to the value, 8 little-endian bytes each,
    /// and reports how many bytes were appended.
    pub fn serialize_slice_usize(&mut self, words: &[u64]) -> (r: Result<usize, DbError>)
        requires
            old(self).val@.len() + 8 * words@.len() <= usize::MAX,
        ensures
            final(self).srl_type == old(self).srl_type,
            final(self).val@ == old(self).val@ + spec_words_to_le_bytes(words@),
            r == Ok::<usize, DbError>((8 * words@.len()) as usize),
    {
        let ghost orig = self.val@;
        let mut i: usize = 0;
        while i < words.len()
            invariant
                i <= words@.len(),
                orig.len() + 8 * words@.len() <= usize::MAX,
                self.val@ == orig + spec_words_to_le_bytes(words@.subrange(0, i as int)),
                self.srl_type == old(self).srl_type,
            decreases words@.len() - i,
        {
            proof {
                lemma_words_to_le_bytes_len(words@.subrange(0, i as int));
            }
            let bytes = u64_to_le_bytes(words[i]);
            push_bytes(&mut self.val, bytes.as_slice());
            proof {
                lemma_words_to_le_bytes_push(words@.subrange(0, i as int), words@[i as int]);
                assert(words@.subrange(0, i as int).push(words@[i as int]) =~= words@.subrange(
                    0,
                    i + 1,
                ));
            }
            i = i + 1;
        }
        proof {
            assert(words@.subrange(0, words@.len() as int) =~= words@);
            lemma_words_to_le_bytes_len(words@);
        }
        Ok(8 * words.len())
    }

    /// Appends another TLV whole (tag, length, value) to this one's value.
    pub fn serialize_sertlv(&mut self, tlv: &SerTLV) -> (r: Result<(), DbError>)
        ensures
            final(self).srl_type == old(self).srl_type,
            final(self).val@ == old(self).val@ + tlv.spec_bytes(),
            r == Ok::<(), DbError>(()),
    {
        self.serialize_u8(tlv.srl_type.value());
        let r = self.serialize_usize(tlv.val.len());
        match r {
            Ok(()) => {},
            Err(_) => {
                return Err(DbError::InvalidData);
            },
        }
        let r2 = self.serialize_slice_u8(tlv.val.as_slice());
        match r2 {
            Ok(_) => {},
            Err(_) => {
                return Err(DbError::InvalidData);
            },
        }
        proof {
            assert(final(self).val@ =~= old(self).val@ + tlv.spec_bytes());
        }
        Ok(())
    }
}

/// A persisted object that can be read back from a TLV.
pub trait Deserializable where Self: Sized {
    fn deserialize(tlv: &DeserTLV) -> Result<Self, DbError>;
}

/// A persisted object that can write itself into a TLV.
pub trait Serializable<T> {
    fn serialize(&self) -> Result<SerTLV, DbError>;
}

} // verus!
