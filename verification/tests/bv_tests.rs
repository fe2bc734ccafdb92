use qstra::bv::BitVec;
use qstra::srl::Deserializable;
use qstra::srl::DeserTLV;
use qstra::srl::Serializable;
use qstra::srl::SerializableType;

#[test]
fn test_endianness() {
    let mut bv = BitVec::with_capacity(64);
    bv.set(0).unwrap();
    assert!(bv.words.len() == 1);
    assert!(bv.words[0] == 1u64, "{}", bv.words[0]);
}

#[test]
fn test_word_sizing() {
    let data = [(1usize, 1), (64 - 1, 1), (5 * 64 + 1, 6), (8 * 64 - 63, 8)];
    let mut bv;
    for (nr_bits, nr_bytes) in data {
        bv = BitVec::with_capacity(nr_bits);
        assert!(
            bv.words.len() == nr_bytes,
            "bv.words.len() = {} did not equal nr_bytes = {}",
            bv.words.len(),
            nr_bytes
        )
    }
}

#[test]
fn test_bit_setting() {
    let data = [(32, 2), (1000, 10), (129, 1), (55, 54)];

    for (cpty, k) in data {
        let mut bv = BitVec::with_capacity(cpty);
        for i in 0..cpty {
            if i % k == 0 {
                bv.set(i).unwrap();
            }
        }

        for i in 0..cpty {
            let mut ans = bv.is_set(i).unwrap();
            if i % k != 0 {
                ans = !ans;
            }
            assert!(ans);
        }
    }
}

#[test]
fn test_bit_out_of_range() {
    let mut bv = BitVec::with_capacity(10);
    assert!(matches!(bv.set(10), Err(qstra::err::DbError::UnexpectedEof)));
    assert!(matches!(bv.is_set(10), Err(qstra::err::DbError::UnexpectedEof)));
    bv.set(9).unwrap();
    assert!(bv.is_set(9).unwrap());
    assert!(!bv.is_set(0).unwrap());
}

#[test]
fn test_bitvec_tlv_round_trip() {
    let mut bv = BitVec::with_capacity(130);
    bv.set(0).unwrap();
    bv.set(64).unwrap();
    bv.set(129).unwrap();
    let tlv = bv.serialize().unwrap();
    let mut buf = Vec::new();
    let written = tlv.serialize_into_buf(&mut buf).unwrap();
    assert_eq!(written, buf.len());
    // 1 tag byte + 8 length bytes + 8 size bytes + 3 words of 8 bytes.
    assert_eq!(buf.len(), 1 + 8 + 8 + 24);
    assert_eq!(buf[0], 3);
    let back_tlv = DeserTLV::new(&buf).unwrap();
    assert!(matches!(back_tlv.srl_type, SerializableType::BitVec));
    let back = BitVec::deserialize(&back_tlv).unwrap();
    assert_eq!(back.size, bv.size);
    assert_eq!(back.words, bv.words);
}

#[test]
fn test_serialize_usize_is_le() {
    let mut tlv = qstra::srl::SerTLV::new(SerializableType::Ctl);
    tlv.serialize_usize(0x0102030405060708).unwrap();
    assert_eq!(tlv.val, vec![8, 7, 6, 5, 4, 3, 2, 1]);
}

#[test]
fn test_unknown_tag_is_invalid_data() {
    // A TLV whose tag byte is unknown must be rejected as invalid data.
    let mut buf = vec![9u8];
    buf.extend_from_slice(&[1, 0, 0, 0, 0, 0, 0, 0]);
    buf.push(42);
    assert!(matches!(
        DeserTLV::new(&buf),
        Err(qstra::err::DbError::InvalidData)
    ));
    // A buffer shorter than a TLV header is a short buffer.
    assert!(matches!(
        DeserTLV::new(&[3u8, 0, 0]),
        Err(qstra::err::DbError::UnexpectedEof)
    ));
}
