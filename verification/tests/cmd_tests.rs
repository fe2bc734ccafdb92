use qstra::cmd::decode_cmd;
use qstra::cmd::Cmd;
use qstra::cmd::CmdResponseCode;
use qstra::cmd::CmdResponseTLV;
use qstra::cmd::CmdTLV;
use qstra::cmd::ReadCmd;
use qstra::cmd::ReadCmdBloomFilter;
use qstra::cmd::ReadCmdCtl;
use qstra::cmd::ReadOpBloomFilter;
use qstra::cmd::ReadOpBloomFilterHas;
use qstra::cmd::ReadOpBloomFilterHasBatch;
use qstra::cmd::ReadOpCtl;
use qstra::cmd::WriteCmd;
use qstra::cmd::WriteCmdBloomFilter;
use qstra::cmd::WriteCmdCtl;
use qstra::cmd::WriteCmdDatabase;
use qstra::cmd::WriteOpBloomFilter;
use qstra::cmd::WriteOpBloomFilterAdd;
use qstra::cmd::WriteOpBloomFilterAddBatch;
use qstra::cmd::WriteOpCtl;
use qstra::cmd::WriteOpDatabase;
use qstra::cmd::WriteOpDatabaseNewBloomFilter;
use qstra::err::DbError;

#[test]
fn test_parsing() {
    let inbytes: &[u8] = &[1, 0, 255, 255, 3, 0, 0, 0, 0, 1, 0];
    match decode_cmd(&CmdTLV::new(inbytes).unwrap()).unwrap() {
        Cmd::Write(WriteCmd::Ctl(WriteCmdCtl { op: WriteOpCtl::WalReplay })) => {}
        _ => {
            assert!(false)
        }
    }

    let inbytes: &[u8] = &[1, 1, 255, 255, 3, 0, 0, 0, 0, 1, 0];
    match decode_cmd(&CmdTLV::new(inbytes).unwrap()).unwrap() {
        Cmd::Write(WriteCmd::Ctl(WriteCmdCtl { op: WriteOpCtl::LoadData })) => {}
        _ => {
            assert!(false)
        }
    }

    let inbytes: &[u8] = &[1, 2, 255, 255, 3, 0, 0, 0, 0, 1, 0];
    match decode_cmd(&CmdTLV::new(inbytes).unwrap()).unwrap() {
        Cmd::Read(ReadCmd::Ctl(ReadCmdCtl { op: ReadOpCtl::WriteData })) => {}
        _ => {
            assert!(false)
        }
    }

    let inbytes: &[u8] = &[2, 0, 255, 255, 3, 0, 0, 0, 1, 1, 3];
    match decode_cmd(&CmdTLV::new(inbytes).unwrap()).unwrap() {
        Cmd::Write(WriteCmd::Database(WriteCmdDatabase {
            db_id,
            op: WriteOpDatabase::NewBloomFilter(WriteOpDatabaseNewBloomFilter { bf_id }),
        })) => {
            assert!(db_id == 1);
            assert!(bf_id == 3);
        }
        _ => {
            assert!(false)
        }
    }

    let inbytes: &[u8] = &[3, 0, 255, 255, 6, 0, 0, 0, 2, 4, 3, 1, 2, 3];
    match decode_cmd(&CmdTLV::new(inbytes).unwrap()).unwrap() {
        Cmd::Write(WriteCmd::BloomFilter(WriteCmdBloomFilter {
            db_id,
            bf_id,
            op: WriteOpBloomFilter::Add(WriteOpBloomFilterAdd { elt }),
        })) => {
            assert!(db_id == 2);
            assert!(bf_id == 4);
            assert!(elt == vec![1, 2, 3]);
        }
        _ => {
            assert!(false)
        }
    }

    let inbytes: &[u8] = &[3, 1, 255, 255, 9, 0, 0, 0, 6, 7, 6, 10, 11, 12, 2, 13, 14];
    match decode_cmd(&CmdTLV::new(inbytes).unwrap()).unwrap() {
        Cmd::Write(WriteCmd::BloomFilter(WriteCmdBloomFilter {
            db_id,
            bf_id,
            op: WriteOpBloomFilter::AddBatch(WriteOpBloomFilterAddBatch { elts }),
        })) => {
            assert!(db_id == 6);
            assert!(bf_id == 7);
            assert!(elts == vec![10, 11, 12, 2, 13, 14]);
        }
        _ => {
            assert!(false)
        }
    }

    let inbytes: &[u8] = &[3, 2, 255, 255, 7, 0, 0, 0, 1, 1, 4, 99, 98, 97, 96];
    match decode_cmd(&CmdTLV::new(inbytes).unwrap()).unwrap() {
        Cmd::Read(ReadCmd::BloomFilter(ReadCmdBloomFilter {
            db_id,
            bf_id,
            op: ReadOpBloomFilter::Has(ReadOpBloomFilterHas { elt }),
        })) => {
            assert!(db_id == 1);
            assert!(bf_id == 1);
            assert!(elt == vec![99, 98, 97, 96]);
        }
        _ => {
            assert!(false)
        }
    }

    let inbytes: &[u8] = &[3, 3, 255, 255, 11, 0, 0, 0, 2, 3, 8, 3, 100, 111, 222, 3, 253, 254, 255];
    match decode_cmd(&CmdTLV::new(inbytes).unwrap()).unwrap() {
        Cmd::Read(ReadCmd::BloomFilter(ReadCmdBloomFilter {
            db_id,
            bf_id,
            op: ReadOpBloomFilter::HasBatch(ReadOpBloomFilterHasBatch { elts }),
        })) => {
            assert!(db_id == 2);
            assert!(bf_id == 3);
            assert!(elts == vec![3, 100, 111, 222, 3, 253, 254, 255]);
        }
        _ => {
            assert!(false)
        }
    }
}

#[test]
fn test_frame_too_short() {
    assert!(matches!(
        CmdTLV::new(&[1, 0, 255, 255, 3, 0, 0, 0]),
        Err(DbError::UnexpectedEof)
    ));
    let tlv = CmdTLV::new(&[3, 0, 255, 255, 9, 0, 0, 0, 1]);
    assert!(matches!(tlv, Err(DbError::UnexpectedEof)));
}

#[test]
fn test_unrecognized_command() {
    let inbytes: &[u8] = &[4, 0, 255, 255, 3, 0, 0, 0, 0, 1, 0];
    assert!(matches!(
        decode_cmd(&CmdTLV::new(inbytes).unwrap()),
        Err(DbError::UnrecognizedCmd)
    ));
    let inbytes: &[u8] = &[1, 7, 255, 255, 3, 0, 0, 0, 0, 1, 0];
    assert!(matches!(
        decode_cmd(&CmdTLV::new(inbytes).unwrap()),
        Err(DbError::UnrecognizedCmd)
    ));
    let inbytes: &[u8] = &[3, 9, 255, 255, 6, 0, 0, 0, 2, 4, 3, 1, 2, 3];
    assert!(matches!(
        decode_cmd(&CmdTLV::new(inbytes).unwrap()),
        Err(DbError::UnrecognizedCmd)
    ));
}

#[test]
fn test_malformed_lv_payload() {
    // Family 3 payload shorter than four bytes.
    let inbytes: &[u8] = &[3, 0, 255, 255, 3, 0, 0, 0, 2, 4, 3];
    assert!(matches!(
        decode_cmd(&CmdTLV::new(inbytes).unwrap()),
        Err(DbError::UnexpectedEof)
    ));
    // A length-value whose declared length runs past the payload.
    let inbytes: &[u8] = &[3, 0, 255, 255, 6, 0, 0, 0, 2, 4, 9, 1, 2, 3];
    assert!(matches!(
        decode_cmd(&CmdTLV::new(inbytes).unwrap()),
        Err(DbError::UnexpectedEof)
    ));
    // A zero-length element argument.
    let inbytes: &[u8] = &[3, 0, 255, 255, 6, 0, 0, 0, 2, 4, 0, 1, 2, 3];
    assert!(matches!(
        decode_cmd(&CmdTLV::new(inbytes).unwrap()),
        Err(DbError::UnexpectedEof)
    ));
}

#[test]
fn test_response_frame_bytes() {
    let mut resp = CmdResponseTLV::new();
    assert!(matches!(resp.status(), CmdResponseCode::Success));
    assert_eq!(resp.to_bytes(), vec![0, 255]);
    resp = CmdResponseTLV {
        rc: CmdResponseCode::Error,
        val: vec![7, 8],
    };
    assert!(matches!(resp.status(), CmdResponseCode::Error));
    assert_eq!(resp.to_bytes(), vec![1, 7, 8, 255]);
}
