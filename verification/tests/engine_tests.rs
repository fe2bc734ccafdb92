use qstra::bf::BloomFilter;
use qstra::bf::BloomFilterStructure;
use qstra::cfg::Config;
use qstra::cmd::decode_cmd;
use qstra::cmd::dispatch_read_cmd;
use qstra::cmd::dispatch_write_cmd;
use qstra::cmd::Cmd;
use qstra::cmd::CmdResponseTLV;
use qstra::cmd::CmdTLV;
use qstra::ctl::Ctl;
use qstra::err::DbError;
use qstra::reg::Registry;
use qstra::wal::postprocess_cmd;

fn fresh_ctl() -> Ctl {
    let mut ctl = Ctl::new_blank(Config::default());
    ctl.init().unwrap();
    ctl
}

/// Feeds one request frame to a controller the way the connection loop
/// does, collecting the response bytes and any write-ahead-log record.
fn run_frame(ctl: &mut Ctl, frame: &[u8], wal: &mut Vec<u8>) -> Vec<u8> {
    let tlv = CmdTLV::new(frame).unwrap();
    let cmd = decode_cmd(&tlv).unwrap();
    let mut resp = CmdResponseTLV::new();
    match &cmd {
        Cmd::Read(read_cmd) => {
            dispatch_read_cmd(read_cmd, ctl, &mut resp).unwrap();
        }
        Cmd::Write(write_cmd) => {
            let wal_now = wal.clone();
            dispatch_write_cmd(write_cmd, ctl, &[], &wal_now, &mut resp).unwrap();
        }
    }
    let out = resp.to_bytes();
    if let Some(rec) = postprocess_cmd(&cmd, &resp, frame) {
        wal.extend_from_slice(&rec);
    }
    out
}

fn new_bf_frame(db_id: u8, bf_id: u8) -> Vec<u8> {
    vec![2, 0, 255, 255, 3, 0, 0, 0, db_id, 1, bf_id]
}

fn add_frame(db_id: u8, bf_id: u8, elt: &[u8]) -> Vec<u8> {
    let mut v = vec![3, 0, 255, 255, (3 + elt.len()) as u8, 0, 0, 0, db_id, bf_id, elt.len() as u8];
    v.extend_from_slice(elt);
    v
}

fn has_frame(db_id: u8, bf_id: u8, elt: &[u8]) -> Vec<u8> {
    let mut v = vec![3, 2, 255, 255, (3 + elt.len()) as u8, 0, 0, 0, db_id, bf_id, elt.len() as u8];
    v.extend_from_slice(elt);
    v
}

#[test]
fn test_has_after_add_end_to_end() {
    let mut ctl = fresh_ctl();
    let mut wal = Vec::new();
    let r1 = run_frame(&mut ctl, &new_bf_frame(0, 0), &mut wal);
    assert_eq!(r1, vec![0, 255]);
    let r2 = run_frame(&mut ctl, &add_frame(0, 0, &[42]), &mut wal);
    assert_eq!(r2, vec![0, 255]);
    let r3 = run_frame(&mut ctl, &has_frame(0, 0, &[42]), &mut wal);
    assert_eq!(r3, vec![0, 1, 0xFF]);
    let r4 = run_frame(&mut ctl, &has_frame(0, 0, &[43]), &mut wal);
    assert!(r4 == vec![0, 0, 0xFF] || r4 == vec![0, 1, 0xFF]);
}

#[test]
fn test_replay_reconstructs_state() {
    // Run the session, keeping the write-ahead log; then start over from a
    // blank controller and replay the log, as a restart would.
    let mut ctl = fresh_ctl();
    let mut wal = Vec::new();
    run_frame(&mut ctl, &new_bf_frame(0, 0), &mut wal);
    run_frame(&mut ctl, &add_frame(0, 0, &[42]), &mut wal);
    run_frame(&mut ctl, &has_frame(0, 0, &[42]), &mut wal);
    assert!(!wal.is_empty());

    let mut reborn = fresh_ctl();
    reborn.replay_logging_data(&wal).unwrap();
    let mut check = Vec::new();
    let r = run_frame(&mut reborn, &has_frame(0, 0, &[42]), &mut check);
    assert_eq!(r, vec![0, 1, 0xFF]);
}

#[test]
fn test_missing_targets_err_and_skip_wal() {
    let mut ctl = fresh_ctl();
    let mut wal = Vec::new();
    // Missing database.
    let r = run_frame(&mut ctl, &new_bf_frame(7, 0), &mut wal);
    assert_eq!(r, vec![1, 255]);
    // Missing filter.
    let r = run_frame(&mut ctl, &add_frame(0, 3, &[1]), &mut wal);
    assert_eq!(r, vec![1, 255]);
    let r = run_frame(&mut ctl, &has_frame(0, 3, &[1]), &mut wal);
    assert_eq!(r, vec![1, 255]);
    // Duplicate filter id.
    let r = run_frame(&mut ctl, &new_bf_frame(0, 0), &mut wal);
    assert_eq!(r, vec![0, 255]);
    let before = wal.len();
    let r = run_frame(&mut ctl, &new_bf_frame(0, 0), &mut wal);
    assert_eq!(r, vec![1, 255]);
    // The failing create was not appended to the log.
    assert_eq!(wal.len(), before);
}

#[test]
fn test_has_batch_results_in_order() {
    let mut ctl = fresh_ctl();
    let mut wal = Vec::new();
    run_frame(&mut ctl, &new_bf_frame(0, 1), &mut wal);
    run_frame(&mut ctl, &add_frame(0, 1, &[100, 111, 222]), &mut wal);
    // HasBatch with the added element and a fresh one.
    let frame = vec![
        3, 3, 255, 255, 11, 0, 0, 0, 0, 1, 8, 3, 100, 111, 222, 3, 253, 254, 255,
    ];
    let r = run_frame(&mut ctl, &frame, &mut wal);
    assert_eq!(r.len(), 4);
    assert_eq!(r[0], 0);
    assert_eq!(r[1], 1);
    assert!(r[2] == 0 || r[2] == 1);
    assert_eq!(r[3], 255);
}

#[test]
fn test_bloom_no_false_negatives() {
    let mut bf = BloomFilter::new(1000, 1000, 5);
    let elems: Vec<Vec<u8>> = vec![
        vec![1],
        vec![2, 3],
        vec![4, 5, 6],
        b"hello".to_vec(),
        b"world".to_vec(),
    ];
    for e in &elems {
        bf.add(e).unwrap();
    }
    for e in &elems {
        assert!(bf.has(e).unwrap());
    }
}

#[test]
fn test_registry_add_and_get() {
    let mut reg = Registry::<u32>::new_blank();
    assert_eq!(reg.count(), 0);
    reg.add(10, 1).unwrap();
    reg.add(20, 2).unwrap();
    assert_eq!(reg.count(), 2);
    assert_eq!(reg.get(1), Some(&10));
    assert_eq!(reg.get(2), Some(&20));
    assert_eq!(reg.get(3), None);
    assert!(matches!(reg.add(30, 1), Err(DbError::DuplicateKey)));
    // The failed add changed nothing.
    assert_eq!(reg.count(), 2);
    assert_eq!(reg.get(1), Some(&10));
    assert_eq!(reg.list().len(), 2);
    if let Some(v) = reg.get_mut(2) {
        *v = 25;
    }
    assert_eq!(reg.get(2), Some(&25));
    reg.clear_state();
    assert_eq!(reg.count(), 0);
    assert_eq!(reg.get(1), None);
}

#[test]
fn test_snapshot_round_trip_end_to_end() {
    let mut ctl = fresh_ctl();
    let mut wal = Vec::new();
    run_frame(&mut ctl, &new_bf_frame(0, 0), &mut wal);
    run_frame(&mut ctl, &add_frame(0, 0, &[9, 9, 9]), &mut wal);

    // WriteData yields the snapshot bytes the server would persist.
    let tlv = CmdTLV::new(&[1, 2, 255, 255, 3, 0, 0, 0, 0, 1, 0]).unwrap();
    let cmd = decode_cmd(&tlv).unwrap();
    let mut resp = CmdResponseTLV::new();
    let snap = match &cmd {
        Cmd::Read(read_cmd) => dispatch_read_cmd(read_cmd, &ctl, &mut resp).unwrap().unwrap(),
        Cmd::Write(_) => unreachable!(),
    };
    assert_eq!(resp.to_bytes(), vec![0, 255]);

    // Load the snapshot into a blank controller, with an empty log.
    let mut reborn = Ctl::new_blank(Config::default());
    reborn.load_state(&snap, &[]).unwrap();
    let mut check = Vec::new();
    let r = run_frame(&mut reborn, &has_frame(0, 0, &[9, 9, 9]), &mut check);
    assert_eq!(r, vec![0, 1, 0xFF]);
    let r = run_frame(&mut reborn, &add_frame(0, 0, &[1, 2]), &mut check);
    assert_eq!(r, vec![0, 255]);
}

#[test]
fn test_replay_rejects_cut_record() {
    let mut ctl = fresh_ctl();
    // A record that claims five bytes but holds two.
    let wal = vec![5, 0, 1, 2];
    assert!(matches!(
        ctl.replay_logging_data(&wal),
        Err(DbError::ReplayFailed)
    ));
    // Zero-length records are skipped; a trailing byte ends the log.
    let wal = vec![0, 0, 0, 0, 7];
    ctl.replay_logging_data(&wal).unwrap();
}

#[test]
fn test_wal_record_layout() {
    let mut ctl = fresh_ctl();
    let mut wal = Vec::new();
    let frame = new_bf_frame(0, 2);
    run_frame(&mut ctl, &frame, &mut wal);
    let mut expected = vec![frame.len() as u8, 0];
    expected.extend_from_slice(&frame);
    assert_eq!(wal, expected);
}

#[test]
fn test_add_batch_partial_error_keeps_prefix() {
    let mut ctl = fresh_ctl();
    let mut wal = Vec::new();
    run_frame(&mut ctl, &new_bf_frame(0, 0), &mut wal);
    // AddBatch whose second element is cut off mid-way.
    let frame = vec![3, 1, 255, 255, 8, 0, 0, 0, 0, 0, 5, 2, 50, 51, 9, 60];
    let r = run_frame(&mut ctl, &frame, &mut wal);
    assert_eq!(r, vec![1, 255]);
    // The first element was added before the batch failed.
    let mut check = Vec::new();
    let r = run_frame(&mut ctl, &has_frame(0, 0, &[50, 51]), &mut check);
    assert_eq!(r, vec![0, 1, 0xFF]);
}

#[test]
fn test_load_data_command_restores_snapshot() {
    let mut ctl = fresh_ctl();
    let mut wal = Vec::new();
    run_frame(&mut ctl, &new_bf_frame(0, 0), &mut wal);
    run_frame(&mut ctl, &add_frame(0, 0, &[5]), &mut wal);

    let tlv = CmdTLV::new(&[1, 2, 255, 255, 3, 0, 0, 0, 0, 1, 0]).unwrap();
    let cmd = decode_cmd(&tlv).unwrap();
    let mut resp = CmdResponseTLV::new();
    let snap = match &cmd {
        Cmd::Read(read_cmd) => dispatch_read_cmd(read_cmd, &ctl, &mut resp).unwrap().unwrap(),
        Cmd::Write(_) => unreachable!(),
    };

    // A LoadData command against a blank controller, fed the snapshot and
    // an empty log, rebuilds the state.
    let tlv = CmdTLV::new(&[1, 1, 255, 255, 3, 0, 0, 0, 0, 1, 0]).unwrap();
    let cmd = decode_cmd(&tlv).unwrap();
    let mut reborn = Ctl::new_blank(Config::default());
    let mut resp = CmdResponseTLV::new();
    match &cmd {
        Cmd::Write(write_cmd) => {
            dispatch_write_cmd(write_cmd, &mut reborn, &snap, &[], &mut resp).unwrap();
        }
        Cmd::Read(_) => unreachable!(),
    }
    assert_eq!(resp.to_bytes(), vec![0, 255]);
    let mut check = Vec::new();
    let r = run_frame(&mut reborn, &has_frame(0, 0, &[5]), &mut check);
    assert_eq!(r, vec![0, 1, 0xFF]);
}

#[test]
fn test_wal_replay_command() {
    let mut ctl = fresh_ctl();
    let mut wal = Vec::new();
    run_frame(&mut ctl, &new_bf_frame(0, 0), &mut wal);
    run_frame(&mut ctl, &add_frame(0, 0, &[77, 78]), &mut wal);

    // A WalReplay command against a freshly seeded controller, fed the
    // recorded log, rebuilds the state.
    let tlv = CmdTLV::new(&[1, 0, 255, 255, 3, 0, 0, 0, 0, 1, 0]).unwrap();
    let cmd = decode_cmd(&tlv).unwrap();
    let mut reborn = fresh_ctl();
    let mut resp = CmdResponseTLV::new();
    match &cmd {
        Cmd::Write(write_cmd) => {
            dispatch_write_cmd(write_cmd, &mut reborn, &[], &wal, &mut resp).unwrap();
        }
        Cmd::Read(_) => unreachable!(),
    }
    assert_eq!(resp.to_bytes(), vec![0, 255]);
    let mut check = Vec::new();
    let r = run_frame(&mut reborn, &has_frame(0, 0, &[77, 78]), &mut check);
    assert_eq!(r, vec![0, 1, 0xFF]);
}

#[test]
fn test_default_filter_parameters() {
    let bfs = BloomFilterStructure::new_default(4, 2);
    assert_eq!(bfs.id, 4);
    assert_eq!(bfs.dbid, 2);
    assert_eq!(bfs.inner.bit_cnt, 1000);
    assert_eq!(bfs.inner.hfn_cnt, 2);
    assert_eq!(bfs.inner.bits.size, 1000);
    let conf = Config::default();
    assert!(conf.listen_local);
    assert!(conf.listen_network);
    assert_eq!(conf.inet_addr, "127.0.0.1:1234");
    assert_eq!(conf.sock_addr, "bdb.sock");
    assert_eq!(conf.db_file, "bdb.db");
    assert_eq!(conf.wal_file, "bdb.wal");
}
