//! The write-ahead log's record format and replay: records are
//! `[2 bytes LE: length][length bytes: one command frame]`, and replay
//! folds each logged write command back into the controller.

use vstd::prelude::*;
use vstd::bytes::*;

use crate::cmd::Cmd;
use crate::cmd::CmdResponseCode;
use crate::cmd::CmdResponseTLV;
use crate::cmd::CmdV;
use crate::cmd::WriteCmd;
use crate::cmd;
use crate::ctl::Ctl;
use crate::ctl::CtlV;
use crate::err::DbError;

verus! {

/// The bytes of one log record: a 2-byte LE length, then the frame.
pub open spec fn spec_wal_record(frame: Seq<u8>) -> Seq<u8>
    recommends
        frame.len() <= u16::MAX,
{
    spec_u16_to_le_bytes(frame.len() as u16) + frame
}

/// Whether a command's frame is appended to the log: only a successful
/// database or Bloom-filter write is.
pub open spec fn spec_should_log(c: CmdV, rc: CmdResponseCode) -> bool {
    rc == CmdResponseCode::Success && c.is_logged_write()
}

/// The record to append to the write-ahead log after a command was
/// answered, if any: the whole request frame, length-prefixed, for a
/// successful database or Bloom-filter write. A frame too long for the
/// 2-byte length field is not logged.
pub fn postprocess_cmd(cmd: &Cmd, resp: &CmdResponseTLV, frame: &[u8]) -> (r: Option<Vec<u8>>)
    ensures
        match r {
            Some(rec) => spec_should_log(cmd@, resp@.rc) && frame@.len() <= u16::MAX && rec@
                == spec_wal_record(frame@),
            None => !spec_should_log(cmd@, resp@.rc) || frame@.len() > u16::MAX,
        },
{
    match resp.status() {
        CmdResponseCode::Error => {
            return None;
        },
        CmdResponseCode::Success => {},
    }
    match cmd {
        Cmd::Write(WriteCmd::BloomFilter(_)) | Cmd::Write(WriteCmd::Database(_)) => {
            if frame.len() > 65535 {
                return None;
            }
            let mut rec = u16_to_le_bytes(frame.len() as u16);
            crate::srl::push_bytes(&mut rec, frame);
            Some(rec)
        },
        _ => None,
    }
}

/// How a write-ahead log folds into a controller, record by record: a
/// trailing byte or a clean end stops the replay successfully; a zero
/// length is skipped; a record cut short fails; a record whose frame does
/// not parse or decode fails with that error; a decoded write command
/// steps the state (its outcome is not inspected); a read command is
/// ignored. On failure the records already applied stay applied.
pub open spec fn spec_replay(pre: CtlV, wal: Seq<u8>) -> (CtlV, Result<(), DbError>)
    decreases wal.len(),
{
    if wal.len() <= 1 {
        (pre, Ok(()))
    } else {
        let len = spec_u16_from_le_bytes(wal.subrange(0, 2)) as int;
        if len == 0 {
            spec_replay(pre, wal.skip(2))
        } else if wal.len() - 2 < len {
            (pre, Err(DbError::ReplayFailed))
        } else {
            let frame = wal.subrange(2, 2 + len);
            let rest = wal.skip(2 + len);
            match cmd::spec_parse_cmd_tlv(frame) {
                Err(e) => (pre, Err(e)),
                Ok((ct, val)) => match cmd::spec_decode_cmd(ct, val) {
                    Err(e) => (pre, Err(e)),
                    Ok(c) => if c.is_write() {
                        spec_replay(cmd::spec_write_step(pre, c).0, rest)
                    } else {
                        spec_replay(pre, rest)
                    },
                },
            }
        }
    }
}

/// The write-ahead log produced by appending one record per frame, in
/// order.
pub open spec fn spec_wal_of(frames: Seq<Seq<u8>>) -> Seq<u8>
    decreases frames.len(),
{
    if frames.len() == 0 {
        Seq::empty()
    } else {
        spec_wal_record(frames[0]) + spec_wal_of(frames.skip(1))
    }
}

/// The state after executing a sequence of write commands in order,
/// ignoring each command's success flag, exactly as the dispatcher does.
pub open spec fn spec_exec_cmds(pre: CtlV, cs: Seq<CmdV>) -> CtlV
    decreases cs.len(),
{
    if cs.len() == 0 {
        pre
    } else {
        spec_exec_cmds(cmd::spec_write_step(pre, cs[0]).0, cs.skip(1))
    }
}

/// Law: replay reconstructs execution. Replaying the log that holds one
/// record per command frame, each of which decodes to a write command,
/// succeeds and yields exactly the state of executing those commands in
/// order. Replay is thereby deterministic: a crash and restart that
/// replays the log reaches the same state the original run reached.
pub proof fn lemma_wal_replay_matches_execution(pre: CtlV, frames: Seq<Seq<u8>>, cs: Seq<CmdV>)
    requires
        frames.len() == cs.len(),
        forall|i: int| 0 <= i < frames.len() ==> 1 <= (#[trigger] frames[i]).len() <= u16::MAX,
        forall|i: int|
            0 <= i < frames.len() ==> match cmd::spec_parse_cmd_tlv(#[trigger] frames[i]) {
                Ok((ct, val)) => cmd::spec_decode_cmd(ct, val) == Ok::<CmdV, DbError>(cs[i])
                    && cs[i].is_write(),
                Err(_) => false,
            },
    ensures
        spec_replay(pre, spec_wal_of(frames)) == (spec_exec_cmds(pre, cs), Ok::<(), DbError>(())),
    decreases frames.len(),
{
    vstd::bytes::lemma_auto_spec_u16_to_from_le_bytes();
    if frames.len() == 0 {
        assert(spec_wal_of(frames) == Seq::<u8>::empty());
        assert(spec_replay(pre, Seq::<u8>::empty()) == (pre, Ok::<(), DbError>(())));
    } else {
        let f0 = frames[0];
        let wal = spec_wal_of(frames);
        let rest_wal = spec_wal_of(frames.skip(1));
        assert(wal == spec_wal_record(f0) + rest_wal);
        assert(wal.len() == 2 + f0.len() + rest_wal.len());
        assert(wal.subrange(0, 2) =~= spec_u16_to_le_bytes(f0.len() as u16));
        assert(spec_u16_from_le_bytes(wal.subrange(0, 2)) == f0.len() as u16);
        assert(wal.subrange(2, 2 + f0.len() as int) =~= f0);
        assert(wal.skip(2 + f0.len() as int) =~= rest_wal);
        let c0 = cs[0];
        let mid = cmd::spec_write_step(pre, c0).0;
        lemma_wal_replay_matches_execution(mid, frames.skip(1), cs.skip(1));
        assert forall|i: int|
            0 <= i < frames.skip(1).len() implies 1 <= (#[trigger] frames.skip(1)[i]).len()
            <= u16::MAX by {
            assert(frames.skip(1)[i] == frames[i + 1]);
        }
        assert(spec_replay(pre, wal) == spec_replay(mid, rest_wal));
        assert(spec_exec_cmds(pre, cs) == spec_exec_cmds(mid, cs.skip(1)));
    }
}

/// Folds a write-ahead log buffer into the controller, exactly as
/// [`spec_replay`] says. Responses produced during replay are discarded.
pub fn replay(ctl: &mut Ctl, wal: &[u8]) -> (r: Result<(), DbError>)
    requires
        old(ctl)@.wf(),
    ensures
        final(ctl)@.wf(),
        final(ctl).cfg == old(ctl).cfg,
        (final(ctl)@, r) == spec_replay(old(ctl)@, wal@),
{
    let ghost pre0 = ctl@;
    let mut pos: usize = 0;
    proof {
        assert(wal@.skip(0) =~= wal@);
    }
    while wal.len() - pos > 1
        invariant
            pos <= wal@.len(),
            pre0 == old(ctl)@,
            ctl@.wf(),
            ctl.cfg == old(ctl).cfg,
            spec_replay(pre0, wal@) == spec_replay(ctl@, wal@.skip(pos as int)),
        decreases wal@.len() - pos,
    {
        let ghost pre_iter = ctl@;
        let ghost rest = wal@.skip(pos as int);
        proof {
            assert(rest.len() > 1);
            assert(wal@.subrange(pos as int, pos + 2) =~= rest.subrange(0, 2));
        }
        let len = u16_from_le_bytes(vstd::slice::slice_subrange(wal, pos, pos + 2)) as usize;
        if len == 0 {
            proof {
                assert(rest.skip(2) =~= wal@.skip(pos + 2));
            }
            pos = pos + 2;
            continue ;
        }
        if wal.len() - pos - 2 < len {
            proof {
                assert(spec_replay(pre_iter, rest) == (pre_iter, Err::<(), DbError>(
                    DbError::ReplayFailed,
                )));
            }
            return Err(DbError::ReplayFailed);
        }
        let frame = vstd::slice::slice_subrange(wal, pos + 2, pos + 2 + len);
        proof {
            assert(frame@ =~= rest.subrange(2, 2 + len as int));
            assert(rest.skip(2 + len as int) =~= wal@.skip(pos + 2 + len));
        }
        let tlv = match cmd::CmdTLV::new(frame) {
            Ok(t) => t,
            Err(e) => {
                return Err(e);
            },
        };
        let c = match cmd::decode_cmd(&tlv) {
            Ok(c) => c,
            Err(e) => {
                return Err(e);
            },
        };
        let mut resp = CmdResponseTLV::new();
        match &c {
            Cmd::Write(write_cmd) => {
                match write_cmd {
                    WriteCmd::Ctl(_) => {
                        proof {
                            assert(cmd::spec_write_step(pre_iter, c@).0 == pre_iter);
                        }
                    },
                    WriteCmd::Database(cmd_db) => {
                        let rr = cmd::handle_write_cmd_db(cmd_db, ctl, &mut resp);
                        match rr {
                            Ok(()) => {},
                            Err(e) => {
                                return Err(e);
                            },
                        }
                    },
                    WriteCmd::BloomFilter(cmd_bf) => {
                        let rr = cmd::handle_write_cmd_bf(cmd_bf, ctl, &mut resp);
                        match rr {
                            Ok(()) => {},
                            Err(e) => {
                                return Err(e);
                            },
                        }
                    },
                }
            },
            Cmd::Read(_) => {},
        }
        pos = pos + 2 + len;
    }
    proof {
        assert(wal@.skip(pos as int).len() <= 1);
        assert(spec_replay(ctl@, wal@.skip(pos as int)) == (ctl@, Ok::<(), DbError>(())));
    }
    Ok(())
}

} // verus!
