//! The binary command protocol: the request frame, the typed commands of
//! the three families (controller, database, Bloom filter), their decoder,
//! the response frame, and the dispatcher that runs a command against the
//! controller.

use vstd::prelude::*;
use vstd::bytes::*;

use crate::bf::BloomFilterStructure;
use crate::bf::BloomV;
use crate::ctl::Ctl;
use crate::ctl::CtlV;
use crate::ctl;
use crate::db::Database;
use crate::err::DbError;

verus! {

/// The byte that closes every response frame.
pub const END_SENTINEL: u8 = 255;

const TOKEN_FALSE: u8 = 0;

const TOKEN_TRUE: u8 = 1;

/// The status of a response.
#[derive(Debug, Clone, Copy, PartialEq, Eq, Structural)]
pub enum CmdResponseCode {
    Success,
    Error,
}

impl CmdResponseCode {
    /// The wire byte of each status.
    pub open spec fn code(self) -> u8 {
        match self {
            CmdResponseCode::Success => 0,
            CmdResponseCode::Error => 1,
        }
    }
}

/// The mathematical value of a [`CmdResponseTLV`].
#[verifier::ext_equal]
pub struct CmdResponseV {
    pub rc: CmdResponseCode,
    pub val: Seq<u8>,
}

/// A response being assembled: its status and the value bytes the
/// operation accumulated.
pub struct CmdResponseTLV {
    pub rc: CmdResponseCode,
    pub val: Vec<u8>,
}

impl View for CmdResponseTLV {
    type V = CmdResponseV;

    open spec fn view(&self) -> CmdResponseV {
        CmdResponseV { rc: self.rc, val: self.val@ }
    }
}

impl CmdResponseTLV {
    /// A fresh response: success, no value yet.
    #[must_use]
    pub fn new() -> (r: Self)
        ensures
            r@.rc == CmdResponseCode::Success,
            r@.val == Seq::<u8>::empty(),
    {
        Self { rc: CmdResponseCode::Success, val: Vec::<u8>::new() }
    }

    /// The response's status.
    pub fn status(&self) -> (r: CmdResponseCode)
        ensures
            r == self@.rc,
    {
        self.rc
    }

    /// Flips the status to error; the value bytes stay.
    #[inline(always)]
    pub(crate) fn init_error_response(&mut self)
        ensures
            final(self)@.rc == CmdResponseCode::Error,
            final(self)@.val == old(self)@.val,
    {
        self.rc = CmdResponseCode::Error;
    }

    /// Flips the status back to success; the value bytes stay.
    #[inline(always)]
    #[allow(dead_code)]
    pub(crate) fn init_success_response(&mut self)
        ensures
            final(self)@.rc == CmdResponseCode::Success,
            final(self)@.val == old(self)@.val,
    {
        self.rc = CmdResponseCode::Success;
    }

    /// Appends one byte to the value.
    #[inline(always)]
    pub(crate) fn append(&mut self, x: u8)
        ensures
            final(self)@.rc == old(self)@.rc,
            final(self)@.val == old(self)@.val.push(x),
    {
        self.val.push(x);
    }

    /// The bytes of a response frame: the status byte, the value, the end
    /// sentinel.
    pub open spec fn spec_frame_bytes(v: CmdResponseV) -> Seq<u8> {
        seq![v.rc.code()] + v.val + seq![END_SENTINEL]
    }

    /// The response frame to write back to the client.
    pub fn to_bytes(&self) -> (r: Vec<u8>)
        ensures
            r@ == Self::spec_frame_bytes(self@),
    {
        let mut ret = Vec::<u8>::new();
        let code: u8 = match self.rc {
            CmdResponseCode::Success => 0,
            CmdResponseCode::Error => 1,
        };
        ret.push(code);
        crate::srl::push_bytes(&mut ret, self.val.as_slice());
        ret.push(END_SENTINEL);
        proof {
            assert(ret@ =~= Self::spec_frame_bytes(self@));
        }
        ret
    }
}

/// How a length-value argument reads out of a payload: a one-byte length
/// `n`, then `n` bytes. A buffer with no room for a length and a byte, a
/// zero length, or a length that runs past the buffer is a short buffer.
pub open spec fn spec_parse_lv(buf: Seq<u8>) -> Result<Seq<u8>, DbError> {
    if buf.len() < 2 {
        Err(DbError::UnexpectedEof)
    } else {
        let n = buf[0] as int;
        if n == 0 {
            Err(DbError::UnexpectedEof)
        } else if n + 1 > buf.len() {
            Err(DbError::UnexpectedEof)
        } else {
            Ok(buf.subrange(1, n + 1))
        }
    }
}

/// A length-value argument read out of a payload: a copy of its bytes.
pub struct LV {
    pub val: Vec<u8>,
}

impl LV {
    /// Reads the leading length-value argument of `buf`, exactly as
    /// [`spec_parse_lv`] says; the value holds at least one byte.
    pub fn new(buf: &[u8]) -> (r: Result<LV, DbError>)
        ensures
            match r {
                Ok(lv) => spec_parse_lv(buf@) == Ok::<Seq<u8>, DbError>(lv.val@) && lv.val@.len()
                    >= 1,
                Err(e) => spec_parse_lv(buf@) == Err::<Seq<u8>, DbError>(e),
            },
    {
        if buf.len() < 2 {
            return Err(DbError::UnexpectedEof);
        }
        let len = buf[0] as usize;
        if len == 0 {
            return Err(DbError::UnexpectedEof);
        }
        if len + 1 > buf.len() {
            return Err(DbError::UnexpectedEof);
        }
        let val = vstd::slice::slice_to_vec(vstd::slice::slice_subrange(buf, 1, len + 1));
        Ok(Self { val })
    }
}

/// The mathematical value of a decoded command.
#[verifier::ext_equal]
pub enum CmdV {
    WalReplay,
    LoadData,
    WriteData,
    NewBloomFilter { db_id: u8, bf_id: u8 },
    Add { db_id: u8, bf_id: u8, elt: Seq<u8> },
    AddBatch { db_id: u8, bf_id: u8, elts: Seq<u8> },
    Has { db_id: u8, bf_id: u8, elt: Seq<u8> },
    HasBatch { db_id: u8, bf_id: u8, elts: Seq<u8> },
}

impl CmdV {
    /// Whether the command mutates the in-memory state.
    pub open spec fn is_write(self) -> bool {
        match self {
            CmdV::WalReplay => true,
            CmdV::LoadData => true,
            CmdV::NewBloomFilter { .. } => true,
            CmdV::Add { .. } => true,
            CmdV::AddBatch { .. } => true,
            _ => false,
        }
    }

    /// Whether the command is logged to the write-ahead log when it
    /// succeeds: the database and Bloom-filter writes, not the control
    /// operations.
    pub open spec fn is_logged_write(self) -> bool {
        match self {
            CmdV::NewBloomFilter { .. } => true,
            CmdV::Add { .. } => true,
            CmdV::AddBatch { .. } => true,
            _ => false,
        }
    }
}

/// A decoded command: a read or a write.
pub enum Cmd {
    Read(ReadCmd),
    Write(WriteCmd),
}

/// The read commands.
pub enum ReadCmd {
    BloomFilter(ReadCmdBloomFilter),
    Ctl(ReadCmdCtl),
}

/// A read command against the controller.
pub struct ReadCmdCtl {
    pub op: ReadOpCtl,
}

/// The controller's read operations.
pub enum ReadOpCtl {
    WriteData,
}

/// A read command against one Bloom filter.
pub struct ReadCmdBloomFilter {
    pub db_id: u8,
    pub bf_id: u8,
    pub op: ReadOpBloomFilter,
}

/// The Bloom-filter read operations.
pub enum ReadOpBloomFilter {
    Has(ReadOpBloomFilterHas),
    HasBatch(ReadOpBloomFilterHasBatch),
}

/// Membership test for one element.
pub struct ReadOpBloomFilterHas {
    pub elt: Vec<u8>,
}

/// Membership test for a run of length-value encoded elements.
pub struct ReadOpBloomFilterHasBatch {
    pub elts: Vec<u8>,
}

/// The write commands.
pub enum WriteCmd {
    Ctl(WriteCmdCtl),
    Database(WriteCmdDatabase),
    BloomFilter(WriteCmdBloomFilter),
}

/// A write command against the controller.
pub struct WriteCmdCtl {
    pub op: WriteOpCtl,
}

/// The controller's write operations.
pub enum WriteOpCtl {
    WalReplay,
    LoadData,
}

/// A write command against one database.
pub struct WriteCmdDatabase {
    pub db_id: u8,
    pub op: WriteOpDatabase,
}

/// The database write operations.
pub enum WriteOpDatabase {
    NewBloomFilter(WriteOpDatabaseNewBloomFilter),
}

/// Creation of a fresh Bloom filter.
pub struct WriteOpDatabaseNewBloomFilter {
    pub bf_id: u8,
}

/// A write command against one Bloom filter.
pub struct WriteCmdBloomFilter {
    pub db_id: u8,
    pub bf_id: u8,
    pub op: WriteOpBloomFilter,
}

/// The Bloom-filter write operations.
pub enum WriteOpBloomFilter {
    Add(WriteOpBloomFilterAdd),
    AddBatch(WriteOpBloomFilterAddBatch),
}

/// Insertion of one element.
pub struct WriteOpBloomFilterAdd {
    pub elt: Vec<u8>,
}

/// Insertion of a run of length-value encoded elements.
pub struct WriteOpBloomFilterAddBatch {
    pub elts: Vec<u8>,
}

impl View for Cmd {
    type V = CmdV;

    open spec fn view(&self) -> CmdV {
        match self {
            Cmd::Read(r) => r.view(),
            Cmd::Write(w) => w.view(),
        }
    }
}

impl View for ReadCmd {
    type V = CmdV;

    open spec fn view(&self) -> CmdV {
        match self {
            ReadCmd::Ctl(c) => c.view(),
            ReadCmd::BloomFilter(c) => c.view(),
        }
    }
}

impl View for ReadCmdCtl {
    type V = CmdV;

    open spec fn view(&self) -> CmdV {
        CmdV::WriteData
    }
}

impl View for ReadCmdBloomFilter {
    type V = CmdV;

    open spec fn view(&self) -> CmdV {
        match &self.op {
            ReadOpBloomFilter::Has(op) => CmdV::Has {
                db_id: self.db_id,
                bf_id: self.bf_id,
                elt: op.elt@,
            },
            ReadOpBloomFilter::HasBatch(op) => CmdV::HasBatch {
                db_id: self.db_id,
                bf_id: self.bf_id,
                elts: op.elts@,
            },
        }
    }
}

impl View for WriteCmd {
    type V = CmdV;

    open spec fn view(&self) -> CmdV {
        match self {
            WriteCmd::Ctl(c) => c.view(),
            WriteCmd::Database(c) => c.view(),
            WriteCmd::BloomFilter(c) => c.view(),
        }
    }
}

impl View for WriteCmdCtl {
    type V = CmdV;

    open spec fn view(&self) -> CmdV {
        match &self.op {
            WriteOpCtl::WalReplay => CmdV::WalReplay,
            WriteOpCtl::LoadData => CmdV::LoadData,
        }
    }
}

impl View for WriteCmdDatabase {
    type V = CmdV;

    open spec fn view(&self) -> CmdV {
        match &self.op {
            WriteOpDatabase::NewBloomFilter(op) => CmdV::NewBloomFilter {
                db_id: self.db_id,
                bf_id: op.bf_id,
            },
        }
    }
}

impl View for WriteCmdBloomFilter {
    type V = CmdV;

    open spec fn view(&self) -> CmdV {
        match &self.op {
            WriteOpBloomFilter::Add(op) => CmdV::Add {
                db_id: self.db_id,
                bf_id: self.bf_id,
                elt: op.elt@,
            },
            WriteOpBloomFilter::AddBatch(op) => CmdV::AddBatch {
                db_id: self.db_id,
                bf_id: self.bf_id,
                elts: op.elts@,
            },
        }
    }
}

/// How a request buffer splits into a command frame: 4 command-type
/// bytes, a 4-byte LE value length, then the value. Fewer than 9 bytes,
/// or a value running past the buffer, is a short buffer.
pub open spec fn spec_parse_cmd_tlv(buf: Seq<u8>) -> Result<(Seq<u8>, Seq<u8>), DbError> {
    if buf.len() < 9 {
        Err(DbError::UnexpectedEof)
    } else {
        let len = spec_u32_from_le_bytes(buf.subrange(4, 8)) as int;
        if buf.len() < 8 + len {
            Err(DbError::UnexpectedEof)
        } else {
            Ok((buf.subrange(0, 4), buf.subrange(8, 8 + len)))
        }
    }
}

/// One framed request: the 4 command-type bytes and a copy of the value.
pub struct CmdTLV {
    pub cmd_type: [u8; 4],
    pub val: Vec<u8>,
}

impl CmdTLV {
    /// Splits a request buffer, exactly as [`spec_parse_cmd_tlv`] says.
    pub fn new(buf: &[u8]) -> (r: Result<CmdTLV, DbError>)
        ensures
            match r {
                Ok(t) => spec_parse_cmd_tlv(buf@) == Ok::<_, DbError>((t.cmd_type@, t.val@)),
                Err(e) => spec_parse_cmd_tlv(buf@) == Err::<(Seq<u8>, Seq<u8>), _>(e),
            },
    {
        if buf.len() < 9 {
            return Err(DbError::UnexpectedEof);
        }
        let cmd_type: [u8; 4] = [buf[0], buf[1], buf[2], buf[3]];
        let len = u32_from_le_bytes(vstd::slice::slice_subrange(buf, 4, 8));
        if (buf.len() as u64) < 8 + len as u64 {
            return Err(DbError::UnexpectedEof);
        }
        let val = vstd::slice::slice_to_vec(
            vstd::slice::slice_subrange(buf, 8, 8 + len as usize),
        );
        let r = Self { cmd_type, val };
        proof {
            assert(r.cmd_type@ =~= buf@.subrange(0, 4));
        }
        Ok(r)
    }

    /// The frame's value bytes.
    pub fn value(&self) -> (r: &Vec<u8>)
        ensures
            r@ == self.val@,
    {
        &self.val
    }
}

/// How the command-type and value bytes of a frame decode into a command,
/// or why they cannot. Family byte 1 selects the controller operations,
/// family 2 the database operations (payload: a database id and a
/// length-value whose first byte is the filter id), family 3 the
/// Bloom-filter operations (payload: a database id, a filter id, and a
/// length-value argument). Unknown family or operation bytes are an
/// unrecognized command; short payloads and malformed length-values carry
/// their own errors.
pub open spec fn spec_decode_cmd(cmd_type: Seq<u8>, val: Seq<u8>) -> Result<CmdV, DbError>
    recommends
        cmd_type.len() == 4,
{
    let family = cmd_type[0];
    let op = cmd_type[1];
    if family == 1 {
        if op == 0 {
            Ok(CmdV::WalReplay)
        } else if op == 1 {
            Ok(CmdV::LoadData)
        } else if op == 2 {
            Ok(CmdV::WriteData)
        } else {
            Err(DbError::UnrecognizedCmd)
        }
    } else if family == 2 {
        if val.len() < 3 {
            Err(DbError::UnexpectedEof)
        } else {
            match spec_parse_lv(val.skip(1)) {
                Err(e) => Err(e),
                Ok(lv) => if op == 0 {
                    Ok(CmdV::NewBloomFilter { db_id: val[0], bf_id: lv[0] })
                } else {
                    Err(DbError::UnrecognizedCmd)
                },
            }
        }
    } else if family == 3 {
        if val.len() < 4 {
            Err(DbError::UnexpectedEof)
        } else {
            match spec_parse_lv(val.skip(2)) {
                Err(e) => Err(e),
                Ok(lv) => if op == 0 {
                    Ok(CmdV::Add { db_id: val[0], bf_id: val[1], elt: lv })
                } else if op == 1 {
                    Ok(CmdV::AddBatch { db_id: val[0], bf_id: val[1], elts: lv })
                } else if op == 2 {
                    Ok(CmdV::Has { db_id: val[0], bf_id: val[1], elt: lv })
                } else if op == 3 {
                    Ok(CmdV::HasBatch { db_id: val[0], bf_id: val[1], elts: lv })
                } else {
                    Err(DbError::UnrecognizedCmd)
                },
            }
        }
    } else {
        Err(DbError::UnrecognizedCmd)
    }
}

fn decode_bf_cmd(tlv: &CmdTLV) -> (r: Result<Cmd, DbError>)
    requires
        tlv.cmd_type@[0] == 3,
    ensures
        match r {
            Ok(c) => spec_decode_cmd(tlv.cmd_type@, tlv.val@) == Ok::<CmdV, DbError>(c@),
            Err(e) => spec_decode_cmd(tlv.cmd_type@, tlv.val@) == Err::<CmdV, DbError>(e),
        },
{
    let cmd_type = tlv.cmd_type[1];
    let val = tlv.val.as_slice();
    if val.len() < 4 {
        return Err(DbError::UnexpectedEof);
    }
    let db_id = val[0];
    let bf_id = val[1];
    proof {
        assert(tlv.val@.subrange(2, tlv.val@.len() as int) =~= tlv.val@.skip(2));
    }
    let lv = match LV::new(vstd::slice::slice_subrange(val, 2, val.len())) {
        Ok(lv) => lv,
        Err(e) => {
            return Err(e);
        },
    };
    match cmd_type {
        0 => {
            let op = WriteOpBloomFilter::Add(WriteOpBloomFilterAdd { elt: lv.val });
            Ok(Cmd::Write(WriteCmd::BloomFilter(WriteCmdBloomFilter { db_id, bf_id, op })))
        },
        1 => {
            let op = WriteOpBloomFilter::AddBatch(WriteOpBloomFilterAddBatch { elts: lv.val });
            Ok(Cmd::Write(WriteCmd::BloomFilter(WriteCmdBloomFilter { db_id, bf_id, op })))
        },
        2 => {
            let op = ReadOpBloomFilter::Has(ReadOpBloomFilterHas { elt: lv.val });
            Ok(Cmd::Read(ReadCmd::BloomFilter(ReadCmdBloomFilter { db_id, bf_id, op })))
        },
        3 => {
            let op = ReadOpBloomFilter::HasBatch(ReadOpBloomFilterHasBatch { elts: lv.val });
            Ok(Cmd::Read(ReadCmd::BloomFilter(ReadCmdBloomFilter { db_id, bf_id, op })))
        },
        _ => Err(DbError::UnrecognizedCmd),
    }
}

fn decode_db_cmd(tlv: &CmdTLV) -> (r: Result<Cmd, DbError>)
    requires
        tlv.cmd_type@[0] == 2,
    ensures
        match r {
            Ok(c) => spec_decode_cmd(tlv.cmd_type@, tlv.val@) == Ok::<CmdV, DbError>(c@),
            Err(e) => spec_decode_cmd(tlv.cmd_type@, tlv.val@) == Err::<CmdV, DbError>(e),
        },
{
    let cmd_type = tlv.cmd_type[1];
    let val = tlv.val.as_slice();
    if val.len() < 3 {
        return Err(DbError::UnexpectedEof);
    }
    let db_id = val[0];
    proof {
        assert(tlv.val@.subrange(1, tlv.val@.len() as int) =~= tlv.val@.skip(1));
    }
    let lv = match LV::new(vstd::slice::slice_subrange(val, 1, val.len())) {
        Ok(lv) => lv,
        Err(e) => {
            return Err(e);
        },
    };
    match cmd_type {
        0 => {
            let op = WriteOpDatabase::NewBloomFilter(
                WriteOpDatabaseNewBloomFilter { bf_id: lv.val[0] },
            );
            Ok(Cmd::Write(WriteCmd::Database(WriteCmdDatabase { db_id, op })))
        },
        _ => Err(DbError::UnrecognizedCmd),
    }
}

fn decode_ctl_cmd(tlv: &CmdTLV) -> (r: Result<Cmd, DbError>)
    requires
        tlv.cmd_type@[0] == 1,
    ensures
        match r {
            Ok(c) => spec_decode_cmd(tlv.cmd_type@, tlv.val@) == Ok::<CmdV, DbError>(c@),
            Err(e) => spec_decode_cmd(tlv.cmd_type@, tlv.val@) == Err::<CmdV, DbError>(e),
        },
{
    let cmd_type = tlv.cmd_type[1];
    match cmd_type {
        0 => Ok(Cmd::Write(WriteCmd::Ctl(WriteCmdCtl { op: WriteOpCtl::WalReplay }))),
        1 => Ok(Cmd::Write(WriteCmd::Ctl(WriteCmdCtl { op: WriteOpCtl::LoadData }))),
        2 => Ok(Cmd::Read(ReadCmd::Ctl(ReadCmdCtl { op: ReadOpCtl::WriteData }))),
        _ => Err(DbError::UnrecognizedCmd),
    }
}

/// The filter a `NewBloomFilter` command creates: the stock parameters
/// and every bit clear.
pub open spec fn spec_default_bfs(bf_id: u8, dbid: u8) -> crate::bf::BloomFilterStructureV {
    crate::bf::BloomFilterStructureV {
        id: bf_id,
        dbid,
        inner: BloomV {
            bits: crate::bv::BitVecV { words: Seq::new(16, |k: int| 0u64), size: 1000 },
            hfn_cnt: 2,
            bit_cnt: 1000,
        },
    }
}

/// What adding a run of length-value elements does to a filter: each
/// element is added in order until the run ends (success) or an element
/// does not parse (failure; the elements already added stay).
pub open spec fn spec_add_batch(f: BloomV, elts: Seq<u8>) -> (BloomV, bool)
    decreases elts.len(),
{
    if elts.len() == 0 {
        (f, true)
    } else {
        match spec_parse_lv(elts) {
            Err(_) => (f, false),
            Ok(v) => if v.len() + 1 <= elts.len() {
                spec_add_batch(f.add_elt(v), elts.skip(v.len() + 1 as int))
            } else {
                (f, false)
            },
        }
    }
}

/// What testing a run of length-value elements reports: one byte per
/// element, `1` for possibly present and `0` for definitely absent, until
/// the run ends (success) or an element does not parse (failure; the
/// bytes already produced stay).
pub open spec fn spec_has_batch(f: BloomV, elts: Seq<u8>) -> (Seq<u8>, bool)
    decreases elts.len(),
{
    if elts.len() == 0 {
        (Seq::empty(), true)
    } else {
        match spec_parse_lv(elts) {
            Err(_) => (Seq::empty(), false),
            Ok(v) => if v.len() + 1 <= elts.len() {
                let rest = spec_has_batch(f, elts.skip(v.len() + 1 as int));
                (
                    seq![
                        if f.contains(v) {
                            1u8
                        } else {
                            0u8
                        },
                    ] + rest.0,
                    rest.1,
                )
            } else {
                (Seq::empty(), false)
            },
        }
    }
}

/// What `NewBloomFilter` does to the controller: a missing database or an
/// existing filter id fails with no change; otherwise a stock filter is
/// registered under the id.
pub open spec fn spec_step_new_bf(pre: CtlV, db_id: u8, bf_id: u8) -> (CtlV, bool) {
    if !pre.dbs.index.contains_key(db_id) {
        (pre, false)
    } else {
        let d = pre.dbs.items[pre.dbs.index[db_id] as int];
        if d.bf_registry.index.contains_key(bf_id) {
            (pre, false)
        } else {
            (pre.with_db(db_id, d.with_new_bf(spec_default_bfs(bf_id, d.id))), true)
        }
    }
}

/// What `Add` does to the controller: a missing database or filter fails
/// with no change; otherwise the element's probed bits are set in that
/// filter.
pub open spec fn spec_step_add(pre: CtlV, db_id: u8, bf_id: u8, elt: Seq<u8>) -> (CtlV, bool) {
    if !pre.dbs.index.contains_key(db_id) {
        (pre, false)
    } else {
        let d = pre.dbs.items[pre.dbs.index[db_id] as int];
        if !d.bf_registry.index.contains_key(bf_id) {
            (pre, false)
        } else {
            let f = d.bf_registry.items[d.bf_registry.index[bf_id] as int];
            let f2 = crate::bf::BloomFilterStructureV {
                id: f.id,
                dbid: f.dbid,
                inner: f.inner.add_elt(elt),
            };
            (pre.with_db(db_id, d.with_bf(bf_id, f2)), true)
        }
    }
}

/// What `AddBatch` does to the controller: a missing database or filter
/// fails with no change; otherwise the run is folded into that filter,
/// and the command fails — keeping the elements already added — when an
/// element does not parse.
pub open spec fn spec_step_add_batch(pre: CtlV, db_id: u8, bf_id: u8, elts: Seq<u8>) -> (
    CtlV,
    bool,
) {
    if !pre.dbs.index.contains_key(db_id) {
        (pre, false)
    } else {
        let d = pre.dbs.items[pre.dbs.index[db_id] as int];
        if !d.bf_registry.index.contains_key(bf_id) {
            (pre, false)
        } else {
            let f = d.bf_registry.items[d.bf_registry.index[bf_id] as int];
            let folded = spec_add_batch(f.inner, elts);
            let f2 = crate::bf::BloomFilterStructureV {
                id: f.id,
                dbid: f.dbid,
                inner: folded.0,
            };
            (pre.with_db(db_id, d.with_bf(bf_id, f2)), folded.1)
        }
    }
}

/// What one write command does to the in-memory state. The control
/// operations (replay, load) work on the log and the snapshot, not on the
/// state alone, so here they leave the state as it is; read commands do
/// too.
pub open spec fn spec_write_step(pre: CtlV, c: CmdV) -> (CtlV, bool) {
    match c {
        CmdV::NewBloomFilter { db_id, bf_id } => spec_step_new_bf(pre, db_id, bf_id),
        CmdV::Add { db_id, bf_id, elt } => spec_step_add(pre, db_id, bf_id, elt),
        CmdV::AddBatch { db_id, bf_id, elts } => spec_step_add_batch(pre, db_id, bf_id, elts),
        _ => (pre, true),
    }
}

/// What one read command reports: the response bytes it appends and
/// whether it succeeds. A missing database or filter appends nothing and
/// fails.
pub open spec fn spec_read_result(pre: CtlV, c: CmdV) -> (Seq<u8>, bool) {
    match c {
        CmdV::Has { db_id, bf_id, elt } => {
            if !pre.dbs.index.contains_key(db_id) {
                (Seq::empty(), false)
            } else {
                let d = pre.dbs.items[pre.dbs.index[db_id] as int];
                if !d.bf_registry.index.contains_key(bf_id) {
                    (Seq::empty(), false)
                } else {
                    let f = d.bf_registry.items[d.bf_registry.index[bf_id] as int];
                    (
                        seq![
                            if f.inner.contains(elt) {
                                1u8
                            } else {
                                0u8
                            },
                        ],
                        true,
                    )
                }
            }
        },
        CmdV::HasBatch { db_id, bf_id, elts } => {
            if !pre.dbs.index.contains_key(db_id) {
                (Seq::empty(), false)
            } else {
                let d = pre.dbs.items[pre.dbs.index[db_id] as int];
                if !d.bf_registry.index.contains_key(bf_id) {
                    (Seq::empty(), false)
                } else {
                    let f = d.bf_registry.items[d.bf_registry.index[bf_id] as int];
                    spec_has_batch(f.inner, elts)
                }
            }
        },
        _ => (Seq::empty(), true),
    }
}

/// Decodes a framed request into a typed command, exactly as
/// [`spec_decode_cmd`] says.
pub fn decode_cmd(tlv: &CmdTLV) -> (r: Result<Cmd, DbError>)
    ensures
        match r {
            Ok(c) => spec_decode_cmd(tlv.cmd_type@, tlv.val@) == Ok::<CmdV, DbError>(c@),
            Err(e) => spec_decode_cmd(tlv.cmd_type@, tlv.val@) == Err::<CmdV, DbError>(e),
        },
{
    let cmd_type = tlv.cmd_type[0];
    match cmd_type {
        1 => decode_ctl_cmd(tlv),
        2 => decode_db_cmd(tlv),
        3 => decode_bf_cmd(tlv),
        _ => Err(DbError::UnrecognizedCmd),
    }
}

impl ReadOpBloomFilterHas {
    /// Appends one byte: `1` if the element is possibly present, `0` if
    /// it is definitely absent.
    fn execute(&self, bfs: &BloomFilterStructure, resp: &mut CmdResponseTLV) -> (r: Result<
        (),
        DbError,
    >)
        requires
            bfs@.wf(),
        ensures
            r == Ok::<(), DbError>(()),
            final(resp)@.rc == old(resp)@.rc,
            final(resp)@.val == old(resp)@.val.push(
                if bfs@.inner.contains(self.elt@) {
                    1u8
                } else {
                    0u8
                },
            ),
    {
        let mut ans = TOKEN_FALSE;
        let h = match bfs.inner.has(self.elt.as_slice()) {
            Ok(b) => b,
            Err(e) => {
                return Err(e);
            },
        };
        if h {
            ans = TOKEN_TRUE;
        }
        resp.append(ans);
        Ok(())
    }
}

impl ReadOpBloomFilterHasBatch {
    /// Appends one byte per element of the run, in order; a malformed
    /// element flips the status to error and keeps the bytes already
    /// appended.
    fn execute(&self, bfs: &BloomFilterStructure, resp: &mut CmdResponseTLV) -> (r: Result<
        (),
        DbError,
    >)
        requires
            bfs@.wf(),
        ensures
            r == Ok::<(), DbError>(()),
            final(resp)@.val == old(resp)@.val + spec_has_batch(bfs@.inner, self.elts@).0,
            final(resp)@.rc == if spec_has_batch(bfs@.inner, self.elts@).1 {
                old(resp)@.rc
            } else {
                CmdResponseCode::Error
            },
    {
        let ghost f = bfs@.inner;
        let ghost full = spec_has_batch(f, self.elts@);
        let mut idx: usize = 0;
        let len = self.elts.len();
        let mut ans_elt;
        let ghost mut produced = Seq::<u8>::empty();
        proof {
            assert(self.elts@.skip(0) =~= self.elts@);
            assert(produced + full.0 =~= full.0);
        }
        while idx < len
            invariant
                bfs@.wf(),
                f == bfs@.inner,
                full == spec_has_batch(f, self.elts@),
                len == self.elts@.len(),
                idx <= len,
                resp@.val == old(resp)@.val + produced,
                resp@.rc == old(resp)@.rc,
                full.0 == produced + spec_has_batch(f, self.elts@.skip(idx as int)).0,
                full.1 == spec_has_batch(f, self.elts@.skip(idx as int)).1,
            decreases len - idx,
        {
            let ghost rest = self.elts@.skip(idx as int);
            proof {
                assert(self.elts@.subrange(idx as int, self.elts@.len() as int) =~= rest);
            }
            let lv = match LV::new(
                vstd::slice::slice_subrange(self.elts.as_slice(), idx, len),
            ) {
                Ok(v) => v,
                Err(_) => {
                    resp.init_error_response();
                    proof {
                        assert(spec_has_batch(f, rest) == (Seq::<u8>::empty(), false));
                        assert(final(resp)@.val =~= old(resp)@.val + full.0);
                    }
                    return Ok(());
                },
            };
            ans_elt = TOKEN_FALSE;
            let h = match bfs.inner.has(lv.val.as_slice()) {
                Ok(b) => b,
                Err(e) => {
                    return Err(e);
                },
            };
            if h {
                ans_elt = TOKEN_TRUE;
            }
            resp.append(ans_elt);
            proof {
                let tok: u8 = if f.contains(lv.val@) {
                    1u8
                } else {
                    0u8
                };
                let rec0 = spec_has_batch(f, rest.skip(lv.val@.len() + 1 as int)).0;
                assert(rest.skip(lv.val@.len() + 1 as int) =~= self.elts@.skip(idx + lv.val@.len() + 1 as int));
                assert(produced + (seq![tok] + rec0) =~= produced.push(tok) + rec0);
                produced = produced.push(tok);
                assert(old(resp)@.val + produced =~= resp@.val);
            }
            idx = idx + lv.val.len() + 1;
        }
        proof {
            assert(self.elts@.skip(len as int) =~= Seq::<u8>::empty());
            assert(spec_has_batch(f, Seq::<u8>::empty()) == (Seq::<u8>::empty(), true));
            assert(final(resp)@.val =~= old(resp)@.val + full.0);
        }
        Ok(())
    }
}

impl WriteOpDatabaseNewBloomFilter {
    /// Registers a stock filter under the id, or flips the status to
    /// error — changing nothing — when the id is taken.
    fn execute(&self, db: &mut Database, resp: &mut CmdResponseTLV) -> (r: Result<(), DbError>)
        requires
            old(db)@.wf(),
        ensures
            r == Ok::<(), DbError>(()),
            final(db)@.wf(),
            if old(db)@.bf_registry.index.contains_key(self.bf_id) {
                &&& final(db)@ == old(db)@
                &&& final(resp)@.rc == CmdResponseCode::Error
                &&& final(resp)@.val == old(resp)@.val
            } else {
                &&& final(db)@ == old(db)@.with_new_bf(
                    spec_default_bfs(self.bf_id, old(db)@.id),
                )
                &&& final(resp)@ == old(resp)@
            },
    {
        let existing = db.bf_registry.get(self.bf_id);
        match existing {
            Some(_) => {
                resp.init_error_response();
            },
            None => {
                let ghost dpre = db@;
                let _m = db.bf_registry.count();
                proof {
                    assert(dpre.bf_registry.items.len() == _m as nat);
                    crate::db::lemma_with_new_bf_wf(
                        dpre,
                        spec_default_bfs(self.bf_id, dpre.id),
                    );
                }
                let item = BloomFilterStructure::new_default(self.bf_id, db.id);
                proof {
                    assert(item@ =~~= spec_default_bfs(self.bf_id, dpre.id));
                }
                let ra = db.bf_registry.add(item, self.bf_id);
                match ra {
                    Ok(()) => {
                        proof {
                            assert(db@ =~~= dpre.with_new_bf(
                                spec_default_bfs(self.bf_id, dpre.id),
                            ));
                        }
                    },
                    Err(e) => {
                        return Err(e);
                    },
                }
            },
        }
        Ok(())
    }
}

impl WriteOpBloomFilterAdd {
    /// Sets the element's probed bits. Never fails on a well-formed
    /// filter, and leaves the response untouched.
    fn execute(&self, bfs: &mut BloomFilterStructure, _resp: &mut CmdResponseTLV) -> (r: Result<
        (),
        DbError,
    >)
        requires
            old(bfs)@.wf(),
        ensures
            r == Ok::<(), DbError>(()),
            final(bfs)@.wf(),
            final(bfs)@.id == old(bfs)@.id,
            final(bfs)@.dbid == old(bfs)@.dbid,
            final(bfs)@.inner == old(bfs)@.inner.add_elt(self.elt@),
            final(_resp)@ == old(_resp)@,
    {
        match bfs.inner.add(self.elt.as_slice()) {
            Ok(()) => Ok(()),
            Err(e) => Err(e),
        }
    }
}

impl WriteOpBloomFilterAddBatch {
    /// Adds each element of the run, in order; a malformed element flips
    /// the status to error and keeps the elements already added.
    fn execute(&self, bfs: &mut BloomFilterStructure, resp: &mut CmdResponseTLV) -> (r: Result<
        (),
        DbError,
    >)
        requires
            old(bfs)@.wf(),
        ensures
            r == Ok::<(), DbError>(()),
            final(bfs)@.wf(),
            final(bfs)@.id == old(bfs)@.id,
            final(bfs)@.dbid == old(bfs)@.dbid,
            final(bfs)@.inner == spec_add_batch(old(bfs)@.inner, self.elts@).0,
            final(resp)@.val == old(resp)@.val,
            final(resp)@.rc == if spec_add_batch(old(bfs)@.inner, self.elts@).1 {
                old(resp)@.rc
            } else {
                CmdResponseCode::Error
            },
    {
        let ghost f0 = old(bfs)@.inner;
        let ghost full = spec_add_batch(f0, self.elts@);
        let mut idx: usize = 0;
        let len = self.elts.len();
        proof {
            assert(self.elts@.skip(0) =~= self.elts@);
        }
        while idx < len
            invariant
                bfs@.wf(),
                bfs@.id == old(bfs)@.id,
                bfs@.dbid == old(bfs)@.dbid,
                f0 == old(bfs)@.inner,
                full == spec_add_batch(f0, self.elts@),
                len == self.elts@.len(),
                idx <= len,
                resp@ == old(resp)@,
                full == spec_add_batch(bfs@.inner, self.elts@.skip(idx as int)),
            decreases len - idx,
        {
            let ghost rest = self.elts@.skip(idx as int);
            let ghost cur = bfs@.inner;
            proof {
                assert(self.elts@.subrange(idx as int, self.elts@.len() as int) =~= rest);
            }
            let lv = match LV::new(
                vstd::slice::slice_subrange(self.elts.as_slice(), idx, len),
            ) {
                Ok(v) => v,
                Err(_) => {
                    resp.init_error_response();
                    proof {
                        assert(spec_add_batch(cur, rest) == (cur, false));
                    }
                    return Ok(());
                },
            };
            match bfs.inner.add(lv.val.as_slice()) {
                Ok(()) => {},
                Err(e) => {
                    return Err(e);
                },
            }
            proof {
                assert(rest.skip(lv.val@.len() + 1 as int) =~= self.elts@.skip(idx + lv.val@.len() + 1 as int));
                assert(bfs@.inner == cur.add_elt(lv.val@));
            }
            idx = idx + lv.val.len() + 1;
        }
        proof {
            assert(self.elts@.skip(len as int) =~= Seq::<u8>::empty());
            assert(spec_add_batch(bfs@.inner, Seq::<u8>::empty()) == (bfs@.inner, true));
        }
        Ok(())
    }
}

/// Runs a Bloom-filter read command: looks the target filter up and runs
/// the operation; a missing database or filter flips the status to error.
pub(crate) fn handle_read_cmd_bf(
    cmd: &ReadCmdBloomFilter,
    ctl: &Ctl,
    resp: &mut CmdResponseTLV,
) -> (r: Result<(), DbError>)
    requires
        ctl@.wf(),
    ensures
        r == Ok::<(), DbError>(()),
        final(resp)@.val == old(resp)@.val + spec_read_result(ctl@, cmd@).0,
        final(resp)@.rc == if spec_read_result(ctl@, cmd@).1 {
            old(resp)@.rc
        } else {
            CmdResponseCode::Error
        },
{
    let found_db = ctl.db_registry.get(cmd.db_id);
    match found_db {
        Some(db) => {
            proof {
                assert(ctl@.dbs.items[ctl@.dbs.index[cmd.db_id] as int] == db@);
                assert(db@.wf());
                assert(db@.bf_registry.index == db.bf_registry@.index);
                assert(db@.bf_registry.items.len() == db.bf_registry@.items.len());
                assert(db.bf_registry@.wf());
            }
            let found_bf = db.bf_registry.get(cmd.bf_id);
            match found_bf {
                Some(bf) => {
                    proof {
                        assert(db@.bf_registry.items[db@.bf_registry.index[cmd.bf_id] as int]
                            == bf@);
                        assert(bf@.wf());
                    }
                    let rr = match &cmd.op {
                        ReadOpBloomFilter::Has(op) => op.execute(bf, resp),
                        ReadOpBloomFilter::HasBatch(op) => op.execute(bf, resp),
                    };
                    match rr {
                        Ok(()) => {},
                        Err(e) => {
                            return Err(e);
                        },
                    }
                    proof {
                        assert(final(resp)@.val =~= old(resp)@.val + spec_read_result(
                            ctl@,
                            cmd@,
                        ).0);
                    }
                    return Ok(());
                },
                None => {},
            }
        },
        None => {},
    }
    resp.init_error_response();
    proof {
        assert(spec_read_result(ctl@, cmd@).0 == Seq::<u8>::empty());
        assert(final(resp)@.val =~= old(resp)@.val + spec_read_result(ctl@, cmd@).0);
    }
    Ok(())
}

/// Runs a Bloom-filter write command: looks the target filter up and runs
/// the operation in place; a missing database or filter flips the status
/// to error and changes nothing.
pub(crate) fn handle_write_cmd_bf(
    cmd: &WriteCmdBloomFilter,
    ctl: &mut Ctl,
    resp: &mut CmdResponseTLV,
) -> (r: Result<(), DbError>)
    requires
        old(ctl)@.wf(),
    ensures
        r == Ok::<(), DbError>(()),
        final(ctl)@ == spec_write_step(old(ctl)@, cmd@).0,
        final(ctl)@.wf(),
        final(ctl).cfg == old(ctl).cfg,
        final(resp)@.val == old(resp)@.val,
        final(resp)@.rc == if spec_write_step(old(ctl)@, cmd@).1 {
            old(resp)@.rc
        } else {
            CmdResponseCode::Error
        },
{
    let ghost pre = ctl@;
    let ghost cv = cmd@;
    let mut ran = false;
    proof {
        if pre.dbs.index.contains_key(cmd.db_id) {
            ctl::lemma_get_db_id(pre, cmd.db_id);
        }
    }
    let found_db = ctl.db_registry.get_mut(cmd.db_id);
    match found_db {
        Some(db) => {
            let ghost dpre = db@;
            proof {
                assert(dpre == pre.dbs.items[pre.dbs.index[cmd.db_id] as int]);
                assert(dpre.wf());
                if dpre.bf_registry.index.contains_key(cmd.bf_id) {
                    ctl::lemma_get_bf_id(dpre, cmd.bf_id);
                }
                assert(db.bf_registry@.wf());
            }
            let found_bf = db.bf_registry.get_mut(cmd.bf_id);
            match found_bf {
                Some(bf) => {
                    ran = true;
                    let ghost fpre = bf@;
                    proof {
                        assert(fpre == dpre.bf_registry.items[dpre.bf_registry.index[cmd.bf_id]
                            as int]);
                        assert(fpre.wf());
                    }
                    let rr = match &cmd.op {
                        WriteOpBloomFilter::Add(op) => op.execute(bf, resp),
                        WriteOpBloomFilter::AddBatch(op) => op.execute(bf, resp),
                    };
                    match rr {
                        Ok(()) => {},
                        Err(e) => {
                            return Err(e);
                        },
                    }
                },
                None => {},
            }
        },
        None => {},
    }
    if !ran {
        resp.init_error_response();
        proof {
            if pre.dbs.index.contains_key(cmd.db_id) {
                let dpre = pre.dbs.items[pre.dbs.index[cmd.db_id] as int];
                assert(pre.dbs.items.update(pre.dbs.index[cmd.db_id] as int, dpre)
                    =~= pre.dbs.items);
                assert(ctl@ =~~= pre);
            } else {
                assert(ctl@ =~~= pre);
            }
            assert(!spec_write_step(pre, cv).1);
            assert(spec_write_step(pre, cv).0 == pre);
        }
        return Ok(());
    }
    proof {
        let dpre = pre.dbs.items[pre.dbs.index[cmd.db_id] as int];
        let fpre = dpre.bf_registry.items[dpre.bf_registry.index[cmd.bf_id] as int];
        match cv {
            CmdV::Add { db_id, bf_id, elt } => {
                let f2 = crate::bf::BloomFilterStructureV {
                    id: fpre.id,
                    dbid: fpre.dbid,
                    inner: fpre.inner.add_elt(elt),
                };
                crate::bf::lemma_add_elt(fpre.inner, elt);
                crate::db::lemma_with_bf_wf(dpre, bf_id, f2);
                ctl::lemma_with_db_wf(pre, db_id, dpre.with_bf(bf_id, f2));
                assert(ctl@ =~~= pre.with_db(db_id, dpre.with_bf(bf_id, f2)));
            },
            CmdV::AddBatch { db_id, bf_id, elts } => {
                let folded = spec_add_batch(fpre.inner, elts);
                let f2 = crate::bf::BloomFilterStructureV {
                    id: fpre.id,
                    dbid: fpre.dbid,
                    inner: folded.0,
                };
                crate::db::lemma_with_bf_wf(dpre, bf_id, f2);
                ctl::lemma_with_db_wf(pre, db_id, dpre.with_bf(bf_id, f2));
                assert(ctl@ =~~= pre.with_db(db_id, dpre.with_bf(bf_id, f2)));
            },
            _ => {
                assert(false);
            },
        }
    }
    Ok(())
}

/// Runs a database write command: creates the named Bloom filter; a
/// missing database or an existing filter id flips the status to error
/// and changes nothing.
pub(crate) fn handle_write_cmd_db(
    cmd: &WriteCmdDatabase,
    ctl: &mut Ctl,
    resp: &mut CmdResponseTLV,
) -> (r: Result<(), DbError>)
    requires
        old(ctl)@.wf(),
    ensures
        r == Ok::<(), DbError>(()),
        final(ctl)@ == spec_write_step(old(ctl)@, cmd@).0,
        final(ctl)@.wf(),
        final(ctl).cfg == old(ctl).cfg,
        final(resp)@.val == old(resp)@.val,
        final(resp)@.rc == if spec_write_step(old(ctl)@, cmd@).1 {
            old(resp)@.rc
        } else {
            CmdResponseCode::Error
        },
{
    let ghost pre = ctl@;
    let mut ran = false;
    proof {
        if pre.dbs.index.contains_key(cmd.db_id) {
            ctl::lemma_get_db_id(pre, cmd.db_id);
        }
    }
    let found_db = ctl.db_registry.get_mut(cmd.db_id);
    match found_db {
        Some(db) => {
            ran = true;
            let ghost dpre = db@;
            proof {
                assert(dpre == pre.dbs.items[pre.dbs.index[cmd.db_id] as int]);
                assert(dpre.wf());
            }
            let rr = match &cmd.op {
                WriteOpDatabase::NewBloomFilter(op) => op.execute(db, resp),
            };
            match rr {
                Ok(()) => {},
                Err(e) => {
                    return Err(e);
                },
            }
        },
        None => {},
    }
    if !ran {
        resp.init_error_response();
        proof {
            assert(ctl@ =~~= pre);
        }
        return Ok(());
    }
    proof {
        let dpre = pre.dbs.items[pre.dbs.index[cmd.db_id] as int];
        match cmd@ {
            CmdV::NewBloomFilter { db_id, bf_id } => {
                if dpre.bf_registry.index.contains_key(bf_id) {
                    assert(pre.dbs.items.update(pre.dbs.index[db_id] as int, dpre)
                        =~= pre.dbs.items);
                    assert(ctl@ =~~= pre);
                } else {
                    let d2 = dpre.with_new_bf(spec_default_bfs(bf_id, dpre.id));
                    ctl::lemma_with_db_wf(pre, db_id, d2);
                    assert(ctl@ =~~= pre.with_db(db_id, d2));
                }
            },
            _ => {
                assert(false);
            },
        }
    }
    Ok(())
}

/// Runs a controller read command: serializes the live state into a
/// snapshot for the caller to persist. The response is not touched. The
/// only error is a state too large for the host to measure, which no
/// in-memory state reaches.
pub(crate) fn handle_read_cmd_ctl(cmd: &ReadCmdCtl, ctl: &Ctl, _resp: &mut CmdResponseTLV) -> (r:
    Result<Vec<u8>, DbError>)
    requires
        ctl@.wf(),
    ensures
        final(_resp)@ == old(_resp)@,
        match r {
            Ok(b) => b@ == ctl::spec_snapshot_bytes(ctl@),
            Err(e) => e == DbError::InvalidData && (ctl::spec_ctl_val_bytes(ctl@).len() + 9
                > usize::MAX || exists|i: int, j: int|
                0 <= i < ctl@.dbs.items.len() && 0 <= j
                    < (#[trigger] ctl@.dbs.items[i]).bf_registry.items.len() && 8 + 8 * (
                #[trigger] ctl@.dbs.items[i].bf_registry.items[j]).inner.bits.words.len()
                    > usize::MAX),
        },
{
    let ReadCmdCtl { op: ReadOpCtl::WriteData } = cmd;
    let tlv = match <Ctl as crate::srl::Serializable<Ctl>>::serialize(ctl) {
        Ok(t) => t,
        Err(_) => {
            return Err(DbError::InvalidData);
        },
    };
    if tlv.val.len() > usize::MAX - 9 {
        return Err(DbError::InvalidData);
    }
    let mut buf = Vec::<u8>::new();
    let rw = tlv.serialize_into_buf(&mut buf);
    match rw {
        Ok(_) => {},
        Err(_) => {
            return Err(DbError::InvalidData);
        },
    }
    proof {
        assert(buf@ =~= ctl::spec_snapshot_bytes(ctl@));
    }
    Ok(buf)
}

/// Runs a controller write command. `WalReplay` replays the given log
/// buffer against the live state; `LoadData` rebuilds the state from the
/// given snapshot buffer (an empty snapshot seeds the default database)
/// and then replays the log. The response is not touched.
pub(crate) fn handle_write_cmd_ctl(
    cmd: &WriteCmdCtl,
    ctl: &mut Ctl,
    snap: &[u8],
    wal: &[u8],
    _resp: &mut CmdResponseTLV,
) -> (r: Result<(), DbError>)
    requires
        old(ctl)@.wf(),
    ensures
        final(ctl)@.wf(),
        final(ctl).cfg == old(ctl).cfg,
        final(_resp)@ == old(_resp)@,
        match cmd.op {
            WriteOpCtl::WalReplay => (final(ctl)@, r) == crate::wal::spec_replay(
                old(ctl)@,
                wal@,
            ),
            WriteOpCtl::LoadData => {
                if snap@.len() == 0 {
                    match old(ctl)@.spec_init() {
                        Ok(v) => r == Ok::<(), DbError>(()) && final(ctl)@ == v,
                        Err(e) => r == Err::<(), DbError>(e) && final(ctl)@ == old(ctl)@,
                    }
                } else {
                    match ctl::spec_ctl_deser(CtlV::cleared(), snap@) {
                        Err(e) => r == Err::<(), DbError>(e),
                        Ok(v) => (final(ctl)@, r) == crate::wal::spec_replay(v, wal@),
                    }
                }
            },
        },
{
    match &cmd.op {
        WriteOpCtl::WalReplay => ctl.replay_logging_data(wal),
        WriteOpCtl::LoadData => {
            if snap.len() == 0 {
                ctl.init()
            } else {
                ctl.load_state(snap, wal)
            }
        },
    }
}

/// Routes a write command against the controller. The snapshot and log
/// buffers back the two control operations; database and Bloom-filter
/// writes step the in-memory state as [`spec_write_step`] says, flipping
/// the response to error when the target is missing, a filter id is
/// taken, or a batch element is malformed.
pub fn dispatch_write_cmd(
    cmd: &WriteCmd,
    ctl: &mut Ctl,
    snap: &[u8],
    wal: &[u8],
    resp: &mut CmdResponseTLV,
) -> (r: Result<(), DbError>)
    requires
        old(ctl)@.wf(),
    ensures
        final(ctl)@.wf(),
        final(ctl).cfg == old(ctl).cfg,
        match cmd {
            WriteCmd::Database(_) | WriteCmd::BloomFilter(_) => {
                &&& r == Ok::<(), DbError>(())
                &&& final(ctl)@ == spec_write_step(old(ctl)@, cmd@).0
                &&& final(resp)@.val == old(resp)@.val
                &&& final(resp)@.rc == if spec_write_step(old(ctl)@, cmd@).1 {
                    old(resp)@.rc
                } else {
                    CmdResponseCode::Error
                }
            },
            WriteCmd::Ctl(c) => {
                &&& final(resp)@ == old(resp)@
                &&& match c.op {
                    WriteOpCtl::WalReplay => (final(ctl)@, r) == crate::wal::spec_replay(
                        old(ctl)@,
                        wal@,
                    ),
                    WriteOpCtl::LoadData => {
                        if snap@.len() == 0 {
                            match old(ctl)@.spec_init() {
                                Ok(v) => r == Ok::<(), DbError>(()) && final(ctl)@ == v,
                                Err(e) => r == Err::<(), DbError>(e) && final(ctl)@ == old(ctl)@,
                            }
                        } else {
                            match ctl::spec_ctl_deser(CtlV::cleared(), snap@) {
                                Err(e) => r == Err::<(), DbError>(e),
                                Ok(v) => (final(ctl)@, r) == crate::wal::spec_replay(v, wal@),
                            }
                        }
                    },
                }
            },
        },
{
    match cmd {
        WriteCmd::Ctl(cmd_ctl) => handle_write_cmd_ctl(cmd_ctl, ctl, snap, wal, resp),
        WriteCmd::Database(cmd_db) => handle_write_cmd_db(cmd_db, ctl, resp),
        WriteCmd::BloomFilter(cmd_bf) => handle_write_cmd_bf(cmd_bf, ctl, resp),
    }
}

/// Routes a read command: Bloom-filter reads run against the state and
/// fill the response; the controller's `WriteData` yields the snapshot
/// bytes the caller must write to the database file.
pub fn dispatch_read_cmd(cmd: &ReadCmd, ctl: &Ctl, resp: &mut CmdResponseTLV) -> (r: Result<
    Option<Vec<u8>>,
    DbError,
>)
    requires
        ctl@.wf(),
    ensures
        match cmd {
            ReadCmd::BloomFilter(_) => {
                &&& r == Ok::<Option<Vec<u8>>, DbError>(None)
                &&& final(resp)@.val == old(resp)@.val + spec_read_result(ctl@, cmd@).0
                &&& final(resp)@.rc == if spec_read_result(ctl@, cmd@).1 {
                    old(resp)@.rc
                } else {
                    CmdResponseCode::Error
                }
            },
            ReadCmd::Ctl(_) => {
                &&& final(resp)@ == old(resp)@
                &&& match r {
                    Ok(Some(b)) => b@ == ctl::spec_snapshot_bytes(ctl@),
                    Ok(None) => false,
                    Err(e) => e == DbError::InvalidData && (ctl::spec_ctl_val_bytes(ctl@).len() + 9
                        > usize::MAX || exists|i: int, j: int|
                        0 <= i < ctl@.dbs.items.len() && 0 <= j
                            < (#[trigger] ctl@.dbs.items[i]).bf_registry.items.len() && 8 + 8 * (
                        #[trigger] ctl@.dbs.items[i].bf_registry.items[j]).inner.bits.words.len()
                            > usize::MAX),
                }
            },
        },
{
    match cmd {
        ReadCmd::BloomFilter(cmd_bf) => {
            let rr = handle_read_cmd_bf(cmd_bf, ctl, resp);
            match rr {
                Ok(()) => Ok(None),
                Err(e) => Err(e),
            }
        },
        ReadCmd::Ctl(cmd_ctl) => {
            let rr = handle_read_cmd_ctl(cmd_ctl, ctl, resp);
            match rr {
                Ok(b) => Ok(Some(b)),
                Err(e) => Err(e),
            }
        },
    }
}

} // verus!
