//! The controller: the root object holding every database, with snapshot
//! serialization and loading.

use vstd::prelude::*;
use vstd::bytes::*;
use vstd::map::*;

use crate::bf::BloomFilterStructure;
use crate::bf::BloomFilterStructureV;
use crate::bf;
use crate::cfg::Config;
use crate::db::Database;
use crate::db::DatabaseV;
use crate::db;
use crate::err::DbError;
use crate::reg::Registry;
use crate::reg::RegistryV;
use crate::srl;
use crate::srl::Deserializable;
use crate::srl::Serializable;

verus! {

/// The mathematical value of a [`Ctl`]: the cursor and the databases.
#[verifier::ext_equal]
pub struct CtlV {
    pub curr_db: u8,
    pub dbs: RegistryV<DatabaseV>,
}

/// A fresh, empty database under `id`, as a value.
pub open spec fn spec_empty_db(id: u8) -> DatabaseV {
    DatabaseV {
        id,
        bf_registry: RegistryV {
            items: Seq::<BloomFilterStructureV>::empty(),
            index: Map::<u8, usize>::empty(),
        },
    }
}

impl CtlV {
    /// Well-formed: the registry is well-formed, every database is
    /// well-formed and sits in the index under its own id.
    pub open spec fn wf(self) -> bool {
        &&& self.dbs.wf()
        &&& forall|i: int| 0 <= i < self.dbs.items.len() ==> (#[trigger] self.dbs.items[i]).wf()
        &&& forall|i: int|
            0 <= i < self.dbs.items.len() ==> self.dbs.index.contains_key(
                (#[trigger] self.dbs.items[i]).id,
            ) && self.dbs.index[self.dbs.items[i].id] == i
    }

    /// This controller with the database registered under `db_id`
    /// replaced.
    pub open spec fn with_db(self, db_id: u8, d: DatabaseV) -> CtlV
        recommends
            self.dbs.index.contains_key(db_id),
    {
        CtlV {
            curr_db: self.curr_db,
            dbs: RegistryV {
                items: self.dbs.items.update(self.dbs.index[db_id] as int, d),
                index: self.dbs.index,
            },
        }
    }

    /// This controller with a fresh, empty database appended under `id`.
    pub open spec fn with_new_db(self, id: u8) -> CtlV {
        CtlV { curr_db: self.curr_db, dbs: self.dbs.spec_add(spec_empty_db(id), id) }
    }

    /// What `init` does: seed the default database with id 0, or fail if
    /// id 0 is already taken.
    pub open spec fn spec_init(self) -> Result<CtlV, DbError> {
        if self.dbs.index.contains_key(0) {
            Err(DbError::DuplicateKey)
        } else {
            Ok(self.with_new_db(0))
        }
    }

    /// The blank controller: cursor 0 and no databases.
    pub open spec fn cleared() -> CtlV {
        CtlV {
            curr_db: 0,
            dbs: RegistryV { items: Seq::<DatabaseV>::empty(), index: Map::<u8, usize>::empty() },
        }
    }
}

/// A well-formed controller in which a fresh id was not yet registered
/// stays well-formed after appending an empty database under that id; a
/// registered id resolves to a database bearing it.
pub proof fn lemma_with_new_db_wf(c: CtlV, id: u8)
    requires
        c.wf(),
        !c.dbs.index.contains_key(id),
        c.dbs.items.len() <= usize::MAX,
    ensures
        c.with_new_db(id).wf(),
{
    let c2 = c.with_new_db(id);
    assert forall|i: int|
        0 <= i < c2.dbs.items.len() implies c2.dbs.index.contains_key(
        (#[trigger] c2.dbs.items[i]).id,
    ) && c2.dbs.index[c2.dbs.items[i].id] == i by {
        if i < c.dbs.items.len() {
            assert(c2.dbs.items[i] == c.dbs.items[i]);
            assert(c.dbs.items[i].id != id);
        } else {
            assert(c2.dbs.items[i] == spec_empty_db(id));
        }
    }
}

/// Under well-formedness, the database found for an id bears that id.
pub proof fn lemma_get_db_id(c: CtlV, db_id: u8)
    requires
        c.wf(),
        c.dbs.index.contains_key(db_id),
    ensures
        c.dbs.spec_get(db_id) matches Some(d) && d.id == db_id,
{
    let i = c.dbs.index[db_id] as int;
    assert(c.dbs.index.contains_key(c.dbs.items[i].id) && c.dbs.index[c.dbs.items[i].id] == i);
}

/// Under well-formedness, the filter found for an id bears that id.
pub proof fn lemma_get_bf_id(d: DatabaseV, bf_id: u8)
    requires
        d.wf(),
        d.bf_registry.index.contains_key(bf_id),
    ensures
        d.bf_registry.spec_get(bf_id) matches Some(f) && f.id == bf_id && f.dbid == d.id && f.wf(),
{
    let i = d.bf_registry.index[bf_id] as int;
    assert(d.bf_registry.index.contains_key(d.bf_registry.items[i].id)
        && d.bf_registry.index[d.bf_registry.items[i].id] == i);
    assert(d.bf_registry.items[i].wf());
    assert(d.bf_registry.items[i].dbid == d.id);
}

/// Replacing a registered database with a well-formed one bearing the same
/// id keeps the controller well-formed.
pub proof fn lemma_with_db_wf(c: CtlV, db_id: u8, d: DatabaseV)
    requires
        c.wf(),
        c.dbs.index.contains_key(db_id),
        d.wf(),
        d.id == db_id,
    ensures
        c.with_db(db_id, d).wf(),
        c.with_db(db_id, d).dbs.spec_get(db_id) == Some(d),
        forall|other: u8|
            other != db_id ==> c.with_db(db_id, d).dbs.spec_get(other) == c.dbs.spec_get(other),
{
    let idx = c.dbs.index[db_id] as int;
    lemma_get_db_id(c, db_id);
    let c2 = c.with_db(db_id, d);
    assert forall|i: int|
        0 <= i < c2.dbs.items.len() implies c2.dbs.index.contains_key(
        (#[trigger] c2.dbs.items[i]).id,
    ) && c2.dbs.index[c2.dbs.items[i].id] == i by {
        if i != idx {
            assert(c2.dbs.items[i] == c.dbs.items[i]);
        }
    }
    assert forall|other: u8| other != db_id implies c2.dbs.spec_get(other) == c.dbs.spec_get(
        other,
    ) by {
        if c.dbs.index.contains_key(other) {
            assert(c.dbs.index[other] != c.dbs.index[db_id]);
        }
    }
}

/// The controller: the current-database cursor, the database registry,
/// and the configuration it was started with.
pub struct Ctl {
    pub curr_db: u8,
    pub db_registry: Registry<Database>,
    pub cfg: Config,
}

impl View for Ctl {
    type V = CtlV;

    open spec fn view(&self) -> CtlV {
        CtlV {
            curr_db: self.curr_db,
            dbs: RegistryV {
                items: self.db_registry.items@.map_values(|d: Database| d@),
                index: self.db_registry.items_index@,
            },
        }
    }
}

impl Ctl {
    /// The configuration this controller was started with.
    pub fn config(&self) -> (r: &Config)
        ensures
            r == &self.cfg,
    {
        &self.cfg
    }

    /// A blank controller holding the given configuration.
    pub fn new_blank(conf: Config) -> (r: Self)
        ensures
            r@ == CtlV::cleared(),
            r@.wf(),
            r.cfg == conf,
    {
        let r = Self {
            curr_db: 0,
            db_registry: Registry::<Database>::new_blank(),
            cfg: conf,
        };
        proof {
            assert(r@ =~= CtlV::cleared());
        }
        r
    }

    /// Empties the controller: cursor 0 and no databases. The
    /// configuration stays.
    pub fn clear_state(&mut self)
        ensures
            final(self)@ == CtlV::cleared(),
            final(self)@.wf(),
            final(self).cfg == old(self).cfg,
    {
        self.curr_db = 0;
        self.db_registry.clear_state();
        proof {
            assert(self@ =~= CtlV::cleared());
        }
    }

    /// Seeds the default database with id 0; fails with `DuplicateKey`
    /// and no change if id 0 is already registered.
    pub fn init(&mut self) -> (r: Result<(), DbError>)
        requires
            old(self)@.wf(),
        ensures
            final(self)@.wf(),
            final(self).cfg == old(self).cfg,
            match old(self)@.spec_init() {
                Ok(v) => r == Ok::<(), DbError>(()) && final(self)@ == v,
                Err(e) => r == Err::<(), DbError>(e) && final(self)@ == old(self)@,
            },
    {
        let n = self.db_registry.count();
        proof {
            assert(self@.dbs.items.len() == n as nat);
            if !self@.dbs.index.contains_key(0) {
                lemma_with_new_db_wf(self@, 0);
            }
        }
        let db = Database::new(0);
        let r = self.db_registry.add(db, 0);
        match r {
            Ok(()) => {
                proof {
                    assert(self@ =~= old(self)@.with_new_db(0));
                }
                Ok(())
            },
            Err(e) => {
                proof {
                    assert(self@ =~= old(self)@);
                }
                Err(e)
            },
        }
    }
}

/// The concatenated TLVs of a sequence of databases, in order.
pub open spec fn spec_db_tlvs(ds: Seq<DatabaseV>) -> Seq<u8>
    decreases ds.len(),
{
    if ds.len() == 0 {
        Seq::empty()
    } else {
        srl::spec_tlv_bytes(
            srl::SerializableType::Database.tag(),
            db::spec_database_val_bytes(ds[0]),
        ) + spec_db_tlvs(ds.skip(1))
    }
}

/// The concatenated TLVs of a sequence of filter wrappers, in order.
pub open spec fn spec_bf_tlvs(fs: Seq<BloomFilterStructureV>) -> Seq<u8>
    decreases fs.len(),
{
    if fs.len() == 0 {
        Seq::empty()
    } else {
        srl::spec_tlv_bytes(
            srl::SerializableType::BloomFilterStructure.tag(),
            bf::spec_bfs_val_bytes(fs[0]),
        ) + spec_bf_tlvs(fs.skip(1))
    }
}

/// The concatenated filter TLVs of every database, in registry order.
pub open spec fn spec_all_bf_tlvs(ds: Seq<DatabaseV>) -> Seq<u8>
    decreases ds.len(),
{
    if ds.len() == 0 {
        Seq::empty()
    } else {
        spec_bf_tlvs(ds[0].bf_registry.items) + spec_all_bf_tlvs(ds.skip(1))
    }
}

/// The value bytes of a snapshot: the literal header byte `2`, each
/// database's TLV in order, then every filter's TLV in order. The header
/// byte is written as `2` unconditionally; the loader only distinguishes
/// zero from non-zero.
pub open spec fn spec_ctl_val_bytes(c: CtlV) -> Seq<u8> {
    seq![2u8] + spec_db_tlvs(c.dbs.items) + spec_all_bf_tlvs(c.dbs.items)
}

/// The whole snapshot: the value above wrapped in a TLV tagged `Ctl`.
pub open spec fn spec_snapshot_bytes(c: CtlV) -> Seq<u8> {
    srl::spec_tlv_bytes(srl::SerializableType::Ctl.tag(), spec_ctl_val_bytes(c))
}

pub proof fn lemma_db_tlvs_push(ds: Seq<DatabaseV>, d: DatabaseV)
    ensures
        spec_db_tlvs(ds.push(d)) == spec_db_tlvs(ds) + srl::spec_tlv_bytes(
            srl::SerializableType::Database.tag(),
            db::spec_database_val_bytes(d),
        ),
    decreases ds.len(),
{
    if ds.len() == 0 {
        assert(ds.push(d)[0] == d);
        assert(ds.push(d).skip(1) =~= Seq::<DatabaseV>::empty());
        assert(spec_db_tlvs(Seq::<DatabaseV>::empty()) == Seq::<u8>::empty());
        assert(spec_db_tlvs(ds.push(d)) =~= spec_db_tlvs(ds) + srl::spec_tlv_bytes(
            srl::SerializableType::Database.tag(),
            db::spec_database_val_bytes(d),
        ));
    } else {
        lemma_db_tlvs_push(ds.skip(1), d);
        assert(ds.push(d).skip(1) =~= ds.skip(1).push(d));
        assert(ds.push(d)[0] == ds[0]);
        assert(spec_db_tlvs(ds.push(d)) =~= spec_db_tlvs(ds) + srl::spec_tlv_bytes(
            srl::SerializableType::Database.tag(),
            db::spec_database_val_bytes(d),
        ));
    }
}

pub proof fn lemma_bf_tlvs_push(fs: Seq<BloomFilterStructureV>, f: BloomFilterStructureV)
    ensures
        spec_bf_tlvs(fs.push(f)) == spec_bf_tlvs(fs) + srl::spec_tlv_bytes(
            srl::SerializableType::BloomFilterStructure.tag(),
            bf::spec_bfs_val_bytes(f),
        ),
    decreases fs.len(),
{
    if fs.len() == 0 {
        assert(fs.push(f)[0] == f);
        assert(fs.push(f).skip(1) =~= Seq::<BloomFilterStructureV>::empty());
        assert(spec_bf_tlvs(Seq::<BloomFilterStructureV>::empty()) == Seq::<u8>::empty());
        assert(spec_bf_tlvs(fs.push(f)) =~= spec_bf_tlvs(fs) + srl::spec_tlv_bytes(
            srl::SerializableType::BloomFilterStructure.tag(),
            bf::spec_bfs_val_bytes(f),
        ));
    } else {
        lemma_bf_tlvs_push(fs.skip(1), f);
        assert(fs.push(f).skip(1) =~= fs.skip(1).push(f));
        assert(fs.push(f)[0] == fs[0]);
        assert(spec_bf_tlvs(fs.push(f)) =~= spec_bf_tlvs(fs) + srl::spec_tlv_bytes(
            srl::SerializableType::BloomFilterStructure.tag(),
            bf::spec_bfs_val_bytes(f),
        ));
    }
}

pub proof fn lemma_all_bf_tlvs_push(ds: Seq<DatabaseV>, d: DatabaseV)
    ensures
        spec_all_bf_tlvs(ds.push(d)) == spec_all_bf_tlvs(ds) + spec_bf_tlvs(d.bf_registry.items),
    decreases ds.len(),
{
    if ds.len() == 0 {
        assert(ds.push(d)[0] == d);
        assert(ds.push(d).skip(1) =~= Seq::<DatabaseV>::empty());
        assert(spec_all_bf_tlvs(Seq::<DatabaseV>::empty()) == Seq::<u8>::empty());
        assert(spec_all_bf_tlvs(ds.push(d)) =~= spec_all_bf_tlvs(ds) + spec_bf_tlvs(
            d.bf_registry.items,
        ));
    } else {
        lemma_all_bf_tlvs_push(ds.skip(1), d);
        assert(ds.push(d).skip(1) =~= ds.skip(1).push(d));
        assert(ds.push(d)[0] == ds[0]);
        assert(spec_all_bf_tlvs(ds.push(d)) =~= spec_all_bf_tlvs(ds) + spec_bf_tlvs(
            d.bf_registry.items,
        ));
    }
}

impl srl::Serializable<Ctl> for Ctl {
    /// Writes the snapshot value: the header byte `2`, each database TLV,
    /// then every filter TLV, in registry order. The only error is a
    /// filter whose bit vector is too large for the host to measure.
    fn serialize(&self) -> (r: Result<srl::SerTLV, DbError>)
        ensures
            match r {
                Ok(tlv) => tlv.srl_type == srl::SerializableType::Ctl && tlv.val@
                    == spec_ctl_val_bytes(self@),
                Err(e) => e == DbError::InvalidData && exists|i: int, j: int|
                    0 <= i < self@.dbs.items.len() && 0 <= j
                        < (#[trigger] self@.dbs.items[i]).bf_registry.items.len() && 8 + 8 * (
                    #[trigger] self@.dbs.items[i].bf_registry.items[j]).inner.bits.words.len()
                        > usize::MAX,
            },
    {
        let ghost dv = self@.dbs.items;
        let mut tlv = srl::SerTLV::new(srl::SerializableType::Ctl);
        tlv.serialize_u8(2u8);
        let dbs = self.db_registry.list();
        let mut i: usize = 0;
        while i < dbs.len()
            invariant
                i <= dbs@.len(),
                dbs@ == self.db_registry.items@,
                dv == self@.dbs.items,
                dv == dbs@.map_values(|d: Database| d@),
                tlv.srl_type == srl::SerializableType::Ctl,
                tlv.val@ == seq![2u8] + spec_db_tlvs(dv.subrange(0, i as int)),
            decreases dbs@.len() - i,
        {
            let db_tlv = match <Database as srl::Serializable<Database>>::serialize(&dbs[i]) {
                Ok(t) => t,
                Err(_) => {
                    return Err(DbError::InvalidData);
                },
            };
            let r = tlv.serialize_sertlv(&db_tlv);
            match r {
                Ok(()) => {},
                Err(_) => {
                    return Err(DbError::InvalidData);
                },
            }
            proof {
                lemma_db_tlvs_push(dv.subrange(0, i as int), dv[i as int]);
                assert(dv.subrange(0, i as int).push(dv[i as int]) =~= dv.subrange(0, i + 1));
                assert(tlv.val@ =~= seq![2u8] + spec_db_tlvs(dv.subrange(0, i + 1)));
            }
            i = i + 1;
        }
        proof {
            assert(dv.subrange(0, dv.len() as int) =~= dv);
        }
        let mut i: usize = 0;
        while i < dbs.len()
            invariant
                i <= dbs@.len(),
                dbs@ == self.db_registry.items@,
                dv == self@.dbs.items,
                dv == dbs@.map_values(|d: Database| d@),
                tlv.srl_type == srl::SerializableType::Ctl,
                tlv.val@ == seq![2u8] + spec_db_tlvs(dv) + spec_all_bf_tlvs(
                    dv.subrange(0, i as int),
                ),
            decreases dbs@.len() - i,
        {
            let ghost fv = dv[i as int].bf_registry.items;
            let bfs_list = dbs[i].bf_registry.list();
            let mut j: usize = 0;
            while j < bfs_list.len()
                invariant
                    j <= bfs_list@.len(),
                    i < dbs@.len(),
                    bfs_list@ == dbs@[i as int].bf_registry.items@,
                    fv == dv[i as int].bf_registry.items,
                    dv == dbs@.map_values(|d: Database| d@),
                    dv == self@.dbs.items,
                    fv == bfs_list@.map_values(|b: BloomFilterStructure| b@),
                    tlv.srl_type == srl::SerializableType::Ctl,
                    tlv.val@ == seq![2u8] + spec_db_tlvs(dv) + spec_all_bf_tlvs(
                        dv.subrange(0, i as int),
                    ) + spec_bf_tlvs(fv.subrange(0, j as int)),
                decreases bfs_list@.len() - j,
            {
                let bf_tlv = match <BloomFilterStructure as srl::Serializable<
                    BloomFilterStructure,
                >>::serialize(&bfs_list[j]) {
                    Ok(t) => t,
                    Err(e) => {
                        proof {
                            assert(0 <= i < self@.dbs.items.len() && 0 <= j < self@.dbs.items[
                                i as int].bf_registry.items.len() && 8 + 8 * self@.dbs.items[
                                i as int].bf_registry.items[j as int].inner.bits.words.len()
                                > usize::MAX);
                        }
                        return Err(DbError::InvalidData);
                    },
                };
                let r = tlv.serialize_sertlv(&bf_tlv);
                match r {
                    Ok(()) => {},
                    Err(_) => {
                        return Err(DbError::InvalidData);
                    },
                }
                proof {
                    lemma_bf_tlvs_push(fv.subrange(0, j as int), fv[j as int]);
                    assert(fv.subrange(0, j as int).push(fv[j as int]) =~= fv.subrange(0, j + 1));
                    assert(tlv.val@ =~= seq![2u8] + spec_db_tlvs(dv) + spec_all_bf_tlvs(
                        dv.subrange(0, i as int),
                    ) + spec_bf_tlvs(fv.subrange(0, j + 1)));
                }
                j = j + 1;
            }
            proof {
                assert(fv.subrange(0, fv.len() as int) =~= fv);
                lemma_all_bf_tlvs_push(dv.subrange(0, i as int), dv[i as int]);
                assert(dv.subrange(0, i as int).push(dv[i as int]) =~= dv.subrange(0, i + 1));
                assert(tlv.val@ =~= seq![2u8] + spec_db_tlvs(dv) + spec_all_bf_tlvs(
                    dv.subrange(0, i + 1),
                ));
            }
            i = i + 1;
        }
        proof {
            assert(dv.subrange(0, dv.len() as int) =~= dv);
            assert(tlv.val@ =~= spec_ctl_val_bytes(self@));
        }
        Ok(tlv)
    }
}

/// How a run of child TLVs folds into a controller, front to back:
/// a `Database` TLV registers a fresh, empty database (a duplicate id is
/// an error); a `BloomFilterStructure` TLV joins the database its stored
/// parent id names, or is dropped when no such database exists (a
/// duplicate filter id is an error); other tags are skipped; a child that
/// does not parse aborts with its error.
pub open spec fn spec_load_children(pre: CtlV, rest: Seq<u8>) -> Result<CtlV, DbError>
    decreases rest.len(),
{
    if rest.len() == 0 {
        Ok(pre)
    } else {
        match srl::spec_parse_tlv(rest) {
            Err(e) => Err(e),
            Ok((t, val)) => {
                if 9 + val.len() > rest.len() {
                    Err(DbError::InvalidData)
                } else {
                    let next = rest.skip(9 + val.len() as int);
                    match t {
                        srl::SerializableType::Database => match db::spec_parse_database(val) {
                            Err(e) => Err(e),
                            Ok(id) => if pre.dbs.index.contains_key(id) {
                                Err(DbError::DuplicateKey)
                            } else {
                                spec_load_children(pre.with_new_db(id), next)
                            },
                        },
                        srl::SerializableType::BloomFilterStructure => match bf::spec_parse_bfs(
                            val,
                        ) {
                            Err(e) => Err(e),
                            Ok(fv) => if pre.dbs.index.contains_key(fv.dbid) {
                                let d = pre.dbs.items[pre.dbs.index[fv.dbid] as int];
                                if d.bf_registry.index.contains_key(fv.id) {
                                    Err(DbError::DuplicateKey)
                                } else {
                                    spec_load_children(pre.with_db(fv.dbid, d.with_new_bf(fv)), next)
                                }
                            } else {
                                spec_load_children(pre, next)
                            },
                        },
                        _ => spec_load_children(pre, next),
                    }
                }
            },
        }
    }
}

/// How a whole snapshot buffer loads into a controller: an empty buffer
/// or a zero header byte seeds the default database; a buffer too short
/// to hold the outer TLV header and the header byte is a short buffer;
/// otherwise the children from offset 10 on are folded in. The outer TLV
/// header itself is skipped, not validated.
pub open spec fn spec_ctl_deser(pre: CtlV, buf: Seq<u8>) -> Result<CtlV, DbError> {
    if buf.len() == 0 {
        pre.spec_init()
    } else if buf.len() <= 9 {
        Err(DbError::UnexpectedEof)
    } else if buf[9] == 0 {
        pre.spec_init()
    } else {
        spec_load_children(pre, buf.skip(10))
    }
}

impl Ctl {
    /// Folds a snapshot buffer into this controller, exactly as
    /// [`spec_ctl_deser`] says. On an error, databases registered before
    /// the failing child remain; the controller stays well-formed either
    /// way.
    pub fn deserialize(&mut self, buf: &[u8]) -> (r: Result<(), DbError>)
        requires
            old(self)@.wf(),
        ensures
            final(self).cfg == old(self).cfg,
            final(self)@.wf(),
            match r {
                Ok(()) => spec_ctl_deser(old(self)@, buf@) == Ok::<CtlV, DbError>(final(self)@),
                Err(e) => spec_ctl_deser(old(self)@, buf@) == Err::<CtlV, DbError>(e),
            },
    {
        if buf.len() == 0 {
            return self.init();
        }
        if buf.len() <= 9 {
            return Err(DbError::UnexpectedEof);
        }
        if buf[9] == 0 {
            return self.init();
        }
        let ghost pre0 = self@;
        let mut loc: usize = 10;
        while loc < buf.len()
            invariant
                10 <= loc <= buf@.len(),
                buf@.len() > 9,
                buf@[9] != 0,
                pre0 == old(self)@,
                self@.wf(),
                self.cfg == old(self).cfg,
                spec_load_children(pre0, buf@.skip(10)) == spec_load_children(
                    self@,
                    buf@.skip(loc as int),
                ),
            decreases buf@.len() - loc,
        {
            let ghost pre_iter = self@;
            let ghost rest = buf@.skip(loc as int);
            proof {
                assert(rest.len() > 0);
            }
            let tlv = match srl::DeserTLV::new(vstd::slice::slice_subrange(buf, loc, buf.len())) {
                Ok(t) => t,
                Err(e) => {
                    proof {
                        assert(buf@.subrange(loc as int, buf@.len() as int) =~= rest);
                    }
                    return Err(e);
                },
            };
            proof {
                assert(buf@.subrange(loc as int, buf@.len() as int) =~= rest);
                assert(srl::spec_parse_tlv(rest) == Ok::<_, DbError>((tlv.srl_type, tlv.val@)));
            }
            let consumed = tlv.len();
            proof {
                assert(9 + tlv.val@.len() <= rest.len());
                assert(rest.skip(9 + tlv.val@.len() as int) =~= buf@.skip(loc + consumed));
            }
            match tlv.srl_type {
                srl::SerializableType::Database => {
                    let new_db = match <Database as Deserializable>::deserialize(&tlv) {
                        Ok(d) => d,
                        Err(e) => {
                            return Err(e);
                        },
                    };
                    let id = new_db.id;
                    let _n = self.db_registry.count();
                    proof {
                        assert(self@.dbs.items.len() == _n as nat);
                        if !self@.dbs.index.contains_key(id) {
                            lemma_with_new_db_wf(self@, id);
                        }
                    }
                    let ra = self.db_registry.add(new_db, id);
                    match ra {
                        Ok(()) => {
                            proof {
                                assert(self@ =~~= pre_iter.with_new_db(id));
                            }
                        },
                        Err(e) => {
                            return Err(e);
                        },
                    }
                },
                srl::SerializableType::BloomFilterStructure => {
                    let bfs = match <BloomFilterStructure as Deserializable>::deserialize(&tlv) {
                        Ok(b) => b,
                        Err(e) => {
                            return Err(e);
                        },
                    };
                    let ghost fv = bfs@;
                    let dbid = bfs.dbid;
                    let fid = bfs.id;
                    proof {
                        if self@.dbs.index.contains_key(dbid) {
                            lemma_get_db_id(self@, dbid);
                        }
                    }
                    let mut dup_err = false;
                    let found = self.db_registry.get_mut(dbid);
                    match found {
                        Some(dbref) => {
                            let ghost dpre = dbref@;
                            let _m = dbref.bf_registry.count();
                            proof {
                                assert(dpre.bf_registry.items.len() == _m as nat);
                                if !dpre.bf_registry.index.contains_key(fid) {
                                    db::lemma_with_new_bf_wf(dpre, fv);
                                }
                            }
                            let ra = dbref.bf_registry.add(bfs, fid);
                            match ra {
                                Ok(()) => {
                                    proof {
                                        assert(dbref@ =~~= dpre.with_new_bf(fv));
                                    }
                                },
                                Err(_) => {
                                    dup_err = true;
                                },
                            }
                        },
                        None => {},
                    }
                    if dup_err {
                        proof {
                            let dpre = pre_iter.dbs.items[pre_iter.dbs.index[dbid] as int];
                            assert(pre_iter.dbs.items.update(
                                pre_iter.dbs.index[dbid] as int,
                                dpre,
                            ) =~= pre_iter.dbs.items);
                            assert(self@ =~~= pre_iter);
                        }
                        return Err(DbError::DuplicateKey);
                    }
                    proof {
                        if pre_iter.dbs.index.contains_key(dbid) {
                            let dpre = pre_iter.dbs.items[pre_iter.dbs.index[dbid] as int];
                            lemma_with_db_wf(pre_iter, dbid, dpre.with_new_bf(fv));
                            assert(self@ =~~= pre_iter.with_db(dbid, dpre.with_new_bf(fv)));
                        } else {
                            assert(self@ =~~= pre_iter);
                        }
                    }
                },
                _ => {},
            }
            loc = loc + consumed;
        }
        proof {
            assert(buf@.skip(loc as int) =~= Seq::<u8>::empty());
            assert(spec_load_children(self@, buf@.skip(loc as int)) == Ok::<CtlV, DbError>(self@));
        }
        Ok(())
    }

    /// Replays the write-ahead log buffer against this controller,
    /// exactly as [`crate::wal::spec_replay`] says.
    pub fn replay_logging_data(&mut self, wal: &[u8]) -> (r: Result<(), DbError>)
        requires
            old(self)@.wf(),
        ensures
            final(self)@.wf(),
            final(self).cfg == old(self).cfg,
            (final(self)@, r) == crate::wal::spec_replay(old(self)@, wal@),
    {
        crate::wal::replay(self, wal)
    }

    /// Loads a snapshot and replays the log on top of it: clears the
    /// state, folds the snapshot in, then replays. On a snapshot error
    /// the state may hold part of the snapshot; on a replay error it
    /// holds the records applied so far; it is well-formed either way.
    pub fn load_state(&mut self, bytes: &[u8], wal: &[u8]) -> (r: Result<(), DbError>)
        ensures
            final(self)@.wf(),
            final(self).cfg == old(self).cfg,
            match spec_ctl_deser(CtlV::cleared(), bytes@) {
                Err(e) => r == Err::<(), DbError>(e),
                Ok(v) => (final(self)@, r) == crate::wal::spec_replay(v, wal@),
            },
    {
        self.clear_state();
        let rd = self.deserialize(bytes);
        match rd {
            Ok(()) => {},
            Err(e) => {
                return Err(e);
            },
        }
        self.replay_logging_data(wal)
    }
}

/// A filter as it comes back from a snapshot: the same value with the
/// hash-function count pinned to 2, which is what the loader always
/// assigns.
pub open spec fn spec_norm_bfs(f: BloomFilterStructureV) -> BloomFilterStructureV {
    BloomFilterStructureV {
        id: f.id,
        dbid: f.dbid,
        inner: bf::BloomV { bits: f.inner.bits, hfn_cnt: 2, bit_cnt: f.inner.bit_cnt },
    }
}

/// A database as it comes back from a snapshot: every filter normalized.
pub open spec fn spec_norm_db(d: DatabaseV) -> DatabaseV {
    DatabaseV {
        id: d.id,
        bf_registry: RegistryV {
            items: d.bf_registry.items.map_values(|f: BloomFilterStructureV| spec_norm_bfs(f)),
            index: d.bf_registry.index,
        },
    }
}

/// A controller as it comes back from a snapshot: every database
/// normalized; the cursor is not stored and reloads as 0.
pub open spec fn spec_norm_ctl(c: CtlV) -> CtlV {
    CtlV {
        curr_db: 0,
        dbs: RegistryV {
            items: c.dbs.items.map_values(|d: DatabaseV| spec_norm_db(d)),
            index: c.dbs.index,
        },
    }
}

/// The controller after registering one empty database per entry of
/// `ds`, in order.
pub open spec fn spec_add_empty_run(pre: CtlV, ds: Seq<DatabaseV>) -> CtlV
    decreases ds.len(),
{
    if ds.len() == 0 {
        pre
    } else {
        spec_add_empty_run(pre.with_new_db(ds[0].id), ds.skip(1))
    }
}

/// The controller after joining each filter of `fs`, normalized, to the
/// database registered under `db_id`, in order.
pub open spec fn spec_add_bfs_run(pre: CtlV, db_id: u8, fs: Seq<BloomFilterStructureV>) -> CtlV
    decreases fs.len(),
{
    if fs.len() == 0 {
        pre
    } else {
        let d = pre.dbs.items[pre.dbs.index[db_id] as int];
        spec_add_bfs_run(
            pre.with_db(db_id, d.with_new_bf(spec_norm_bfs(fs[0]))),
            db_id,
            fs.skip(1),
        )
    }
}

/// Under well-formedness, an id in a database's filter index always
/// belongs to the filter stored at its position.
proof fn lemma_db_index_dom(d: DatabaseV, id: u8)
    requires
        d.wf(),
        d.bf_registry.index.contains_key(id),
    ensures
        d.bf_registry.items[d.bf_registry.index[id] as int].id == id,
{
    let j = d.bf_registry.index[id] as int;
    assert(d.bf_registry.index.contains_key(d.bf_registry.items[j].id)
        && d.bf_registry.index[d.bf_registry.items[j].id] == j);
}

/// The serialized value of a well-formed filter fits the length field of
/// its TLV.
proof fn lemma_bfs_val_len_bound(f: BloomFilterStructureV)
    requires
        f.wf(),
    ensures
        bf::spec_bfs_val_bytes(f).len() <= u64::MAX - 9,
        bf::spec_bfs_val_bytes(f).len() == 28 + 8 * f.inner.bits.words.len(),
{
    vstd::bytes::lemma_auto_spec_u64_to_from_le_bytes();
    srl::lemma_words_to_le_bytes_len(f.inner.bits.words);
    let w = f.inner.bits.words.len();
    assert(w == crate::bv::spec_word_count(f.inner.bits.size));
    assert(f.inner.bits.size <= usize::MAX);
    assert(w <= (u64::MAX + 63) / 64) by (nonlinear_arith)
        requires
            w == if f.inner.bits.size == 0 {
                1nat
            } else {
                ((f.inner.bits.size + 63) / 64) as nat
            },
            f.inner.bits.size <= u64::MAX,
    ;
    assert(28 + 8 * w <= u64::MAX - 9) by (nonlinear_arith)
        requires
            w <= (u64::MAX + 63) / 64,
    ;
}

/// Loading the concatenated TLVs of fresh, distinct database ids
/// registers one empty database per id, in order, and then goes on with
/// the rest of the buffer.
proof fn lemma_load_db_run(pre: CtlV, ds: Seq<DatabaseV>, rest: Seq<u8>)
    requires
        pre.wf(),
        pre.dbs.items.len() + ds.len() <= usize::MAX,
        forall|i: int| 0 <= i < ds.len() ==> !pre.dbs.index.contains_key(#[trigger] ds[i].id),
        forall|i: int, j: int| 0 <= i < j < ds.len() ==> ds[i].id != ds[j].id,
    ensures
        spec_load_children(pre, spec_db_tlvs(ds) + rest) == spec_load_children(
            spec_add_empty_run(pre, ds),
            rest,
        ),
        spec_add_empty_run(pre, ds).wf(),
        spec_add_empty_run(pre, ds).curr_db == pre.curr_db,
        spec_add_empty_run(pre, ds).dbs.items == pre.dbs.items + ds.map_values(
            |d: DatabaseV| spec_empty_db(d.id),
        ),
        forall|id: u8|
            #![trigger pre.dbs.index.contains_key(id)]
            pre.dbs.index.contains_key(id) ==> spec_add_empty_run(pre, ds).dbs.index.contains_key(
                id,
            ) && spec_add_empty_run(pre, ds).dbs.index[id] == pre.dbs.index[id],
        forall|i: int|
            0 <= i < ds.len() ==> spec_add_empty_run(pre, ds).dbs.index.contains_key(
                #[trigger] ds[i].id,
            ) && spec_add_empty_run(pre, ds).dbs.index[ds[i].id] == pre.dbs.items.len() + i,
        forall|id: u8|
            spec_add_empty_run(pre, ds).dbs.index.contains_key(id) ==> pre.dbs.index.contains_key(
                id,
            ) || exists|i: int| 0 <= i < ds.len() && (#[trigger] ds[i].id) == id,
    decreases ds.len(),
{
    if ds.len() == 0 {
        assert(spec_add_empty_run(pre, ds) == pre);
        assert(spec_db_tlvs(ds) + rest =~= rest);
        assert(pre.dbs.items + ds.map_values(|d: DatabaseV| spec_empty_db(d.id))
            =~= pre.dbs.items);
    } else {
        let d0 = ds[0];
        let pre1 = pre.with_new_db(d0.id);
        lemma_with_new_db_wf(pre, d0.id);
        srl::lemma_parse_tlv_encoding(
            srl::SerializableType::Database,
            db::spec_database_val_bytes(d0),
            spec_db_tlvs(ds.skip(1)) + rest,
        );
        let buf = spec_db_tlvs(ds) + rest;
        assert(buf =~= srl::spec_tlv_bytes(
            srl::SerializableType::Database.tag(),
            db::spec_database_val_bytes(d0),
        ) + (spec_db_tlvs(ds.skip(1)) + rest));
        assert(buf.skip(10) =~= spec_db_tlvs(ds.skip(1)) + rest);
        assert(db::spec_parse_database(db::spec_database_val_bytes(d0)) == Ok::<u8, DbError>(
            d0.id,
        ));
        assert(spec_load_children(pre, buf) == spec_load_children(
            pre1,
            spec_db_tlvs(ds.skip(1)) + rest,
        ));
        lemma_load_db_run(pre1, ds.skip(1), rest);
        assert(spec_add_empty_run(pre, ds) == spec_add_empty_run(pre1, ds.skip(1)));
        assert(pre1.dbs.items + ds.skip(1).map_values(|d: DatabaseV| spec_empty_db(d.id))
            =~= pre.dbs.items + ds.map_values(|d: DatabaseV| spec_empty_db(d.id)));
        let run = spec_add_empty_run(pre, ds);
        assert forall|id: u8|
            #![trigger pre.dbs.index.contains_key(id)]
            pre.dbs.index.contains_key(id) implies run.dbs.index.contains_key(
            id,
        ) && run.dbs.index[id] == pre.dbs.index[id] by {
            assert(id != ds[0].id);
            assert(pre1.dbs.index.contains_key(id) && pre1.dbs.index[id] == pre.dbs.index[id]);
            assert(spec_add_empty_run(pre1, ds.skip(1)).dbs.index.contains_key(id)
                && spec_add_empty_run(pre1, ds.skip(1)).dbs.index[id] == pre1.dbs.index[id]);
        }
        assert forall|i: int| 0 <= i < ds.len() implies run.dbs.index.contains_key(
            #[trigger] ds[i].id,
        ) && run.dbs.index[ds[i].id] == pre.dbs.items.len() + i by {
            if i == 0 {
                assert(pre1.dbs.index.contains_key(ds[0].id) && pre1.dbs.index[ds[0].id]
                    == pre.dbs.items.len());
            } else {
                assert(ds.skip(1)[i - 1] == ds[i]);
                assert(run.dbs.index.contains_key(ds.skip(1)[i - 1].id) && run.dbs.index[ds.skip(
                    1,
                )[i - 1].id] == pre1.dbs.items.len() + (i - 1));
            }
        }
        assert forall|id: u8|
            spec_add_empty_run(pre, ds).dbs.index.contains_key(id) implies pre.dbs.index
            .contains_key(id) || exists|i: int|
            0 <= i < ds.len() && (#[trigger] ds[i].id) == id by {
            if !pre.dbs.index.contains_key(id) {
                if pre1.dbs.index.contains_key(id) {
                    assert(ds[0].id == id);
                } else {
                    let i = choose|i: int|
                        0 <= i < ds.skip(1).len() && (#[trigger] ds.skip(1)[i].id) == id;
                    assert(ds[i + 1].id == id);
                }
            }
        }
    }
}

/// Loading the concatenated TLVs of fresh, distinct, well-formed filters
/// of one registered database joins them, normalized and in order, to
/// that database, and then goes on with the rest of the buffer.
#[verifier::rlimit(60)]
proof fn lemma_load_bf_run(pre: CtlV, db_id: u8, fs: Seq<BloomFilterStructureV>, rest: Seq<u8>)
    requires
        pre.wf(),
        pre.dbs.index.contains_key(db_id),
        ({
            let d = pre.dbs.items[pre.dbs.index[db_id] as int];
            &&& d.bf_registry.items.len() + fs.len() <= usize::MAX
            &&& forall|j: int| 0 <= j < fs.len() ==> (#[trigger] fs[j]).wf()
            &&& forall|j: int| 0 <= j < fs.len() ==> (#[trigger] fs[j]).dbid == db_id
            &&& forall|j: int|
                0 <= j < fs.len() ==> !d.bf_registry.index.contains_key((#[trigger] fs[j]).id)
            &&& forall|i: int, j: int| 0 <= i < j < fs.len() ==> fs[i].id != fs[j].id
        }),
    ensures
        spec_load_children(pre, spec_bf_tlvs(fs) + rest) == spec_load_children(
            spec_add_bfs_run(pre, db_id, fs),
            rest,
        ),
        spec_add_bfs_run(pre, db_id, fs).wf(),
        spec_add_bfs_run(pre, db_id, fs).curr_db == pre.curr_db,
        spec_add_bfs_run(pre, db_id, fs).dbs.index == pre.dbs.index,
        spec_add_bfs_run(pre, db_id, fs).dbs.items.len() == pre.dbs.items.len(),
        forall|k: int|
            0 <= k < pre.dbs.items.len() && k != pre.dbs.index[db_id] ==> spec_add_bfs_run(
                pre,
                db_id,
                fs,
            ).dbs.items[k] == pre.dbs.items[k],
        ({
            let d = pre.dbs.items[pre.dbs.index[db_id] as int];
            let d2 = spec_add_bfs_run(pre, db_id, fs).dbs.items[pre.dbs.index[db_id] as int];
            &&& d2.id == d.id
            &&& d2.bf_registry.items == d.bf_registry.items + fs.map_values(
                |f: BloomFilterStructureV| spec_norm_bfs(f),
            )
            &&& forall|id: u8|
                #![trigger d.bf_registry.index.contains_key(id)]
                d.bf_registry.index.contains_key(id) ==> d2.bf_registry.index.contains_key(id)
                    && d2.bf_registry.index[id] == d.bf_registry.index[id]
            &&& forall|j: int|
                0 <= j < fs.len() ==> d2.bf_registry.index.contains_key((#[trigger] fs[j]).id)
                    && d2.bf_registry.index[fs[j].id] == d.bf_registry.items.len() + j
            &&& forall|id: u8|
                d2.bf_registry.index.contains_key(id) ==> d.bf_registry.index.contains_key(id)
                    || exists|j: int| 0 <= j < fs.len() && (#[trigger] fs[j]).id == id
        }),
    decreases fs.len(),
{
    let idx = pre.dbs.index[db_id] as int;
    let d = pre.dbs.items[idx];
    lemma_get_db_id(pre, db_id);
    if fs.len() == 0 {
        assert(spec_add_bfs_run(pre, db_id, fs) == pre);
        assert(spec_bf_tlvs(fs) + rest =~= rest);
        assert(d.bf_registry.items + fs.map_values(|f: BloomFilterStructureV| spec_norm_bfs(f))
            =~= d.bf_registry.items);
    } else {
        let f0 = fs[0];
        let nf0 = spec_norm_bfs(f0);
        assert(nf0.wf());
        db::lemma_with_new_bf_wf(d, nf0);
        let d1 = d.with_new_bf(nf0);
        lemma_with_db_wf(pre, db_id, d1);
        let pre1 = pre.with_db(db_id, d1);
        lemma_bfs_val_len_bound(f0);
        srl::lemma_parse_tlv_encoding(
            srl::SerializableType::BloomFilterStructure,
            bf::spec_bfs_val_bytes(f0),
            spec_bf_tlvs(fs.skip(1)) + rest,
        );
        let buf = spec_bf_tlvs(fs) + rest;
        assert(buf =~= srl::spec_tlv_bytes(
            srl::SerializableType::BloomFilterStructure.tag(),
            bf::spec_bfs_val_bytes(f0),
        ) + (spec_bf_tlvs(fs.skip(1)) + rest));
        assert(buf.skip(9 + bf::spec_bfs_val_bytes(f0).len() as int) =~= spec_bf_tlvs(fs.skip(1))
            + rest);
        bf::lemma_bfs_round_trip(f0);
        assert(bf::spec_parse_bfs(bf::spec_bfs_val_bytes(f0))
            == Ok::<BloomFilterStructureV, DbError>(nf0));
        assert(spec_load_children(pre, buf) == spec_load_children(
            pre1,
            spec_bf_tlvs(fs.skip(1)) + rest,
        ));
        assert(pre1.dbs.index == pre.dbs.index);
        assert(pre1.dbs.items[idx] == d1);
        lemma_load_bf_run(pre1, db_id, fs.skip(1), rest);
        assert(spec_add_bfs_run(pre, db_id, fs) == spec_add_bfs_run(pre1, db_id, fs.skip(1)));
        let run = spec_add_bfs_run(pre, db_id, fs);
        let dfin = run.dbs.items[idx];
        assert(d1.bf_registry.items + fs.skip(1).map_values(
            |f: BloomFilterStructureV| spec_norm_bfs(f),
        ) =~= d.bf_registry.items + fs.map_values(|f: BloomFilterStructureV| spec_norm_bfs(f)));
        assert forall|k: int|
            0 <= k < pre.dbs.items.len() && k != idx implies run.dbs.items[k]
                == pre.dbs.items[k] by {
            assert(pre1.dbs.items[k] == pre.dbs.items[k]);
        }
        assert(dfin.id == d.id);
        assert forall|id: u8|
            #![trigger d.bf_registry.index.contains_key(id)]
            d.bf_registry.index.contains_key(id) implies dfin.bf_registry.index.contains_key(id)
            && dfin.bf_registry.index[id] == d.bf_registry.index[id] by {
            assert(id != nf0.id);
            assert(d1.bf_registry.index.contains_key(id) && d1.bf_registry.index[id]
                == d.bf_registry.index[id]);
        }
        assert forall|j: int| 0 <= j < fs.len() implies dfin.bf_registry.index.contains_key(
            (#[trigger] fs[j]).id,
        ) && dfin.bf_registry.index[fs[j].id] == d.bf_registry.items.len() + j by {
            if j == 0 {
                assert(d1.bf_registry.index.contains_key(nf0.id) && d1.bf_registry.index[nf0.id]
                    == d.bf_registry.items.len());
            } else {
                assert(fs.skip(1)[j - 1] == fs[j]);
                assert(dfin.bf_registry.index.contains_key(fs.skip(1)[j - 1].id)
                    && dfin.bf_registry.index[fs.skip(1)[j - 1].id] == d1.bf_registry.items.len()
                    + (j - 1));
            }
        }
        assert forall|id: u8|
            dfin.bf_registry.index.contains_key(id) implies d.bf_registry.index.contains_key(id)
            || exists|j: int| 0 <= j < fs.len() && (#[trigger] fs[j]).id == id by {
            if !d.bf_registry.index.contains_key(id) {
                if d1.bf_registry.index.contains_key(id) {
                    assert(fs[0].id == id);
                } else {
                    let j = choose|j: int|
                        0 <= j < fs.skip(1).len() && (#[trigger] fs.skip(1)[j].id) == id;
                    assert(fs[j + 1].id == id);
                }
            }
        }
    }
}


/// Under well-formedness, an id in the controller's database index always
/// belongs to the database stored at its position.
proof fn lemma_ctl_index_dom(c: CtlV, id: u8)
    requires
        c.wf(),
        c.dbs.index.contains_key(id),
    ensures
        c.dbs.items[c.dbs.index[id] as int].id == id,
{
    let j = c.dbs.index[id] as int;
    assert(c.dbs.index.contains_key(c.dbs.items[j].id) && c.dbs.index[c.dbs.items[j].id] == j);
}

/// Loading the filter runs of every database from position `k` on fills
/// each remaining empty shell with its normalized filters.
#[verifier::rlimit(100)]
proof fn lemma_fill_suffix(ds: Seq<DatabaseV>, k: int, pre: CtlV, rest: Seq<u8>)
    requires
        0 <= k <= ds.len(),
        ds.len() <= usize::MAX,
        forall|i: int| 0 <= i < ds.len() ==> (#[trigger] ds[i]).wf(),
        forall|i: int|
            0 <= i < ds.len() ==> (#[trigger] ds[i]).bf_registry.items.len() <= usize::MAX,
        forall|i: int, j: int| 0 <= i < j < ds.len() ==> ds[i].id != ds[j].id,
        pre.wf(),
        pre.dbs.items.len() == ds.len(),
        forall|i: int|
            0 <= i < ds.len() ==> pre.dbs.index.contains_key((#[trigger] ds[i]).id)
                && pre.dbs.index[ds[i].id] == i,
        forall|i: int| 0 <= i < k ==> pre.dbs.items[i] == spec_norm_db(#[trigger] ds[i]),
        forall|i: int|
            k <= i < ds.len() ==> pre.dbs.items[i] == spec_empty_db((#[trigger] ds[i]).id),
    ensures
        spec_load_children(pre, spec_all_bf_tlvs(ds.skip(k)) + rest) == spec_load_children(
            CtlV {
                curr_db: pre.curr_db,
                dbs: RegistryV {
                    items: ds.map_values(|d: DatabaseV| spec_norm_db(d)),
                    index: pre.dbs.index,
                },
            },
            rest,
        ),
    decreases ds.len() - k,
{
    if k == ds.len() {
        assert(ds.skip(k) =~= Seq::<DatabaseV>::empty());
        assert(spec_all_bf_tlvs(Seq::<DatabaseV>::empty()) == Seq::<u8>::empty());
        assert(spec_all_bf_tlvs(ds.skip(k)) + rest =~= rest);
        assert(pre.dbs.items =~= ds.map_values(|d: DatabaseV| spec_norm_db(d)));
        assert(pre =~~= CtlV {
            curr_db: pre.curr_db,
            dbs: RegistryV {
                items: ds.map_values(|d: DatabaseV| spec_norm_db(d)),
                index: pre.dbs.index,
            },
        });
    } else {
        let dk = ds[k];
        let fs = dk.bf_registry.items;
        assert(ds.skip(k)[0] == dk);
        assert(ds.skip(k).skip(1) =~= ds.skip(k + 1));
        assert(spec_all_bf_tlvs(ds.skip(k)) == spec_bf_tlvs(fs) + spec_all_bf_tlvs(ds.skip(k + 1)));
        assert(spec_all_bf_tlvs(ds.skip(k)) + rest =~= spec_bf_tlvs(fs) + (spec_all_bf_tlvs(
            ds.skip(k + 1),
        ) + rest));
        let shell = pre.dbs.items[k];
        assert(shell == spec_empty_db(dk.id));
        assert(pre.dbs.index[dk.id] == k);
        assert forall|i: int, j: int| 0 <= i < j < fs.len() implies fs[i].id != fs[j].id by {
            assert(dk.bf_registry.index[fs[i].id] == i);
            assert(dk.bf_registry.index[fs[j].id] == j);
        }
        assert(dk.wf());
        lemma_load_bf_run(pre, dk.id, fs, spec_all_bf_tlvs(ds.skip(k + 1)) + rest);
        let post1 = spec_add_bfs_run(pre, dk.id, fs);
        let d2 = post1.dbs.items[k];
        assert(d2.bf_registry.items =~= fs.map_values(|f: BloomFilterStructureV| spec_norm_bfs(f)));
        assert_maps_equal!(d2.bf_registry.index, dk.bf_registry.index, id => {
            if d2.bf_registry.index.contains_key(id) {
                assert(!shell.bf_registry.index.contains_key(id));
                let j = choose|j: int| 0 <= j < fs.len() && (#[trigger] fs[j]).id == id;
                assert(d2.bf_registry.index[fs[j].id] == shell.bf_registry.items.len() + j);
                assert(dk.bf_registry.index.contains_key(fs[j].id)
                    && dk.bf_registry.index[fs[j].id] == j);
            }
            if dk.bf_registry.index.contains_key(id) {
                lemma_db_index_dom(dk, id);
                let j = dk.bf_registry.index[id] as int;
                assert(fs[j].id == id);
                assert(d2.bf_registry.index.contains_key(fs[j].id));
                assert(d2.bf_registry.index[fs[j].id] == shell.bf_registry.items.len() + j);
            }
        });
        assert(d2 =~~= spec_norm_db(dk));
        assert forall|i: int| 0 <= i < k + 1 implies post1.dbs.items[i] == spec_norm_db(
            #[trigger] ds[i],
        ) by {
            if i < k {
                assert(post1.dbs.items[i] == pre.dbs.items[i]);
            }
        }
        assert forall|i: int|
            k + 1 <= i < ds.len() implies post1.dbs.items[i] == spec_empty_db(
            (#[trigger] ds[i]).id,
        ) by {
            assert(post1.dbs.items[i] == pre.dbs.items[i]);
        }
        lemma_fill_suffix(ds, k + 1, post1, rest);
        assert(CtlV {
            curr_db: post1.curr_db,
            dbs: RegistryV {
                items: ds.map_values(|d: DatabaseV| spec_norm_db(d)),
                index: post1.dbs.index,
            },
        } == CtlV {
            curr_db: pre.curr_db,
            dbs: RegistryV {
                items: ds.map_values(|d: DatabaseV| spec_norm_db(d)),
                index: pre.dbs.index,
            },
        });
    }
}

/// Law: a snapshot round trip. Writing a well-formed controller out and
/// loading the bytes back into a blank controller reconstructs the same
/// databases and filters, in the same order and under the same ids, with
/// the same bits; only each filter's hash-function count is pinned back
/// to 2 by the loader. The length bounds say the state fits in memory.
pub proof fn lemma_snapshot_round_trip(c: CtlV)
    requires
        c.wf(),
        c.curr_db == 0,
        c.dbs.items.len() <= usize::MAX,
        forall|i: int|
            0 <= i < c.dbs.items.len() ==> (#[trigger] c.dbs.items[i]).bf_registry.items.len()
                <= usize::MAX,
    ensures
        spec_ctl_deser(CtlV::cleared(), spec_snapshot_bytes(c)) == Ok::<CtlV, DbError>(
            spec_norm_ctl(c),
        ),
{
    lemma_auto_spec_u64_to_from_le_bytes();
    let ds = c.dbs.items;
    let val = spec_ctl_val_bytes(c);
    let bytes = spec_snapshot_bytes(c);
    assert(val.len() >= 1);
    assert(bytes.len() == 9 + val.len());
    assert(bytes[9] == val[0]);
    assert(val[0] == 2);
    assert(bytes.skip(10) =~= spec_db_tlvs(ds) + spec_all_bf_tlvs(ds));
    assert forall|i: int, j: int| 0 <= i < j < ds.len() implies ds[i].id != ds[j].id by {
        assert(c.dbs.index[ds[i].id] == i);
        assert(c.dbs.index[ds[j].id] == j);
    }
    lemma_load_db_run(CtlV::cleared(), ds, spec_all_bf_tlvs(ds));
    let s1 = spec_add_empty_run(CtlV::cleared(), ds);
    assert(s1.dbs.items =~= ds.map_values(|d: DatabaseV| spec_empty_db(d.id)));
    assert forall|i: int| 0 <= i < ds.len() implies s1.dbs.items[i] == spec_empty_db(
        (#[trigger] ds[i]).id,
    ) by {
        assert(s1.dbs.items[i] == ds.map_values(|d: DatabaseV| spec_empty_db(d.id))[i]);
    }
    assert(ds.skip(0) =~= ds);
    lemma_fill_suffix(ds, 0, s1, Seq::<u8>::empty());
    let fin = CtlV {
        curr_db: s1.curr_db,
        dbs: RegistryV {
            items: ds.map_values(|d: DatabaseV| spec_norm_db(d)),
            index: s1.dbs.index,
        },
    };
    assert(spec_all_bf_tlvs(ds) + Seq::<u8>::empty() =~= spec_all_bf_tlvs(ds));
    assert(spec_load_children(CtlV::cleared(), bytes.skip(10)) == spec_load_children(
        fin,
        Seq::<u8>::empty(),
    ));
    assert(spec_load_children(fin, Seq::<u8>::empty()) == Ok::<CtlV, DbError>(fin));
    assert_maps_equal!(s1.dbs.index, c.dbs.index, id => {
        if s1.dbs.index.contains_key(id) {
            assert(!CtlV::cleared().dbs.index.contains_key(id));
            let i = choose|i: int| 0 <= i < ds.len() && (#[trigger] ds[i].id) == id;
            assert(s1.dbs.index[ds[i].id] == CtlV::cleared().dbs.items.len() + i);
            assert(c.dbs.index.contains_key(ds[i].id) && c.dbs.index[ds[i].id] == i);
        }
        if c.dbs.index.contains_key(id) {
            lemma_ctl_index_dom(c, id);
            let i = c.dbs.index[id] as int;
            assert(ds[i].id == id);
            assert(s1.dbs.index.contains_key(ds[i].id));
            assert(s1.dbs.index[ds[i].id] == CtlV::cleared().dbs.items.len() + i);
        }
    });
    assert(fin =~~= spec_norm_ctl(c));
}

/// When every filter already has two hash functions, the snapshot round
/// trip is the identity: the normalized controller is the controller
/// itself.
pub proof fn lemma_norm_identity(c: CtlV)
    requires
        c.curr_db == 0,
        forall|i: int, j: int|
            0 <= i < c.dbs.items.len() && 0 <= j < (#[trigger] c.dbs.items[i]).bf_registry.items.len()
                ==> (#[trigger] c.dbs.items[i].bf_registry.items[j]).inner.hfn_cnt == 2,
    ensures
        spec_norm_ctl(c) == c,
{
    assert forall|i: int| 0 <= i < c.dbs.items.len() implies c.dbs.items.map_values(
        |d: DatabaseV| spec_norm_db(d),
    )[i] == c.dbs.items[i] by {
        let d = c.dbs.items[i];
        assert forall|j: int|
            0 <= j < d.bf_registry.items.len() implies d.bf_registry.items.map_values(
            |f: BloomFilterStructureV| spec_norm_bfs(f),
        )[j] == d.bf_registry.items[j] by {
            assert(c.dbs.items[i].bf_registry.items[j].inner.hfn_cnt == 2);
            assert(spec_norm_bfs(d.bf_registry.items[j]) =~~= d.bf_registry.items[j]);
        }
        assert(d.bf_registry.items.map_values(|f: BloomFilterStructureV| spec_norm_bfs(f))
            =~= d.bf_registry.items);
        assert(spec_norm_db(d) =~~= d);
    }
    assert(c.dbs.items.map_values(|d: DatabaseV| spec_norm_db(d)) =~= c.dbs.items);
    assert(spec_norm_ctl(c) =~~= c);
}

} // verus!
