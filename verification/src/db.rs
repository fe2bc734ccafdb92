//! A database: a one-byte id and a registry of the Bloom filters that live
//! in it.

use vstd::prelude::*;

use crate::bf::BloomFilterStructure;
use crate::bf::BloomFilterStructureV;
use crate::err::DbError;
use crate::reg::Registry;
use crate::reg::RegistryV;
use crate::srl;

verus! {

/// The mathematical value of a [`Database`].
#[verifier::ext_equal]
pub struct DatabaseV {
    pub id: u8,
    pub bf_registry: RegistryV<BloomFilterStructureV>,
}

impl DatabaseV {
    /// Well-formed: the registry is well-formed, every filter is
    /// well-formed, names this database as its parent, and sits in the
    /// index under its own id.
    pub open spec fn wf(self) -> bool {
        &&& self.bf_registry.wf()
        &&& forall|i: int|
            0 <= i < self.bf_registry.items.len() ==> (#[trigger] self.bf_registry.items[i]).wf()
        &&& forall|i: int|
            0 <= i < self.bf_registry.items.len() ==> (#[trigger] self.bf_registry.items[i]).dbid
                == self.id
        &&& forall|i: int|
            0 <= i < self.bf_registry.items.len() ==> self.bf_registry.index.contains_key(
                (#[trigger] self.bf_registry.items[i]).id,
            ) && self.bf_registry.index[self.bf_registry.items[i].id] == i
    }

    /// This database with a filter appended under the filter's own id.
    pub open spec fn with_new_bf(self, f: BloomFilterStructureV) -> DatabaseV {
        DatabaseV { id: self.id, bf_registry: self.bf_registry.spec_add(f, f.id) }
    }

    /// This database with the filter registered under `bf_id` replaced.
    pub open spec fn with_bf(self, bf_id: u8, f: BloomFilterStructureV) -> DatabaseV
        recommends
            self.bf_registry.index.contains_key(bf_id),
    {
        DatabaseV {
            id: self.id,
            bf_registry: RegistryV {
                items: self.bf_registry.items.update(self.bf_registry.index[bf_id] as int, f),
                index: self.bf_registry.index,
            },
        }
    }
}

/// A well-formed database in which a fresh filter id was not yet
/// registered stays well-formed after appending a well-formed filter that
/// bears that id and names the database as its parent.
pub proof fn lemma_with_new_bf_wf(d: DatabaseV, f: BloomFilterStructureV)
    requires
        d.wf(),
        f.wf(),
        f.dbid == d.id,
        !d.bf_registry.index.contains_key(f.id),
        d.bf_registry.items.len() <= usize::MAX,
    ensures
        d.with_new_bf(f).wf(),
{
    let d2 = d.with_new_bf(f);
    assert forall|i: int|
        0 <= i < d2.bf_registry.items.len() implies d2.bf_registry.index.contains_key(
        (#[trigger] d2.bf_registry.items[i]).id,
    ) && d2.bf_registry.index[d2.bf_registry.items[i].id] == i by {
        if i < d.bf_registry.items.len() {
            assert(d2.bf_registry.items[i] == d.bf_registry.items[i]);
            assert(d.bf_registry.items[i].id != f.id);
        } else {
            assert(d2.bf_registry.items[i] == f);
        }
    }
}

/// Replacing a registered filter with a well-formed one bearing the same
/// id and parent keeps the database well-formed; other ids resolve as
/// before.
pub proof fn lemma_with_bf_wf(d: DatabaseV, bf_id: u8, f: BloomFilterStructureV)
    requires
        d.wf(),
        d.bf_registry.index.contains_key(bf_id),
        f.wf(),
        f.id == bf_id,
        f.dbid == d.id,
    ensures
        d.with_bf(bf_id, f).wf(),
        d.with_bf(bf_id, f).id == d.id,
        d.with_bf(bf_id, f).bf_registry.spec_get(bf_id) == Some(f),
        forall|other: u8|
            other != bf_id ==> d.with_bf(bf_id, f).bf_registry.spec_get(other)
                == d.bf_registry.spec_get(other),
{
    let idx = d.bf_registry.index[bf_id] as int;
    assert(d.bf_registry.index.contains_key(d.bf_registry.items[idx].id)
        && d.bf_registry.index[d.bf_registry.items[idx].id] == idx);
    let d2 = d.with_bf(bf_id, f);
    assert forall|i: int|
        0 <= i < d2.bf_registry.items.len() implies d2.bf_registry.index.contains_key(
        (#[trigger] d2.bf_registry.items[i]).id,
    ) && d2.bf_registry.index[d2.bf_registry.items[i].id] == i by {
        if i != idx {
            assert(d2.bf_registry.items[i] == d.bf_registry.items[i]);
        }
    }
    assert forall|other: u8|
        other != bf_id implies d2.bf_registry.spec_get(other) == d.bf_registry.spec_get(other) by {
        if d.bf_registry.index.contains_key(other) {
            assert(d.bf_registry.index[other] != d.bf_registry.index[bf_id]);
        }
    }
}

/// A Bloom-filter namespace: its id and its filters.
#[derive(Debug)]
pub struct Database {
    pub id: u8,
    pub bf_registry: Registry<BloomFilterStructure>,
}

impl View for Database {
    type V = DatabaseV;

    open spec fn view(&self) -> DatabaseV {
        DatabaseV {
            id: self.id,
            bf_registry: RegistryV {
                items: self.bf_registry.items@.map_values(|b: BloomFilterStructure| b@),
                index: self.bf_registry.items_index@,
            },
        }
    }
}

impl Database {
    /// An empty database with the given id.
    #[must_use]
    pub fn new(id: u8) -> (r: Self)
        ensures
            r@.id == id,
            r@.bf_registry.items == Seq::<BloomFilterStructureV>::empty(),
            r@.bf_registry.index == Map::<u8, usize>::empty(),
            r@.wf(),
    {
        let r = Self { id, bf_registry: Registry::<BloomFilterStructure>::new_blank() };
        proof {
            assert(r@.bf_registry.items =~= Seq::<BloomFilterStructureV>::empty());
        }
        r
    }
}

/// How a TLV value reads back as a database: one byte, its id; an empty
/// value is a short buffer.
pub open spec fn spec_parse_database(v: Seq<u8>) -> Result<u8, DbError> {
    if v.len() < 1 {
        Err(DbError::UnexpectedEof)
    } else {
        Ok(v[0])
    }
}

/// The value bytes of a serialized database: just its id.
pub open spec fn spec_database_val_bytes(d: DatabaseV) -> Seq<u8> {
    seq![d.id]
}

impl srl::Deserializable for Database {
    /// Reads a database back from its TLV: a fresh, empty database under
    /// the stored id, exactly as [`spec_parse_database`] says.
    fn deserialize(tlv: &srl::DeserTLV) -> (r: Result<Self, DbError>)
        ensures
            match r {
                Ok(db) => spec_parse_database(tlv.val@) == Ok::<u8, DbError>(db@.id) && db@.wf()
                    && db@.bf_registry.items.len() == 0 && db@.bf_registry.index
                    == Map::<u8, usize>::empty(),
                Err(e) => spec_parse_database(tlv.val@) == Err::<u8, DbError>(e),
            },
    {
        let buf = tlv.val.as_slice();
        if buf.len() < 1 {
            return Err(DbError::UnexpectedEof);
        }
        let id = match srl::DeserTLV::deserialize_u8(buf) {
            Ok(b) => b,
            Err(e) => {
                return Err(e);
            },
        };
        Ok(Database::new(id))
    }
}

/// Law: a database's TLV round trip recovers its id. A database TLV
/// carries only the id; the filters travel in their own TLVs.
pub proof fn lemma_database_round_trip(d: DatabaseV)
    ensures
        spec_parse_database(spec_database_val_bytes(d)) == Ok::<u8, DbError>(d.id),
{
}

impl srl::Serializable<Database> for Database {
    /// Writes the database's id into a TLV tagged `Database`. Never fails.
    fn serialize(&self) -> (r: Result<srl::SerTLV, DbError>)
        ensures
            match r {
                Ok(tlv) => tlv.srl_type == srl::SerializableType::Database && tlv.val@
                    == spec_database_val_bytes(self@),
                Err(_) => false,
            },
    {
        let mut tlv = srl::SerTLV::new(srl::SerializableType::Database);
        tlv.serialize_u8(self.id);
        proof {
            assert(tlv.val@ =~= spec_database_val_bytes(self@));
        }
        Ok(tlv)
    }
}

} // verus!
