//! The object database: sets keyed by id, each owning objects keyed by a
//! 16-bit id.
//!
//! On disk the database is a header with a hint, the largest object id, and
//! two tables. The set table holds one record per set; there is no
//! positional index in this schema. The object table holds one record per
//! object; an object names its set by the set's id, in 16 bits.

use crate::order::{
    ascending_u16, ascending_u32, entries_u16, entries_u32, lemma_ascending_u16,
    lemma_ascending_u32,
};
use crate::obj_laws::lemma_obj_max_id_hint_unique;
use crate::table::{lemma_views_push, views};
use std::collections::BTreeMap;
use vstd::prelude::*;

verus! {

/// The number of bytes of the hint in the header, which reading passes
/// over.
pub const OBJ_HINT_BYTES: usize = 4;

/// The number of reserved zero bytes that end each set record.
pub const OBJ_SET_RESERVED_BYTES: usize = 16;

/// One object set: three file names and its objects, names keyed by object
/// id.
#[derive(Debug, Default, Clone, PartialEq, Eq, PartialOrd, Ord, Hash)]
pub struct ObjSet {
    pub name: String,
    pub object_filename: String,
    pub texture_filename: String,
    pub archive_filename: String,
    pub objects: BTreeMap<u16, String>,
}

/// The object database: sets keyed by set id.
#[derive(Debug, Default, Clone, PartialEq, Eq, PartialOrd, Ord, Hash)]
pub struct ObjDb {
    pub sets: BTreeMap<u32, ObjSet>,
}

/// What a set is in contracts.
#[verifier::ext_equal]
pub struct ObjSetView {
    pub name: Seq<char>,
    pub object_filename: Seq<char>,
    pub texture_filename: Seq<char>,
    pub archive_filename: Seq<char>,
    pub objects: Map<u16, Seq<char>>,
}

impl View for ObjSet {
    type V = ObjSetView;

    open spec fn view(&self) -> ObjSetView {
        ObjSetView {
            name: self.name@,
            object_filename: self.object_filename@,
            texture_filename: self.texture_filename@,
            archive_filename: self.archive_filename@,
            objects: self.objects@.map_values(|name: String| name@),
        }
    }
}

impl View for ObjDb {
    type V = Map<u32, ObjSetView>;

    open spec fn view(&self) -> Map<u32, ObjSetView> {
        self.sets@.map_values(|set: ObjSet| set@)
    }
}

/// One record of the set table, fields in table order.
#[derive(Debug, Default, Clone, PartialEq, Eq, PartialOrd, Ord, Hash)]
pub struct ObjSetRecord {
    pub name: String,
    pub id: u32,
    pub object_filename: String,
    pub texture_filename: String,
    pub archive_filename: String,
}

/// One record of the object table, fields in table order. `set_id` is the
/// id of the owning set in 16 bits.
#[derive(Debug, Default, Clone, PartialEq, Eq, PartialOrd, Ord, Hash)]
pub struct ObjObjectRecord {
    pub id: u16,
    pub set_id: u16,
    pub name: String,
}

/// What a set record is in contracts.
#[verifier::ext_equal]
pub struct ObjSetRow {
    pub name: Seq<char>,
    pub id: u32,
    pub object_filename: Seq<char>,
    pub texture_filename: Seq<char>,
    pub archive_filename: Seq<char>,
}

/// What an object record is in contracts.
#[verifier::ext_equal]
pub struct ObjObjectRow {
    pub id: u16,
    pub set_id: u16,
    pub name: Seq<char>,
}

impl View for ObjSetRecord {
    type V = ObjSetRow;

    open spec fn view(&self) -> ObjSetRow {
        ObjSetRow {
            name: self.name@,
            id: self.id,
            object_filename: self.object_filename@,
            texture_filename: self.texture_filename@,
            archive_filename: self.archive_filename@,
        }
    }
}

impl View for ObjObjectRecord {
    type V = ObjObjectRow;

    open spec fn view(&self) -> ObjObjectRow {
        ObjObjectRow { id: self.id, set_id: self.set_id, name: self.name@ }
    }
}

/// The set that a set record stands for, before any object is attached.
pub open spec fn obj_bare_set(row: ObjSetRow) -> ObjSetView {
    ObjSetView {
        name: row.name,
        object_filename: row.object_filename,
        texture_filename: row.texture_filename,
        archive_filename: row.archive_filename,
        objects: Map::empty(),
    }
}

/// The sets of a set table: each record is inserted under its id, in table
/// order, so of two records with one id the later one stays.
pub open spec fn obj_parents(rows: Seq<ObjSetRow>) -> Map<u32, ObjSetView>
    decreases rows.len(),
{
    if rows.len() == 0 {
        Map::empty()
    } else {
        obj_parents(rows.drop_last()).insert(rows.last().id, obj_bare_set(rows.last()))
    }
}

/// The database after one more object record: the object is inserted into
/// the set whose id its parent field holds, and dropped where there is no
/// such set.
pub open spec fn obj_attach(sets: Map<u32, ObjSetView>, row: ObjObjectRow) -> Map<
    u32,
    ObjSetView,
> {
    let owner = row.set_id as u32;
    if sets.contains_key(owner) {
        sets.insert(
            owner,
            ObjSetView { objects: sets[owner].objects.insert(row.id, row.name), ..sets[owner] },
        )
    } else {
        sets
    }
}

/// The database after all object records of `rows`, attached in table
/// order.
pub open spec fn obj_attach_all(sets: Map<u32, ObjSetView>, rows: Seq<ObjObjectRow>) -> Map<
    u32,
    ObjSetView,
>
    decreases rows.len(),
{
    if rows.len() == 0 {
        sets
    } else {
        obj_attach(obj_attach_all(sets, rows.drop_last()), rows.last())
    }
}

/// The database that a set table and an object table stand for. The hint of
/// the header plays no part in it.
pub open spec fn obj_decode(sets: Seq<ObjSetRow>, objects: Seq<ObjObjectRow>) -> Map<
    u32,
    ObjSetView,
> {
    obj_attach_all(obj_parents(sets), objects)
}

/// The set record of the set with id `id`.
pub open spec fn obj_set_row(db: Map<u32, ObjSetView>, id: u32) -> ObjSetRow {
    ObjSetRow {
        name: db[id].name,
        id,
        object_filename: db[id].object_filename,
        texture_filename: db[id].texture_filename,
        archive_filename: db[id].archive_filename,
    }
}

/// The set table of a database: one record per set, in ascending id order.
pub open spec fn obj_set_rows(db: Map<u32, ObjSetView>) -> Seq<ObjSetRow> {
    let ids = ascending_u32(db.dom());
    Seq::new(ids.len(), |i: int| obj_set_row(db, ids[i]))
}

/// The database with the objects of every set taken out.
pub open spec fn obj_stripped(db: Map<u32, ObjSetView>) -> Map<u32, ObjSetView> {
    Map::new(
        |id: u32| db.contains_key(id),
        |id: u32| ObjSetView { objects: Map::empty(), ..db[id] },
    )
}

/// The parent field of the objects of the set with id `set_id`: the id in
/// 16 bits.
pub open spec fn obj_parent_field(set_id: u32) -> u16 {
    (set_id % 0x1_0000) as u16
}

/// The object records of one set, in ascending object id order, each naming
/// the set by its id.
pub open spec fn obj_object_block(objects: Map<u16, Seq<char>>, set_id: u32) -> Seq<
    ObjObjectRow,
> {
    let ids = ascending_u16(objects.dom());
    Seq::new(
        ids.len(),
        |j: int|
            ObjObjectRow { id: ids[j], set_id: obj_parent_field(set_id), name: objects[ids[j]] },
    )
}

/// The object records of the first `n` sets in ascending id order, set by
/// set.
pub open spec fn obj_object_rows_upto(db: Map<u32, ObjSetView>, n: int) -> Seq<ObjObjectRow>
    decreases n,
{
    if n <= 0 {
        Seq::empty()
    } else {
        let set_id = ascending_u32(db.dom())[n - 1];
        obj_object_rows_upto(db, n - 1) + obj_object_block(db[set_id].objects, set_id)
    }
}

/// The object table of a database: the objects of all sets, grouped by set
/// in ascending set id order, and in ascending object id order within a
/// set.
pub open spec fn obj_object_rows(db: Map<u32, ObjSetView>) -> Seq<ObjObjectRow> {
    obj_object_rows_upto(db, ascending_u32(db.dom()).len() as int)
}

/// Whether `hint` is the hint of the header of `db`: the largest object id
/// of any set, and 0 where no set has an object.
pub open spec fn obj_is_max_id_hint(db: Map<u32, ObjSetView>, hint: u32) -> bool {
    &&& forall|set_id: u32, id: u16|
        db.contains_key(set_id) && #[trigger] db[set_id].objects.contains_key(id) ==> id <= hint
    &&& hint == 0 || exists|set_id: u32, id: u16|
        db.contains_key(set_id) && #[trigger] db[set_id].objects.contains_key(id) && id == hint
}

/// The hint of the header of `db`: the one value that is the largest
/// object id of any set, and 0 where no set has an object.
pub open spec fn obj_max_id_hint(db: Map<u32, ObjSetView>) -> u32 {
    choose|hint: u32| obj_is_max_id_hint(db, hint)
}

impl ObjDb {
    /// Builds the database from its two tables. Every set record becomes a
    /// set; every object record whose parent field holds the id of a set
    /// becomes an object of that set; the others are dropped.
    pub fn decode(sets: &Vec<ObjSetRecord>, objects: &Vec<ObjObjectRecord>) -> (db: ObjDb)
        ensures
            db@ == obj_decode(views(sets@), views(objects@)),
    {
        let mut map: BTreeMap<u32, ObjSet> = BTreeMap::new();
        let ghost set_rows = views(sets@);
        let ghost object_rows = views(objects@);
        proof {
            assert(map@.map_values(|set: ObjSet| set@) =~= obj_parents(set_rows.take(0)));
        }
        for i in 0..sets.len()
            invariant
                set_rows == views(sets@),
                map@.map_values(|set: ObjSet| set@) == obj_parents(set_rows.take(i as int)),
        {
            let record = &sets[i];
            let set = ObjSet {
                name: record.name.clone(),
                object_filename: record.object_filename.clone(),
                texture_filename: record.texture_filename.clone(),
                archive_filename: record.archive_filename.clone(),
                objects: BTreeMap::new(),
            };
            proof {
                assert(set_rows.take(i + 1).drop_last() =~= set_rows.take(i as int));
                assert(set_rows.take(i + 1).last() == record@);
                assert(set@.objects =~= Map::empty());
                assert(set@ == obj_bare_set(record@));
                assert(map@.insert(record.id, set).map_values(|set: ObjSet| set@)
                    =~= map@.map_values(|set: ObjSet| set@).insert(record.id, set@));
            }
            map.insert(record.id, set);
        }
        proof {
            assert(set_rows.take(sets.len() as int) =~= set_rows);
            assert(object_rows.take(0) =~= Seq::empty());
        }
        for j in 0..objects.len()
            invariant
                object_rows == views(objects@),
                map@.map_values(|set: ObjSet| set@) == obj_attach_all(
                    obj_parents(set_rows),
                    object_rows.take(j as int),
                ),
        {
            let record = &objects[j];
            let set_id: u32 = record.set_id as u32;
            let ghost before = map@.map_values(|set: ObjSet| set@);
            proof {
                assert(object_rows.take(j + 1).drop_last() =~= object_rows.take(j as int));
                assert(object_rows.take(j + 1).last() == record@);
            }
            match map.remove(&set_id) {
                Some(set) => {
                    let mut set = set;
                    let ghost owner = set@;
                    let name = record.name.clone();
                    proof {
                        assert(set.objects@.insert(record.id, name).map_values(
                            |name: String| name@,
                        ) =~= owner.objects.insert(record.id, name@));
                    }
                    set.objects.insert(record.id, name);
                    proof {
                        assert(map@.insert(set_id, set).map_values(|set: ObjSet| set@)
                            =~= before.insert(set_id, set@));
                    }
                    map.insert(set_id, set);
                },
                None => {},
            }
        }
        proof {
            assert(object_rows.take(objects.len() as int) =~= object_rows);
        }
        ObjDb { sets: map }
    }

    /// The hint of the header: the largest object id of any set, and 0
    /// where no set has an object.
    pub fn max_id_hint(&self) -> (hint: u32)
        ensures
            obj_is_max_id_hint(self@, hint),
            hint == obj_max_id_hint(self@),
    {
        let entries = entries_u32(&self.sets);
        let mut max: u16 = 0;
        proof {
            assert(self@.dom() =~= self.sets@.dom());
        }
        for i in 0..entries.len()
            invariant
                entries@.len() == ascending_u32(self.sets@.dom()).len(),
                forall|k: int|
                    0 <= k < entries@.len() ==> {
                        &&& (#[trigger] entries@[k]).0 == ascending_u32(self.sets@.dom())[k]
                        &&& self.sets@.contains_key(entries@[k].0)
                        &&& *entries@[k].1 == self.sets@[entries@[k].0]
                    },
                self@.dom() == self.sets@.dom(),
                forall|k: int, id: u16|
                    0 <= k < i && #[trigger] self@[(#[trigger] entries@[k]).0].objects.contains_key(
                        id,
                    ) ==> id <= max,
                max == 0 || exists|set_id: u32, id: u16|
                    self@.contains_key(set_id) && #[trigger] self@[set_id].objects.contains_key(
                        id,
                    ) && id == max,
        {
            let (set_id, set) = entries[i];
            let objects = entries_u16(&set.objects);
            proof {
                assert(self@[set_id] == set@);
                assert(set@.objects.dom() =~= set.objects@.dom());
                lemma_ascending_u16(set.objects@.dom());
            }
            if objects.len() > 0 {
                let last: u16 = objects[objects.len() - 1].0;
                let ghost ids = ascending_u16(set.objects@.dom());
                proof {
                    assert(last == ids[ids.len() - 1]);
                    assert(self@[set_id].objects.contains_key(last));
                    assert forall|id: u16|
                        self@[set_id].objects.contains_key(id) implies id <= last by {
                        assert(ids.contains(id));
                        let q = choose|q: int| 0 <= q < ids.len() && ids[q] == id;
                        if q < ids.len() - 1 {
                            assert(ids[q] < ids[ids.len() - 1]);
                        }
                    }
                }
                if last > max {
                    max = last;
                }
            } else {
                proof {
                    assert forall|id: u16| !self@[set_id].objects.contains_key(id) by {
                        let ids = ascending_u16(set.objects@.dom());
                        assert(ids.contains(id) <==> set.objects@.dom().contains(id));
                        if ids.contains(id) {
                            let q = choose|q: int| 0 <= q < ids.len() && ids[q] == id;
                        }
                    }
                }
            }
        }
        proof {
            lemma_ascending_u32(self.sets@.dom());
            assert forall|set_id: u32, id: u16|
                self@.contains_key(set_id) && #[trigger] self@[set_id].objects.contains_key(
                    id,
                ) implies id <= max by {
                let ids = ascending_u32(self.sets@.dom());
                assert(ids.contains(set_id));
                let k = choose|k: int| 0 <= k < ids.len() && ids[k] == set_id;
                assert(entries@[k].0 == set_id);
            }
            assert(obj_is_max_id_hint(self@, max as u32));
            lemma_obj_max_id_hint_unique(self@, max as u32, obj_max_id_hint(self@));
        }
        max as u32
    }

    /// The set table of the database.
    pub fn set_records(&self) -> (out: Vec<ObjSetRecord>)
        ensures
            views(out@) == obj_set_rows(self@),
    {
        let entries = entries_u32(&self.sets);
        let ghost ids = ascending_u32(self.sets@.dom());
        let mut out: Vec<ObjSetRecord> = Vec::new();
        proof {
            assert(self@.dom() =~= self.sets@.dom());
        }
        for i in 0..entries.len()
            invariant
                ids == ascending_u32(self.sets@.dom()),
                entries@.len() == ids.len(),
                forall|k: int|
                    0 <= k < entries@.len() ==> {
                        &&& (#[trigger] entries@[k]).0 == ids[k]
                        &&& self.sets@.contains_key(entries@[k].0)
                        &&& *entries@[k].1 == self.sets@[entries@[k].0]
                    },
                self@.dom() == self.sets@.dom(),
                out@.len() == i,
                forall|k: int| 0 <= k < i ==> (#[trigger] out@[k])@ == obj_set_row(self@, ids[k]),
        {
            let (id, set) = entries[i];
            out.push(
                ObjSetRecord {
                    name: set.name.clone(),
                    id,
                    object_filename: set.object_filename.clone(),
                    texture_filename: set.texture_filename.clone(),
                    archive_filename: set.archive_filename.clone(),
                },
            );
        }
        proof {
            assert(views(out@) =~= obj_set_rows(self@));
        }
        out
    }

    /// The object table of the database.
    pub fn object_records(&self) -> (out: Vec<ObjObjectRecord>)
        ensures
            views(out@) == obj_object_rows(self@),
    {
        let entries = entries_u32(&self.sets);
        let ghost ids = ascending_u32(self.sets@.dom());
        let mut out: Vec<ObjObjectRecord> = Vec::new();
        proof {
            assert(self@.dom() =~= self.sets@.dom());
            assert(views(out@) =~= obj_object_rows_upto(self@, 0));
        }
        for i in 0..entries.len()
            invariant
                ids == ascending_u32(self.sets@.dom()),
                entries@.len() == ids.len(),
                forall|k: int|
                    0 <= k < entries@.len() ==> {
                        &&& (#[trigger] entries@[k]).0 == ids[k]
                        &&& self.sets@.contains_key(entries@[k].0)
                        &&& *entries@[k].1 == self.sets@[entries@[k].0]
                    },
                self@.dom() == self.sets@.dom(),
                views(out@) == obj_object_rows_upto(self@, i as int),
        {
            let (set_id, set) = entries[i];
            let field: u16 = (set_id % 0x1_0000) as u16;
            let objects = entries_u16(&set.objects);
            let ghost done = views(out@);
            let ghost object_ids = ascending_u16(set.objects@.dom());
            let ghost block = obj_object_block(self@[set_id].objects, set_id);
            proof {
                assert(self@[set_id] == set@);
                assert(set@.objects.dom() =~= set.objects@.dom());
                assert(views(out@) =~= done + block.take(0));
            }
            for j in 0..objects.len()
                invariant
                    object_ids == ascending_u16(set.objects@.dom()),
                    objects@.len() == object_ids.len(),
                    forall|k: int|
                        0 <= k < objects@.len() ==> {
                            &&& (#[trigger] objects@[k]).0 == object_ids[k]
                            &&& set.objects@.contains_key(objects@[k].0)
                            &&& *objects@[k].1 == set.objects@[objects@[k].0]
                        },
                    set@.objects.dom() == set.objects@.dom(),
                    block == obj_object_block(set@.objects, set_id),
                    field == obj_parent_field(set_id),
                    views(out@) == done + block.take(j as int),
            {
                let (object_id, name) = objects[j];
                let record = ObjObjectRecord { id: object_id, set_id: field, name: name.clone() };
                proof {
                    assert(set@.objects[object_id] == set.objects@[object_id]@);
                    assert(record@ == block[j as int]);
                    lemma_views_push(out@, record);
                    assert(done + block.take(j + 1) =~= (done + block.take(j as int)).push(
                        block[j as int],
                    ));
                }
                out.push(record);
            }
            proof {
                assert(block.take(objects.len() as int) =~= block);
            }
        }
        out
    }
}

} // verus!
