//! The animation-set database: sets keyed by id, each owning scenes keyed by
//! id.
//!
//! On disk the database is two tables. The set table holds one record per
//! set, with a positional index. The scene table holds one record per scene;
//! a scene names its set by that positional index, in the low 12 bits of a
//! 16-bit field. `AetDb::decode` builds the database from the two tables,
//! `AetDb::set_records` and `AetDb::scene_records` produce them.

use crate::order::{ascending_u32, entries_u32, lemma_ascending_u32};
use crate::table::{lemma_views_push, views};
use std::collections::BTreeMap;
use vstd::prelude::*;

verus! {

/// One scene of an animation set.
#[derive(Debug, Default, Clone, PartialEq, Eq, PartialOrd, Ord, Hash)]
pub struct AetScene {
    pub name: String,
    pub index: u16,
}

/// One animation set and its scenes, keyed by scene id.
#[derive(Debug, Default, Clone, PartialEq, Eq, PartialOrd, Ord, Hash)]
pub struct AetSet {
    pub name: String,
    pub filename: String,
    pub sprite_set_id: u32,
    pub scenes: BTreeMap<u32, AetScene>,
}

/// The animation-set database: sets keyed by set id.
#[derive(Debug, Default, Clone, PartialEq, Eq, PartialOrd, Ord, Hash)]
pub struct AetDb {
    pub sets: BTreeMap<u32, AetSet>,
}

/// What a scene is in contracts.
#[verifier::ext_equal]
pub struct AetSceneView {
    pub name: Seq<char>,
    pub index: u16,
}

/// What a set is in contracts.
#[verifier::ext_equal]
pub struct AetSetView {
    pub name: Seq<char>,
    pub filename: Seq<char>,
    pub sprite_set_id: u32,
    pub scenes: Map<u32, AetSceneView>,
}

impl View for AetScene {
    type V = AetSceneView;

    open spec fn view(&self) -> AetSceneView {
        AetSceneView { name: self.name@, index: self.index }
    }
}

impl View for AetSet {
    type V = AetSetView;

    open spec fn view(&self) -> AetSetView {
        AetSetView {
            name: self.name@,
            filename: self.filename@,
            sprite_set_id: self.sprite_set_id,
            scenes: self.scenes@.map_values(|scene: AetScene| scene@),
        }
    }
}

impl View for AetDb {
    type V = Map<u32, AetSetView>;

    open spec fn view(&self) -> Map<u32, AetSetView> {
        self.sets@.map_values(|set: AetSet| set@)
    }
}

/// One record of the set table, fields in table order.
#[derive(Debug, Default, Clone, PartialEq, Eq, PartialOrd, Ord, Hash)]
pub struct AetSetRecord {
    pub id: u32,
    pub name: String,
    pub filename: String,
    pub index: u32,
    pub sprite_set_id: u32,
}

/// One record of the scene table, fields in table order. The low 12 bits of
/// `set_index` are the positional index of the owning set.
#[derive(Debug, Default, Clone, PartialEq, Eq, PartialOrd, Ord, Hash)]
pub struct AetSceneRecord {
    pub id: u32,
    pub name: String,
    pub index: u16,
    pub set_index: u16,
}

/// What a set record is in contracts.
#[verifier::ext_equal]
pub struct AetSetRow {
    pub id: u32,
    pub name: Seq<char>,
    pub filename: Seq<char>,
    pub index: u32,
    pub sprite_set_id: u32,
}

/// What a scene record is in contracts.
#[verifier::ext_equal]
pub struct AetSceneRow {
    pub id: u32,
    pub name: Seq<char>,
    pub index: u16,
    pub set_index: u16,
}

impl View for AetSetRecord {
    type V = AetSetRow;

    open spec fn view(&self) -> AetSetRow {
        AetSetRow {
            id: self.id,
            name: self.name@,
            filename: self.filename@,
            index: self.index,
            sprite_set_id: self.sprite_set_id,
        }
    }
}

impl View for AetSceneRecord {
    type V = AetSceneRow;

    open spec fn view(&self) -> AetSceneRow {
        AetSceneRow { id: self.id, name: self.name@, index: self.index, set_index: self.set_index }
    }
}

/// The set that a set record stands for, before any scene is attached.
pub open spec fn aet_bare_set(row: AetSetRow) -> AetSetView {
    AetSetView {
        name: row.name,
        filename: row.filename,
        sprite_set_id: row.sprite_set_id,
        scenes: Map::empty(),
    }
}

/// The sets of a set table: each record is inserted under its id, in table
/// order, so of two records with one id the later one stays.
pub open spec fn aet_parents(rows: Seq<AetSetRow>) -> Map<u32, AetSetView>
    decreases rows.len(),
{
    if rows.len() == 0 {
        Map::empty()
    } else {
        aet_parents(rows.drop_last()).insert(rows.last().id, aet_bare_set(rows.last()))
    }
}

/// The side table of a set table, from positional index to set id. Of two
/// records with one positional index the later one stays.
pub open spec fn aet_index_table(rows: Seq<AetSetRow>) -> Map<u32, u32>
    decreases rows.len(),
{
    if rows.len() == 0 {
        Map::empty()
    } else {
        aet_index_table(rows.drop_last()).insert(rows.last().index, rows.last().id)
    }
}

/// The positional index that a scene record's parent field holds.
pub open spec fn aet_parent_index(set_index: u16) -> u32 {
    (set_index & 0x0FFF) as u32
}

/// The database after one more scene record: the scene is inserted into the
/// set that its parent field resolves to, and dropped where it resolves to
/// none.
pub open spec fn aet_attach(
    sets: Map<u32, AetSetView>,
    table: Map<u32, u32>,
    row: AetSceneRow,
) -> Map<u32, AetSetView> {
    let index = aet_parent_index(row.set_index);
    if table.contains_key(index) && sets.contains_key(table[index]) {
        let owner = sets[table[index]];
        sets.insert(
            table[index],
            AetSetView {
                scenes: owner.scenes.insert(
                    row.id,
                    AetSceneView { name: row.name, index: row.index },
                ),
                ..owner
            },
        )
    } else {
        sets
    }
}

/// The database after all scene records of `rows`, attached in table order.
pub open spec fn aet_attach_all(
    sets: Map<u32, AetSetView>,
    table: Map<u32, u32>,
    rows: Seq<AetSceneRow>,
) -> Map<u32, AetSetView>
    decreases rows.len(),
{
    if rows.len() == 0 {
        sets
    } else {
        aet_attach(aet_attach_all(sets, table, rows.drop_last()), table, rows.last())
    }
}

/// The database that a set table and a scene table stand for.
pub open spec fn aet_decode(sets: Seq<AetSetRow>, scenes: Seq<AetSceneRow>) -> Map<
    u32,
    AetSetView,
> {
    aet_attach_all(aet_parents(sets), aet_index_table(sets), scenes)
}

/// The set record of the set with id `id`, which has rank `rank` among the
/// ids of the database.
pub open spec fn aet_set_row(db: Map<u32, AetSetView>, id: u32, rank: int) -> AetSetRow {
    AetSetRow {
        id,
        name: db[id].name,
        filename: db[id].filename,
        index: rank as u32,
        sprite_set_id: db[id].sprite_set_id,
    }
}

/// The set table of a database: one record per set, in ascending id order,
/// each with its rank as positional index.
pub open spec fn aet_set_rows(db: Map<u32, AetSetView>) -> Seq<AetSetRow> {
    let ids = ascending_u32(db.dom());
    Seq::new(ids.len(), |i: int| aet_set_row(db, ids[i], i))
}

/// The database with the scenes of every set taken out.
pub open spec fn aet_stripped(db: Map<u32, AetSetView>) -> Map<u32, AetSetView> {
    Map::new(
        |id: u32| db.contains_key(id),
        |id: u32| AetSetView { scenes: Map::empty(), ..db[id] },
    )
}

/// The parent field of the scenes of the set of rank `rank`: the rank in 16
/// bits.
pub open spec fn aet_parent_field(rank: int) -> u16 {
    (rank % 0x1_0000) as u16
}

/// The scene records of one set, in ascending scene id order, each naming
/// the set by `rank`.
pub open spec fn aet_scene_block(scenes: Map<u32, AetSceneView>, rank: int) -> Seq<AetSceneRow> {
    let ids = ascending_u32(scenes.dom());
    Seq::new(
        ids.len(),
        |j: int|
            AetSceneRow {
                id: ids[j],
                name: scenes[ids[j]].name,
                index: scenes[ids[j]].index,
                set_index: aet_parent_field(rank),
            },
    )
}

/// The scene records of the first `n` sets in ascending id order, set by
/// set.
pub open spec fn aet_scene_rows_upto(db: Map<u32, AetSetView>, n: int) -> Seq<AetSceneRow>
    decreases n,
{
    if n <= 0 {
        Seq::empty()
    } else {
        aet_scene_rows_upto(db, n - 1) + aet_scene_block(
            db[ascending_u32(db.dom())[n - 1]].scenes,
            n - 1,
        )
    }
}

/// The scene table of a database: the scenes of all sets, grouped by set in
/// ascending set id order, and in ascending scene id order within a set.
pub open spec fn aet_scene_rows(db: Map<u32, AetSetView>) -> Seq<AetSceneRow> {
    aet_scene_rows_upto(db, ascending_u32(db.dom()).len() as int)
}

impl AetDb {
    /// Builds the database from its two tables. Every set record becomes a
    /// set; every scene record whose parent field resolves to a set becomes a
    /// scene of that set; the others are dropped.
    pub fn decode(sets: &Vec<AetSetRecord>, scenes: &Vec<AetSceneRecord>) -> (db: AetDb)
        ensures
            db@ == aet_decode(views(sets@), views(scenes@)),
    {
        let mut map: BTreeMap<u32, AetSet> = BTreeMap::new();
        let mut table: BTreeMap<u32, u32> = BTreeMap::new();
        let ghost set_rows = views(sets@);
        let ghost scene_rows = views(scenes@);
        proof {
            assert(map@.map_values(|set: AetSet| set@) =~= aet_parents(set_rows.take(0)));
            assert(table@ =~= aet_index_table(set_rows.take(0)));
        }
        for i in 0..sets.len()
            invariant
                set_rows == views(sets@),
                map@.map_values(|set: AetSet| set@) == aet_parents(set_rows.take(i as int)),
                table@ == aet_index_table(set_rows.take(i as int)),
        {
            let record = &sets[i];
            let set = AetSet {
                name: record.name.clone(),
                filename: record.filename.clone(),
                sprite_set_id: record.sprite_set_id,
                scenes: BTreeMap::new(),
            };
            proof {
                assert(set_rows.take(i + 1).drop_last() =~= set_rows.take(i as int));
                assert(set_rows.take(i + 1).last() == record@);
                assert(set@.scenes =~= Map::empty());
                assert(set@ == aet_bare_set(record@));
                assert(map@.insert(record.id, set).map_values(|set: AetSet| set@)
                    =~= map@.map_values(|set: AetSet| set@).insert(record.id, set@));
            }
            map.insert(record.id, set);
            table.insert(record.index, record.id);
        }
        proof {
            assert(set_rows.take(sets.len() as int) =~= set_rows);
            assert(scene_rows.take(0) =~= Seq::empty());
        }
        for j in 0..scenes.len()
            invariant
                scene_rows == views(scenes@),
                table@ == aet_index_table(set_rows),
                map@.map_values(|set: AetSet| set@) == aet_attach_all(
                    aet_parents(set_rows),
                    table@,
                    scene_rows.take(j as int),
                ),
        {
            let record = &scenes[j];
            let index: u32 = (record.set_index & 0x0FFF) as u32;
            let ghost before = map@.map_values(|set: AetSet| set@);
            proof {
                assert(scene_rows.take(j + 1).drop_last() =~= scene_rows.take(j as int));
                assert(scene_rows.take(j + 1).last() == record@);
            }
            match table.get(&index) {
                Some(set_id) => {
                    let set_id: u32 = *set_id;
                    match map.remove(&set_id) {
                        Some(set) => {
                            let mut set = set;
                            let ghost owner = set@;
                            let scene = AetScene { name: record.name.clone(), index: record.index };
                            proof {
                                assert(set.scenes@.insert(record.id, scene).map_values(
                                    |scene: AetScene| scene@,
                                ) =~= owner.scenes.insert(record.id, scene@));
                            }
                            set.scenes.insert(record.id, scene);
                            proof {
                                assert(map@.insert(set_id, set).map_values(|set: AetSet| set@)
                                    =~= before.insert(set_id, set@));
                            }
                            map.insert(set_id, set);
                        },
                        None => {},
                    }
                },
                None => {},
            }
        }
        proof {
            assert(scene_rows.take(scenes.len() as int) =~= scene_rows);
        }
        AetDb { sets: map }
    }

    /// The set table of the database.
    pub fn set_records(&self) -> (out: Vec<AetSetRecord>)
        ensures
            views(out@) == aet_set_rows(self@),
    {
        let entries = entries_u32(&self.sets);
        let ghost ids = ascending_u32(self.sets@.dom());
        let mut out: Vec<AetSetRecord> = Vec::new();
        proof {
            lemma_ascending_u32(self.sets@.dom());
            assert(self@.dom() =~= self.sets@.dom());
        }
        for i in 0..entries.len()
            invariant
                ids == ascending_u32(self.sets@.dom()),
                ids.len() <= 0x1_0000_0000,
                entries@.len() == ids.len(),
                forall|k: int|
                    0 <= k < entries@.len() ==> {
                        &&& (#[trigger] entries@[k]).0 == ids[k]
                        &&& self.sets@.contains_key(entries@[k].0)
                        &&& *entries@[k].1 == self.sets@[entries@[k].0]
                    },
                self@.dom() == self.sets@.dom(),
                out@.len() == i,
                forall|k: int|
                    0 <= k < i ==> (#[trigger] out@[k])@ == aet_set_row(self@, ids[k], k),
        {
            let (id, set) = entries[i];
            out.push(
                AetSetRecord {
                    id,
                    name: set.name.clone(),
                    filename: set.filename.clone(),
                    index: i as u32,
                    sprite_set_id: set.sprite_set_id,
                },
            );
        }
        proof {
            assert(views(out@) =~= aet_set_rows(self@));
        }
        out
    }

    /// The scene table of the database.
    pub fn scene_records(&self) -> (out: Vec<AetSceneRecord>)
        ensures
            views(out@) == aet_scene_rows(self@),
    {
        let entries = entries_u32(&self.sets);
        let ghost ids = ascending_u32(self.sets@.dom());
        let mut out: Vec<AetSceneRecord> = Vec::new();
        proof {
            assert(self@.dom() =~= self.sets@.dom());
            assert(views(out@) =~= aet_scene_rows_upto(self@, 0));
        }
        for i in 0..entries.len()
            invariant
                ids == ascending_u32(self.sets@.dom()),
                entries@.len() == ids.len(),
                forall|k: int|
                    0 <= k < entries@.len() ==> {
                        &&& (#[trigger] entries@[k]).0 == ids[k]
                        &&& self.sets@.contains_key(entries@[k].0)
                        &&& *entries@[k].1 == self.sets@[entries@[k].0]
                    },
                self@.dom() == self.sets@.dom(),
                views(out@) == aet_scene_rows_upto(self@, i as int),
        {
            let (id, set) = entries[i];
            let field: u16 = (i % 0x1_0000) as u16;
            let scenes = entries_u32(&set.scenes);
            let ghost done = views(out@);
            let ghost scene_ids = ascending_u32(set.scenes@.dom());
            let ghost block = aet_scene_block(self@[id].scenes, i as int);
            proof {
                assert(self@[id] == set@);
                assert(set@.scenes.dom() =~= set.scenes@.dom());
                assert(views(out@) =~= done + block.take(0));
            }
            for j in 0..scenes.len()
                invariant
                    scene_ids == ascending_u32(set.scenes@.dom()),
                    scenes@.len() == scene_ids.len(),
                    forall|k: int|
                        0 <= k < scenes@.len() ==> {
                            &&& (#[trigger] scenes@[k]).0 == scene_ids[k]
                            &&& set.scenes@.contains_key(scenes@[k].0)
                            &&& *scenes@[k].1 == set.scenes@[scenes@[k].0]
                        },
                    set@.scenes.dom() == set.scenes@.dom(),
                    block == aet_scene_block(set@.scenes, i as int),
                    field == aet_parent_field(i as int),
                    views(out@) == done + block.take(j as int),
            {
                let (scene_id, scene) = scenes[j];
                let record = AetSceneRecord {
                    id: scene_id,
                    name: scene.name.clone(),
                    index: scene.index,
                    set_index: field,
                };
                proof {
                    assert(set@.scenes[scene_id] == set.scenes@[scene_id]@);
                    assert(record@ == block[j as int]);
                    lemma_views_push(out@, record);
                    assert(done + block.take(j + 1) =~= (done + block.take(j as int)).push(
                        block[j as int],
                    ));
                }
                out.push(record);
            }
            proof {
                assert(block.take(scenes.len() as int) =~= block);
            }
        }
        out
    }
}

} // verus!
