//! The sprite database: sets keyed by id, each owning two collections keyed
//! by id, its sprites and its textures.
//!
//! On disk the database is two tables. The set table holds one record per
//! set, with a positional index. The entry table holds sprites and textures
//! alike; a 16-bit field of each record packs the positional index of the
//! owning set (bits 0 to 11) with the bit that tells a texture from a sprite
//! (bit 12). In the database that bit is not kept: it is which of the two
//! collections holds the entry.

use crate::order::{ascending_u32, entries_u32, lemma_ascending_u32};
use crate::table::{lemma_views_push, views};
use std::collections::BTreeMap;
use vstd::prelude::*;

verus! {

/// One sprite or texture of a set.
#[derive(Debug, Default, Clone, PartialEq, Eq, PartialOrd, Ord, Hash)]
pub struct SprEntry {
    pub index: u16,
    pub name: String,
}

/// One sprite set: its sprites and its textures, each keyed by entry id.
#[derive(Debug, Default, Clone, PartialEq, Eq, PartialOrd, Ord, Hash)]
pub struct SprSet {
    pub name: String,
    pub filename: String,
    pub sprites: BTreeMap<u32, SprEntry>,
    pub textures: BTreeMap<u32, SprEntry>,
}

/// The sprite database: sets keyed by set id.
#[derive(Debug, Default, Clone, PartialEq, Eq, PartialOrd, Ord, Hash)]
pub struct SprDb {
    pub sets: BTreeMap<u32, SprSet>,
}

/// What an entry is in contracts.
#[verifier::ext_equal]
pub struct SprEntryView {
    pub index: u16,
    pub name: Seq<char>,
}

/// What a set is in contracts.
#[verifier::ext_equal]
pub struct SprSetView {
    pub name: Seq<char>,
    pub filename: Seq<char>,
    pub sprites: Map<u32, SprEntryView>,
    pub textures: Map<u32, SprEntryView>,
}

impl View for SprEntry {
    type V = SprEntryView;

    open spec fn view(&self) -> SprEntryView {
        SprEntryView { index: self.index, name: self.name@ }
    }
}

impl View for SprSet {
    type V = SprSetView;

    open spec fn view(&self) -> SprSetView {
        SprSetView {
            name: self.name@,
            filename: self.filename@,
            sprites: self.sprites@.map_values(|entry: SprEntry| entry@),
            textures: self.textures@.map_values(|entry: SprEntry| entry@),
        }
    }
}

impl View for SprDb {
    type V = Map<u32, SprSetView>;

    open spec fn view(&self) -> Map<u32, SprSetView> {
        self.sets@.map_values(|set: SprSet| set@)
    }
}

/// One record of the set table, fields in table order.
#[derive(Debug, Default, Clone, PartialEq, Eq, PartialOrd, Ord, Hash)]
pub struct SprSetRecord {
    pub id: u32,
    pub name: String,
    pub filename: String,
    pub index: u32,
}

/// One record of the entry table, fields in table order. `set_index` packs
/// the positional index of the owning set with the texture bit.
#[derive(Debug, Default, Clone, PartialEq, Eq, PartialOrd, Ord, Hash)]
pub struct SprEntryRecord {
    pub id: u32,
    pub name: String,
    pub index: u16,
    pub set_index: u16,
}

/// What a set record is in contracts.
#[verifier::ext_equal]
pub struct SprSetRow {
    pub id: u32,
    pub name: Seq<char>,
    pub filename: Seq<char>,
    pub index: u32,
}

/// What an entry record is in contracts.
#[verifier::ext_equal]
pub struct SprEntryRow {
    pub id: u32,
    pub name: Seq<char>,
    pub index: u16,
    pub set_index: u16,
}

impl View for SprSetRecord {
    type V = SprSetRow;

    open spec fn view(&self) -> SprSetRow {
        SprSetRow { id: self.id, name: self.name@, filename: self.filename@, index: self.index }
    }
}

impl View for SprEntryRecord {
    type V = SprEntryRow;

    open spec fn view(&self) -> SprEntryRow {
        SprEntryRow { id: self.id, name: self.name@, index: self.index, set_index: self.set_index }
    }
}

/// The positional index that a packed parent field holds: its bits 0 to 11.
pub open spec fn spr_parent_index(set_index: u16) -> u32 {
    (set_index & 0x0FFF) as u32
}

/// Whether a packed parent field marks a texture: its bit 12.
pub open spec fn spr_is_texture(set_index: u16) -> bool {
    set_index & 0x1000 == 0x1000
}

/// The packed parent field of an entry of the set of rank `rank`: the low 12
/// bits of the rank, bit 12 set for a texture and clear for a sprite, bits
/// 13 to 15 zero.
pub open spec fn spr_parent_field(rank: int, texture: bool) -> u16 {
    if texture {
        ((rank % 0x1000) as u16) | 0x1000
    } else {
        (rank % 0x1000) as u16
    }
}

/// Splits a packed parent field into the positional index of the owning set
/// and the texture bit.
pub fn unpack_parent(set_index: u16) -> (out: (u32, bool))
    ensures
        out.0 == spr_parent_index(set_index),
        out.1 == spr_is_texture(set_index),
{
    ((set_index & 0x0FFF) as u32, set_index & 0x1000 == 0x1000)
}

/// Packs the rank of the owning set and the texture bit into a parent field.
pub fn pack_parent(rank: usize, texture: bool) -> (set_index: u16)
    ensures
        set_index == spr_parent_field(rank as int, texture),
{
    let low: u16 = (rank % 0x1000) as u16;
    if texture {
        low | 0x1000
    } else {
        low
    }
}

/// The set that a set record stands for, before any entry is attached.
pub open spec fn spr_bare_set(row: SprSetRow) -> SprSetView {
    SprSetView {
        name: row.name,
        filename: row.filename,
        sprites: Map::empty(),
        textures: Map::empty(),
    }
}

/// The sets of a set table: each record is inserted under its id, in table
/// order, so of two records with one id the later one stays.
pub open spec fn spr_parents(rows: Seq<SprSetRow>) -> Map<u32, SprSetView>
    decreases rows.len(),
{
    if rows.len() == 0 {
        Map::empty()
    } else {
        spr_parents(rows.drop_last()).insert(rows.last().id, spr_bare_set(rows.last()))
    }
}

/// The side table of a set table, from positional index to set id. Of two
/// records with one positional index the later one stays.
pub open spec fn spr_index_table(rows: Seq<SprSetRow>) -> Map<u32, u32>
    decreases rows.len(),
{
    if rows.len() == 0 {
        Map::empty()
    } else {
        spr_index_table(rows.drop_last()).insert(rows.last().index, rows.last().id)
    }
}

/// The set `owner` with one more entry: among its textures where `texture`
/// holds, among its sprites where not.
pub open spec fn spr_with_entry(
    owner: SprSetView,
    texture: bool,
    id: u32,
    entry: SprEntryView,
) -> SprSetView {
    if texture {
        SprSetView { textures: owner.textures.insert(id, entry), ..owner }
    } else {
        SprSetView { sprites: owner.sprites.insert(id, entry), ..owner }
    }
}

/// The database after one more entry record: the entry is inserted into the
/// set that its parent field resolves to, into the collection that its
/// texture bit names, and dropped where the field resolves to no set.
pub open spec fn spr_attach(
    sets: Map<u32, SprSetView>,
    table: Map<u32, u32>,
    row: SprEntryRow,
) -> Map<u32, SprSetView> {
    let index = spr_parent_index(row.set_index);
    if table.contains_key(index) && sets.contains_key(table[index]) {
        sets.insert(
            table[index],
            spr_with_entry(
                sets[table[index]],
                spr_is_texture(row.set_index),
                row.id,
                SprEntryView { index: row.index, name: row.name },
            ),
        )
    } else {
        sets
    }
}

/// The database after all entry records of `rows`, attached in table order.
pub open spec fn spr_attach_all(
    sets: Map<u32, SprSetView>,
    table: Map<u32, u32>,
    rows: Seq<SprEntryRow>,
) -> Map<u32, SprSetView>
    decreases rows.len(),
{
    if rows.len() == 0 {
        sets
    } else {
        spr_attach(spr_attach_all(sets, table, rows.drop_last()), table, rows.last())
    }
}

/// The database that a set table and an entry table stand for.
pub open spec fn spr_decode(sets: Seq<SprSetRow>, entries: Seq<SprEntryRow>) -> Map<
    u32,
    SprSetView,
> {
    spr_attach_all(spr_parents(sets), spr_index_table(sets), entries)
}

/// The set record of the set with id `id`, which has rank `rank` among the
/// ids of the database.
pub open spec fn spr_set_row(db: Map<u32, SprSetView>, id: u32, rank: int) -> SprSetRow {
    SprSetRow { id, name: db[id].name, filename: db[id].filename, index: rank as u32 }
}

/// The set table of a database: one record per set, in ascending id order,
/// each with its rank as positional index.
pub open spec fn spr_set_rows(db: Map<u32, SprSetView>) -> Seq<SprSetRow> {
    let ids = ascending_u32(db.dom());
    Seq::new(ids.len(), |i: int| spr_set_row(db, ids[i], i))
}

/// The database with the sprites and textures of every set taken out.
pub open spec fn spr_stripped(db: Map<u32, SprSetView>) -> Map<u32, SprSetView> {
    Map::new(
        |id: u32| db.contains_key(id),
        |id: u32| SprSetView { sprites: Map::empty(), textures: Map::empty(), ..db[id] },
    )
}

/// The records of one collection of one set, in ascending entry id order,
/// each naming the set by `rank` and the collection by the texture bit.
pub open spec fn spr_entry_block(entries: Map<u32, SprEntryView>, rank: int, texture: bool) -> Seq<
    SprEntryRow,
> {
    let ids = ascending_u32(entries.dom());
    Seq::new(
        ids.len(),
        |j: int|
            SprEntryRow {
                id: ids[j],
                name: entries[ids[j]].name,
                index: entries[ids[j]].index,
                set_index: spr_parent_field(rank, texture),
            },
    )
}

/// The entry records of the first `n` sets in ascending id order: for each
/// set its sprites, then its textures.
pub open spec fn spr_entry_rows_upto(db: Map<u32, SprSetView>, n: int) -> Seq<SprEntryRow>
    decreases n,
{
    if n <= 0 {
        Seq::empty()
    } else {
        let set = db[ascending_u32(db.dom())[n - 1]];
        spr_entry_rows_upto(db, n - 1) + spr_entry_block(set.sprites, n - 1, false)
            + spr_entry_block(set.textures, n - 1, true)
    }
}

/// The entry table of a database: for each set in ascending set id order,
/// its sprites in ascending id order with the texture bit clear, then its
/// textures in ascending id order with the texture bit set.
pub open spec fn spr_entry_rows(db: Map<u32, SprSetView>) -> Seq<SprEntryRow> {
    spr_entry_rows_upto(db, ascending_u32(db.dom()).len() as int)
}

/// Appends to `out` the records of one collection of the set of rank `rank`.
fn push_block(
    out: &mut Vec<SprEntryRecord>,
    collection: &BTreeMap<u32, SprEntry>,
    rank: usize,
    texture: bool,
)
    ensures
        views(final(out)@) == views(old(out)@) + spr_entry_block(
            collection@.map_values(|entry: SprEntry| entry@),
            rank as int,
            texture,
        ),
{
    let entries = entries_u32(collection);
    let field = pack_parent(rank, texture);
    let ghost model = collection@.map_values(|entry: SprEntry| entry@);
    let ghost ids = ascending_u32(collection@.dom());
    let ghost block = spr_entry_block(model, rank as int, texture);
    let ghost done = views(out@);
    proof {
        assert(model.dom() =~= collection@.dom());
        assert(views(out@) =~= done + block.take(0));
    }
    for j in 0..entries.len()
        invariant
            ids == ascending_u32(collection@.dom()),
            entries@.len() == ids.len(),
            forall|k: int|
                0 <= k < entries@.len() ==> {
                    &&& (#[trigger] entries@[k]).0 == ids[k]
                    &&& collection@.contains_key(entries@[k].0)
                    &&& *entries@[k].1 == collection@[entries@[k].0]
                },
            model == collection@.map_values(|entry: SprEntry| entry@),
            model.dom() == collection@.dom(),
            block == spr_entry_block(model, rank as int, texture),
            field == spr_parent_field(rank as int, texture),
            views(out@) == done + block.take(j as int),
    {
        let (id, entry) = entries[j];
        let record = SprEntryRecord {
            id,
            name: entry.name.clone(),
            index: entry.index,
            set_index: field,
        };
        proof {
            assert(model[id] == collection@[id]@);
            assert(record@ == block[j as int]);
            lemma_views_push(out@, record);
            assert(done + block.take(j + 1) =~= (done + block.take(j as int)).push(
                block[j as int],
            ));
        }
        out.push(record);
    }
    proof {
        assert(block.take(entries.len() as int) =~= block);
    }
}

impl SprDb {
    /// Builds the database from its two tables. Every set record becomes a
    /// set; every entry record whose parent field resolves to a set becomes
    /// a texture of that set where its texture bit is set and a sprite of it
    /// where not; the others are dropped.
    pub fn decode(sets: &Vec<SprSetRecord>, entries: &Vec<SprEntryRecord>) -> (db: SprDb)
        ensures
            db@ == spr_decode(views(sets@), views(entries@)),
    {
        let mut map: BTreeMap<u32, SprSet> = BTreeMap::new();
        let mut table: BTreeMap<u32, u32> = BTreeMap::new();
        let ghost set_rows = views(sets@);
        let ghost entry_rows = views(entries@);
        proof {
            assert(map@.map_values(|set: SprSet| set@) =~= spr_parents(set_rows.take(0)));
            assert(table@ =~= spr_index_table(set_rows.take(0)));
        }
        for i in 0..sets.len()
            invariant
                set_rows == views(sets@),
                map@.map_values(|set: SprSet| set@) == spr_parents(set_rows.take(i as int)),
                table@ == spr_index_table(set_rows.take(i as int)),
        {
            let record = &sets[i];
            let set = SprSet {
                name: record.name.clone(),
                filename: record.filename.clone(),
                sprites: BTreeMap::new(),
                textures: BTreeMap::new(),
            };
            proof {
                assert(set_rows.take(i + 1).drop_last() =~= set_rows.take(i as int));
                assert(set_rows.take(i + 1).last() == record@);
                assert(set@.sprites =~= Map::empty());
                assert(set@.textures =~= Map::empty());
                assert(set@ == spr_bare_set(record@));
                assert(map@.insert(record.id, set).map_values(|set: SprSet| set@)
                    =~= map@.map_values(|set: SprSet| set@).insert(record.id, set@));
            }
            map.insert(record.id, set);
            table.insert(record.index, record.id);
        }
        proof {
            assert(set_rows.take(sets.len() as int) =~= set_rows);
            assert(entry_rows.take(0) =~= Seq::empty());
        }
        for j in 0..entries.len()
            invariant
                entry_rows == views(entries@),
                table@ == spr_index_table(set_rows),
                map@.map_values(|set: SprSet| set@) == spr_attach_all(
                    spr_parents(set_rows),
                    table@,
                    entry_rows.take(j as int),
                ),
        {
            let record = &entries[j];
            let (index, texture) = unpack_parent(record.set_index);
            let ghost before = map@.map_values(|set: SprSet| set@);
            proof {
                assert(entry_rows.take(j + 1).drop_last() =~= entry_rows.take(j as int));
                assert(entry_rows.take(j + 1).last() == record@);
            }
            match table.get(&index) {
                Some(set_id) => {
                    let set_id: u32 = *set_id;
                    match map.remove(&set_id) {
                        Some(set) => {
                            let mut set = set;
                            let ghost owner = set@;
                            let entry = SprEntry { index: record.index, name: record.name.clone() };
                            if texture {
                                proof {
                                    assert(set.textures@.insert(record.id, entry).map_values(
                                        |entry: SprEntry| entry@,
                                    ) =~= owner.textures.insert(record.id, entry@));
                                }
                                set.textures.insert(record.id, entry);
                            } else {
                                proof {
                                    assert(set.sprites@.insert(record.id, entry).map_values(
                                        |entry: SprEntry| entry@,
                                    ) =~= owner.sprites.insert(record.id, entry@));
                                }
                                set.sprites.insert(record.id, entry);
                            }
                            proof {
                                assert(map@.insert(set_id, set).map_values(|set: SprSet| set@)
                                    =~= before.insert(set_id, set@));
                            }
                            map.insert(set_id, set);
                        },
                        None => {},
                    }
                },
                None => {},
            }
        }
        proof {
            assert(entry_rows.take(entries.len() as int) =~= entry_rows);
        }
        SprDb { sets: map }
    }

    /// The set table of the database.
    pub fn set_records(&self) -> (out: Vec<SprSetRecord>)
        ensures
            views(out@) == spr_set_rows(self@),
    {
        let entries = entries_u32(&self.sets);
        let ghost ids = ascending_u32(self.sets@.dom());
        let mut out: Vec<SprSetRecord> = Vec::new();
        proof {
            lemma_ascending_u32(self.sets@.dom());
            assert(self@.dom() =~= self.sets@.dom());
        }
        for i in 0..entries.len()
            invariant
                ids == ascending_u32(self.sets@.dom()),
                ids.len() <= 0x1_0000_0000,
                entries@.len() == ids.len(),
                forall|k: int|
                    0 <= k < entries@.len() ==> {
                        &&& (#[trigger] entries@[k]).0 == ids[k]
                        &&& self.sets@.contains_key(entries@[k].0)
                        &&& *entries@[k].1 == self.sets@[entries@[k].0]
                    },
                self@.dom() == self.sets@.dom(),
                out@.len() == i,
                forall|k: int|
                    0 <= k < i ==> (#[trigger] out@[k])@ == spr_set_row(self@, ids[k], k),
        {
            let (id, set) = entries[i];
            out.push(
                SprSetRecord {
                    id,
                    name: set.name.clone(),
                    filename: set.filename.clone(),
                    index: i as u32,
                },
            );
        }
        proof {
            assert(views(out@) =~= spr_set_rows(self@));
        }
        out
    }

    /// The entry table of the database.
    pub fn entry_records(&self) -> (out: Vec<SprEntryRecord>)
        ensures
            views(out@) == spr_entry_rows(self@),
    {
        let entries = entries_u32(&self.sets);
        let ghost ids = ascending_u32(self.sets@.dom());
        let mut out: Vec<SprEntryRecord> = Vec::new();
        proof {
            assert(self@.dom() =~= self.sets@.dom());
            assert(views(out@) =~= spr_entry_rows_upto(self@, 0));
        }
        for i in 0..entries.len()
            invariant
                ids == ascending_u32(self.sets@.dom()),
                entries@.len() == ids.len(),
                forall|k: int|
                    0 <= k < entries@.len() ==> {
                        &&& (#[trigger] entries@[k]).0 == ids[k]
                        &&& self.sets@.contains_key(entries@[k].0)
                        &&& *entries@[k].1 == self.sets@[entries@[k].0]
                    },
                self@.dom() == self.sets@.dom(),
                views(out@) == spr_entry_rows_upto(self@, i as int),
        {
            let (id, set) = entries[i];
            proof {
                assert(self@[id] == set@);
            }
            push_block(&mut out, &set.sprites, i, false);
            push_block(&mut out, &set.textures, i, true);
        }
        out
    }
}

} // verus!
