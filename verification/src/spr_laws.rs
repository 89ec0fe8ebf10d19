//! What holds of the sprite codec: which sets a pair of tables decodes to,
//! that unresolved entries leave no trace, that the positional indices of a
//! file are arbitrary, that the texture bit and the two collections of a set
//! determine each other, and that encoding then decoding gives the database
//! back.

use crate::layout::{field_rows, lemma_parse_field_rows};
use crate::order::{ascending_u32, lemma_ascending_u32};
use crate::spr_layout::spr_from_rows;
use crate::spr::{
    spr_attach, spr_attach_all, spr_bare_set, spr_decode, spr_entry_block, spr_entry_rows,
    spr_entry_rows_upto, spr_index_table, spr_is_texture, spr_parent_field, spr_parent_index,
    spr_parents, spr_set_rows, spr_stripped, SprEntryRecord, SprEntryRow, SprEntryView,
    SprSetRecord, SprSetRow, SprSetView,
};
use vstd::prelude::*;

verus! {

/// Attaching entries never adds or removes a set, and changes nothing of a
/// set but its sprites and textures.
pub proof fn lemma_spr_attach_all_dom(
    sets: Map<u32, SprSetView>,
    table: Map<u32, u32>,
    rows: Seq<SprEntryRow>,
)
    ensures
        spr_attach_all(sets, table, rows).dom() == sets.dom(),
        forall|id: u32| #[trigger]
            sets.contains_key(id) ==> {
                &&& spr_attach_all(sets, table, rows)[id].name == sets[id].name
                &&& spr_attach_all(sets, table, rows)[id].filename == sets[id].filename
            },
    decreases rows.len(),
{
    if rows.len() > 0 {
        lemma_spr_attach_all_dom(sets, table, rows.drop_last());
        let prev = spr_attach_all(sets, table, rows.drop_last());
        assert(spr_attach(prev, table, rows.last()).dom() =~= prev.dom());
        assert forall|id: u32| #[trigger] sets.contains_key(id) implies {
            &&& spr_attach_all(sets, table, rows)[id].name == sets[id].name
            &&& spr_attach_all(sets, table, rows)[id].filename == sets[id].filename
        } by {
            assert(prev.contains_key(id));
        }
    }
}

/// Attaching two runs of entry records one after the other is attaching
/// their concatenation.
pub proof fn lemma_spr_attach_all_concat(
    sets: Map<u32, SprSetView>,
    table: Map<u32, u32>,
    first: Seq<SprEntryRow>,
    second: Seq<SprEntryRow>,
)
    ensures
        spr_attach_all(sets, table, first + second) == spr_attach_all(
            spr_attach_all(sets, table, first),
            table,
            second,
        ),
    decreases second.len(),
{
    if second.len() == 0 {
        assert(first + second =~= first);
    } else {
        lemma_spr_attach_all_concat(sets, table, first, second.drop_last());
        assert((first + second).drop_last() =~= first + second.drop_last());
        assert((first + second).last() == second.last());
    }
}

/// The sets of a decoded database are exactly the ids of the set table, and
/// a set has the fields of the last record with its id.
pub proof fn lemma_spr_parents(rows: Seq<SprSetRow>)
    ensures
        forall|id: u32|
            spr_parents(rows).contains_key(id) <==> exists|i: int|
                0 <= i < rows.len() && (#[trigger] rows[i]).id == id,
        forall|i: int|
            0 <= i < rows.len() && (forall|j: int|
                i < j < rows.len() ==> (#[trigger] rows[j]).id != rows[i].id)
                ==> spr_parents(rows)[(#[trigger] rows[i]).id] == spr_bare_set(rows[i]),
    decreases rows.len(),
{
    if rows.len() > 0 {
        let front = rows.drop_last();
        lemma_spr_parents(front);
        assert forall|id: u32|
            spr_parents(rows).contains_key(id) <==> exists|i: int|
                0 <= i < rows.len() && (#[trigger] rows[i]).id == id by {
            if spr_parents(rows).contains_key(id) {
                if id == rows.last().id {
                    assert(rows[rows.len() - 1].id == id);
                } else {
                    assert(spr_parents(front).contains_key(id));
                    let i = choose|i: int| 0 <= i < front.len() && (#[trigger] front[i]).id == id;
                    assert(rows[i] == front[i]);
                }
            }
            if exists|i: int| 0 <= i < rows.len() && (#[trigger] rows[i]).id == id {
                let i = choose|i: int| 0 <= i < rows.len() && (#[trigger] rows[i]).id == id;
                if i < front.len() {
                    assert(front[i].id == id);
                    assert(spr_parents(front).contains_key(id));
                }
            }
        }
        assert forall|i: int|
            0 <= i < rows.len() && (forall|j: int|
                i < j < rows.len() ==> (#[trigger] rows[j]).id
                    != rows[i].id) implies spr_parents(rows)[(#[trigger] rows[i]).id]
            == spr_bare_set(rows[i]) by {
            if i < front.len() {
                assert(rows[rows.len() - 1].id != rows[i].id);
                assert(front[i] == rows[i]);
                assert forall|j: int| i < j < front.len() implies (#[trigger] front[j]).id
                    != front[i].id by {
                    assert(rows[j].id != rows[i].id);
                }
            }
        }
    }
}

/// The positional indices of the side table are exactly those of the set
/// table, each of them names a set of the table, and an index names the set
/// of the last record that holds it.
pub proof fn lemma_spr_index_table(rows: Seq<SprSetRow>)
    ensures
        forall|index: u32|
            spr_index_table(rows).contains_key(index) <==> exists|i: int|
                0 <= i < rows.len() && (#[trigger] rows[i]).index == index,
        forall|index: u32| #[trigger]
            spr_index_table(rows).contains_key(index) ==> spr_parents(rows).contains_key(
                spr_index_table(rows)[index],
            ),
        forall|i: int|
            0 <= i < rows.len() && (forall|j: int|
                i < j < rows.len() ==> (#[trigger] rows[j]).index != rows[i].index)
                ==> spr_index_table(rows)[(#[trigger] rows[i]).index] == rows[i].id,
    decreases rows.len(),
{
    if rows.len() > 0 {
        let front = rows.drop_last();
        lemma_spr_index_table(front);
        assert forall|index: u32|
            spr_index_table(rows).contains_key(index) <==> exists|i: int|
                0 <= i < rows.len() && (#[trigger] rows[i]).index == index by {
            if spr_index_table(rows).contains_key(index) {
                if index == rows.last().index {
                    assert(rows[rows.len() - 1].index == index);
                } else {
                    assert(spr_index_table(front).contains_key(index));
                    let i = choose|i: int|
                        0 <= i < front.len() && (#[trigger] front[i]).index == index;
                    assert(rows[i] == front[i]);
                }
            }
            if exists|i: int| 0 <= i < rows.len() && (#[trigger] rows[i]).index == index {
                let i = choose|i: int| 0 <= i < rows.len() && (#[trigger] rows[i]).index == index;
                if i < front.len() {
                    assert(front[i].index == index);
                    assert(spr_index_table(front).contains_key(index));
                }
            }
        }
        assert forall|index: u32| #[trigger]
            spr_index_table(rows).contains_key(index) implies spr_parents(rows).contains_key(
            spr_index_table(rows)[index],
        ) by {
            if index != rows.last().index {
                assert(spr_index_table(front).contains_key(index));
            }
        }
        assert forall|i: int|
            0 <= i < rows.len() && (forall|j: int|
                i < j < rows.len() ==> (#[trigger] rows[j]).index
                    != rows[i].index) implies spr_index_table(rows)[(#[trigger] rows[i]).index]
            == rows[i].id by {
            if i < front.len() {
                assert(rows[rows.len() - 1].index != rows[i].index);
                assert(front[i] == rows[i]);
                assert forall|j: int|
                    i < j < front.len() implies (#[trigger] front[j]).index
                    != front[i].index by {
                    assert(rows[j].index != rows[i].index);
                }
            }
        }
    }
}

/// An entry record whose parent field resolves to no set of the set table
/// leaves no trace: with it or without it, at whatever place of the entry
/// table, the tables decode to the same database.
pub proof fn lemma_spr_orphan_dropped(
    sets: Seq<SprSetRow>,
    entries: Seq<SprEntryRow>,
    at: int,
    orphan: SprEntryRow,
)
    requires
        0 <= at <= entries.len(),
        !spr_index_table(sets).contains_key(spr_parent_index(orphan.set_index)),
    ensures
        spr_decode(sets, entries.insert(at, orphan)) == spr_decode(sets, entries),
{
    let parents = spr_parents(sets);
    let table = spr_index_table(sets);
    let before = entries.take(at);
    let after = entries.skip(at);
    assert(entries.insert(at, orphan) =~= before.push(orphan) + after);
    assert(entries =~= before + after);
    lemma_spr_attach_all_concat(parents, table, before.push(orphan), after);
    lemma_spr_attach_all_concat(parents, table, before, after);
    assert(before.push(orphan).drop_last() =~= before);
}

/// The positional indices of a file are arbitrary: where a second pair of
/// tables differs from the first only in that every positional index `p` of
/// the set table, and every parent index `p` of the entry table, is replaced
/// by `renumber(p)`, texture bits kept, and `renumber` gives no index to two
/// sets, both pairs decode to the same database.
pub proof fn lemma_spr_index_independence(
    sets: Seq<SprSetRow>,
    entries: Seq<SprEntryRow>,
    sets2: Seq<SprSetRow>,
    entries2: Seq<SprEntryRow>,
    renumber: spec_fn(u32) -> u32,
)
    requires
        forall|a: u32, b: u32| #[trigger] renumber(a) == #[trigger] renumber(b) ==> a == b,
        sets2.len() == sets.len(),
        forall|i: int|
            0 <= i < sets.len() ==> #[trigger] sets2[i] == (SprSetRow {
                index: renumber(sets[i].index),
                ..sets[i]
            }),
        entries2.len() == entries.len(),
        forall|k: int|
            0 <= k < entries.len() ==> {
                &&& (#[trigger] entries2[k]).id == entries[k].id
                &&& entries2[k].name == entries[k].name
                &&& entries2[k].index == entries[k].index
                &&& spr_parent_index(entries2[k].set_index) == renumber(
                    spr_parent_index(entries[k].set_index),
                )
                &&& spr_is_texture(entries2[k].set_index) == spr_is_texture(
                    entries[k].set_index,
                )
            },
    ensures
        spr_decode(sets2, entries2) == spr_decode(sets, entries),
{
    lemma_spr_renumbered_sets(sets, sets2, renumber);
    lemma_spr_renumbered_entries(
        spr_parents(sets),
        spr_index_table(sets),
        spr_index_table(sets2),
        entries,
        entries2,
        renumber,
    );
}

/// Renumbering the positional indices of a set table keeps its sets and
/// renumbers its side table.
proof fn lemma_spr_renumbered_sets(
    sets: Seq<SprSetRow>,
    sets2: Seq<SprSetRow>,
    renumber: spec_fn(u32) -> u32,
)
    requires
        forall|a: u32, b: u32| #[trigger] renumber(a) == #[trigger] renumber(b) ==> a == b,
        sets2.len() == sets.len(),
        forall|i: int|
            0 <= i < sets.len() ==> #[trigger] sets2[i] == (SprSetRow {
                index: renumber(sets[i].index),
                ..sets[i]
            }),
    ensures
        spr_parents(sets2) == spr_parents(sets),
        forall|p: u32|
            spr_index_table(sets2).contains_key(#[trigger] renumber(p)) <==> spr_index_table(
                sets,
            ).contains_key(p),
        forall|p: u32|
            spr_index_table(sets).contains_key(p) ==> spr_index_table(sets2)[#[trigger] renumber(
                p,
            )] == spr_index_table(sets)[p],
    decreases sets.len(),
{
    if sets.len() > 0 {
        let front = sets.drop_last();
        let front2 = sets2.drop_last();
        assert forall|i: int| 0 <= i < front.len() implies #[trigger] front2[i] == (SprSetRow {
            index: renumber(front[i].index),
            ..front[i]
        }) by {
            assert(front2[i] == sets2[i]);
        }
        lemma_spr_renumbered_sets(front, front2, renumber);
        let last = sets.last();
        assert(sets2.last() == sets2[sets.len() - 1]);
        assert(sets2.last() == (SprSetRow { index: renumber(last.index), ..last }));
        assert(spr_bare_set(sets2.last()) == spr_bare_set(last));
        assert forall|p: u32|
            spr_index_table(sets2).contains_key(#[trigger] renumber(p)) <==> spr_index_table(
                sets,
            ).contains_key(p) by {
            if renumber(p) == renumber(last.index) {
                assert(p == last.index);
            }
        }
        assert forall|p: u32| spr_index_table(sets).contains_key(p) implies spr_index_table(
            sets2,
        )[#[trigger] renumber(p)] == spr_index_table(sets)[p] by {
            if renumber(p) == renumber(last.index) {
                assert(p == last.index);
            }
        }
    }
}

/// Entry records that resolve by a renumbered side table as they did by the
/// first attach to the same sets and collections.
proof fn lemma_spr_renumbered_entries(
    parents: Map<u32, SprSetView>,
    table: Map<u32, u32>,
    table2: Map<u32, u32>,
    entries: Seq<SprEntryRow>,
    entries2: Seq<SprEntryRow>,
    renumber: spec_fn(u32) -> u32,
)
    requires
        forall|p: u32| table2.contains_key(#[trigger] renumber(p)) <==> table.contains_key(p),
        forall|p: u32| table.contains_key(p) ==> table2[#[trigger] renumber(p)] == table[p],
        entries2.len() == entries.len(),
        forall|k: int|
            0 <= k < entries.len() ==> {
                &&& (#[trigger] entries2[k]).id == entries[k].id
                &&& entries2[k].name == entries[k].name
                &&& entries2[k].index == entries[k].index
                &&& spr_parent_index(entries2[k].set_index) == renumber(
                    spr_parent_index(entries[k].set_index),
                )
                &&& spr_is_texture(entries2[k].set_index) == spr_is_texture(
                    entries[k].set_index,
                )
            },
    ensures
        spr_attach_all(parents, table2, entries2) == spr_attach_all(parents, table, entries),
    decreases entries.len(),
{
    if entries.len() > 0 {
        let front = entries.drop_last();
        let front2 = entries2.drop_last();
        assert forall|k: int| 0 <= k < front.len() implies {
            &&& (#[trigger] front2[k]).id == front[k].id
            &&& front2[k].name == front[k].name
            &&& front2[k].index == front[k].index
            &&& spr_parent_index(front2[k].set_index) == renumber(
                spr_parent_index(front[k].set_index),
            )
            &&& spr_is_texture(front2[k].set_index) == spr_is_texture(front[k].set_index)
        } by {
            assert(front2[k] == entries2[k]);
            assert(front[k] == entries[k]);
        }
        lemma_spr_renumbered_entries(parents, table, table2, front, front2, renumber);
        let row = entries.last();
        let row2 = entries2.last();
        assert(row2 == entries2[entries.len() - 1]);
        assert(row == entries[entries.len() - 1]);
        let p = spr_parent_index(row.set_index);
        assert(spr_parent_index(row2.set_index) == renumber(p));
        assert(table2.contains_key(renumber(p)) <==> table.contains_key(p));
    }
}

/// What a packed parent field holds: the rank in its low 12 bits, the
/// collection in its texture bit, and nothing in bits 13 to 15. So a rank
/// below 4096 comes back whole.
pub proof fn lemma_spr_parent_field(rank: int, texture: bool)
    requires
        0 <= rank,
    ensures
        spr_parent_index(spr_parent_field(rank, texture)) == rank % 0x1000,
        spr_is_texture(spr_parent_field(rank, texture)) == texture,
        spr_parent_field(rank, texture) & 0xE000 == 0,
{
    let low: u16 = (rank % 0x1000) as u16;
    assert(low < 0x1000 ==> low & 0x0FFF == low && low & 0x1000 == 0 && low & 0xE000 == 0)
        by (bit_vector);
    assert(low < 0x1000 ==> (low | 0x1000) & 0x0FFF == low && (low | 0x1000) & 0x1000 == 0x1000
        && (low | 0x1000) & 0xE000 == 0) by (bit_vector);
}

/// The set table of a database decodes to its sets without their entries,
/// and its side table maps each rank to the id of that rank.
pub proof fn lemma_spr_set_rows(db: Map<u32, SprSetView>)
    ensures
        spr_parents(spr_set_rows(db)) == spr_stripped(db),
        forall|p: u32|
            spr_index_table(spr_set_rows(db)).contains_key(p) <==> p < ascending_u32(
                db.dom(),
            ).len(),
        forall|p: u32|
            p < ascending_u32(db.dom()).len() ==> #[trigger] spr_index_table(spr_set_rows(db))[p]
                == ascending_u32(db.dom())[p as int],
{
    let ids = ascending_u32(db.dom());
    let rows = spr_set_rows(db);
    lemma_ascending_u32(db.dom());
    lemma_spr_parents(rows);
    lemma_spr_index_table(rows);
    assert forall|i: int, j: int|
        0 <= i < rows.len() && i < j < rows.len() implies (#[trigger] rows[j]).id != (
    #[trigger] rows[i]).id && rows[j].index != rows[i].index by {
        if j < i {
            assert(ids[j] < ids[i]);
        } else {
            assert(ids[i] < ids[j]);
        }
    }
    assert forall|id: u32| spr_parents(rows).contains_key(id) <==> db.contains_key(id) by {
        if spr_parents(rows).contains_key(id) {
            let i = choose|i: int| 0 <= i < rows.len() && (#[trigger] rows[i]).id == id;
            assert(ids.contains(ids[i]));
        }
        if db.contains_key(id) {
            assert(ids.contains(id));
            let i = choose|i: int| 0 <= i < ids.len() && ids[i] == id;
            assert(rows[i].id == id);
        }
    }
    assert forall|id: u32| db.contains_key(id) implies spr_parents(rows)[id] == spr_stripped(
        db,
    )[id] by {
        assert(ids.contains(id));
        let i = choose|i: int| 0 <= i < ids.len() && ids[i] == id;
        assert(rows[i].id == id);
        assert(spr_parents(rows)[rows[i].id] == spr_bare_set(rows[i]));
    }
    assert(spr_parents(rows) =~= spr_stripped(db));
    assert forall|p: u32| spr_index_table(rows).contains_key(p) <==> p < ids.len() by {
        if spr_index_table(rows).contains_key(p) {
            let i = choose|i: int| 0 <= i < rows.len() && (#[trigger] rows[i]).index == p;
        }
        if p < ids.len() {
            assert(rows[p as int].index == p);
        }
    }
    assert forall|p: u32| p < ids.len() implies #[trigger] spr_index_table(rows)[p] == ids[p as int] by {
        assert(rows[p as int].index == p);
        assert(spr_index_table(rows)[rows[p as int].index] == rows[p as int].id);
    }
}

/// The entries of `entries` whose ids are among the first `upto` in
/// ascending order.
spec fn spr_first_entries(entries: Map<u32, SprEntryView>, upto: int) -> Map<
    u32,
    SprEntryView,
> {
    Map::new(
        |id: u32|
            exists|q: int|
                0 <= q < upto && q < ascending_u32(entries.dom()).len() && ascending_u32(
                    entries.dom(),
                )[q] == id,
        |id: u32| entries[id],
    )
}

/// The first `upto` entries in ascending order are all of them once `upto`
/// reaches their number.
proof fn lemma_spr_first_entries_all(entries: Map<u32, SprEntryView>)
    ensures
        spr_first_entries(entries, ascending_u32(entries.dom()).len() as int) == entries,
{
    let ids = ascending_u32(entries.dom());
    let all = spr_first_entries(entries, ids.len() as int);
    lemma_ascending_u32(entries.dom());
    assert forall|id: u32| all.contains_key(id) <==> entries.contains_key(id) by {
        if entries.contains_key(id) {
            assert(ids.contains(id));
            let q = choose|q: int| 0 <= q < ids.len() && ids[q] == id;
            assert(0 <= q < ids.len() && q < ids.len() && ids[q] == id);
        }
        if all.contains_key(id) {
            let q = choose|q: int| 0 <= q < ids.len() && q < ids.len() && ids[q] == id;
            assert(ids.contains(ids[q]));
        }
    }
    assert(all =~= entries);
}

/// The set `owner` with one of its two collections replaced.
spec fn spr_with_collection(
    owner: SprSetView,
    texture: bool,
    collection: Map<u32, SprEntryView>,
) -> SprSetView {
    if texture {
        SprSetView { textures: collection, ..owner }
    } else {
        SprSetView { sprites: collection, ..owner }
    }
}

/// Attaching the first `upto` records of one collection's block to a
/// database in which the owning set has nothing in that collection yet
/// gives the set those entries there.
proof fn lemma_spr_attach_block(
    sets: Map<u32, SprSetView>,
    table: Map<u32, u32>,
    entries: Map<u32, SprEntryView>,
    rank: int,
    texture: bool,
    owner: u32,
    upto: int,
)
    requires
        0 <= rank < 0x1000,
        table.contains_key(rank as u32),
        table[rank as u32] == owner,
        sets.contains_key(owner),
        texture ==> sets[owner].textures == Map::<u32, SprEntryView>::empty(),
        !texture ==> sets[owner].sprites == Map::<u32, SprEntryView>::empty(),
        0 <= upto <= ascending_u32(entries.dom()).len(),
    ensures
        spr_attach_all(sets, table, spr_entry_block(entries, rank, texture).take(upto))
            == sets.insert(
            owner,
            spr_with_collection(sets[owner], texture, spr_first_entries(entries, upto)),
        ),
    decreases upto,
{
    let block = spr_entry_block(entries, rank, texture);
    let ids = ascending_u32(entries.dom());
    lemma_spr_parent_field(rank, texture);
    if upto == 0 {
        assert(block.take(0) =~= Seq::empty());
        assert(spr_first_entries(entries, 0) =~= Map::empty());
        assert(sets.insert(
            owner,
            spr_with_collection(sets[owner], texture, spr_first_entries(entries, 0)),
        ) =~= sets);
    } else {
        lemma_spr_attach_block(sets, table, entries, rank, texture, owner, upto - 1);
        lemma_ascending_u32(entries.dom());
        let prev = spr_attach_all(sets, table, block.take(upto - 1));
        let row = block[upto - 1];
        let entry = SprEntryView { index: row.index, name: row.name };
        assert(block.take(upto).drop_last() =~= block.take(upto - 1));
        assert(block.take(upto).last() == row);
        assert(entries.dom().contains(ids[upto - 1]));
        assert(spr_first_entries(entries, upto) =~= spr_first_entries(entries, upto - 1).insert(
            row.id,
            entry,
        )) by {
            assert forall|id: u32|
                spr_first_entries(entries, upto).contains_key(id) <==> spr_first_entries(
                    entries,
                    upto - 1,
                ).insert(row.id, entry).contains_key(id) by {
                if spr_first_entries(entries, upto).contains_key(id) {
                    let q = choose|q: int| 0 <= q < upto && q < ids.len() && ids[q] == id;
                    if q < upto - 1 {
                        assert(spr_first_entries(entries, upto - 1).contains_key(id));
                    }
                }
                if spr_first_entries(entries, upto - 1).contains_key(id) {
                    let q = choose|q: int| 0 <= q < upto - 1 && q < ids.len() && ids[q] == id;
                    assert(0 <= q < upto && q < ids.len() && ids[q] == id);
                }
                if id == row.id {
                    assert(0 <= upto - 1 < upto && upto - 1 < ids.len() && ids[upto - 1] == id);
                }
            }
        }
        assert(spr_attach(prev, table, row) =~= sets.insert(
            owner,
            spr_with_collection(sets[owner], texture, spr_first_entries(entries, upto)),
        ));
    }
}

/// The database in which the sets of rank below `upto` have their entries
/// and the others have none.
spec fn spr_partial(db: Map<u32, SprSetView>, upto: int) -> Map<u32, SprSetView> {
    Map::new(
        |id: u32| db.contains_key(id),
        |id: u32|
            if exists|i: int|
                0 <= i < upto && i < ascending_u32(db.dom()).len() && ascending_u32(db.dom())[i]
                    == id {
                db[id]
            } else {
                spr_stripped(db)[id]
            },
    )
}

/// Whether every set that has sprites or textures has a rank that fits the
/// 12 bits of a parent field.
pub open spec fn spr_ranks_fit(db: Map<u32, SprSetView>) -> bool {
    forall|i: int|
        0x1000 <= i < ascending_u32(db.dom()).len() ==> {
            &&& (#[trigger] db[ascending_u32(db.dom())[i]]).sprites == Map::<
                u32,
                SprEntryView,
            >::empty()
            &&& db[ascending_u32(db.dom())[i]].textures == Map::<u32, SprEntryView>::empty()
        }
}

/// A collection without entries has an empty block.
proof fn lemma_spr_empty_block(rank: int, texture: bool)
    ensures
        spr_entry_block(Map::<u32, SprEntryView>::empty(), rank, texture) == Seq::<
            SprEntryRow,
        >::empty(),
{
    let dom = Map::<u32, SprEntryView>::empty().dom();
    let ids = ascending_u32(dom);
    lemma_ascending_u32(dom);
    if ids.len() > 0 {
        assert(ids.contains(ids[0]));
    }
    assert(spr_entry_block(Map::<u32, SprEntryView>::empty(), rank, texture) =~= Seq::empty());
}

/// Attaching the entry records of the first `upto` sets to the sets without
/// entries gives those sets their sprites and textures.
proof fn lemma_spr_round_trip_upto(db: Map<u32, SprSetView>, upto: int)
    requires
        spr_ranks_fit(db),
        0 <= upto <= ascending_u32(db.dom()).len(),
    ensures
        spr_attach_all(
            spr_stripped(db),
            spr_index_table(spr_set_rows(db)),
            spr_entry_rows_upto(db, upto),
        ) == spr_partial(db, upto),
    decreases upto,
{
    let ids = ascending_u32(db.dom());
    let table = spr_index_table(spr_set_rows(db));
    if upto == 0 {
        assert(spr_partial(db, 0) =~= spr_stripped(db));
    } else {
        let rank = upto - 1;
        let owner = ids[rank];
        let before = spr_partial(db, rank);
        let sprites = spr_entry_block(db[owner].sprites, rank, false);
        let textures = spr_entry_block(db[owner].textures, rank, true);
        let earlier = spr_entry_rows_upto(db, rank);
        lemma_spr_round_trip_upto(db, rank);
        lemma_ascending_u32(db.dom());
        lemma_spr_set_rows(db);
        lemma_spr_attach_all_concat(spr_stripped(db), table, earlier + sprites, textures);
        lemma_spr_attach_all_concat(spr_stripped(db), table, earlier, sprites);
        assert(db.contains_key(owner));
        assert(!exists|i: int| 0 <= i < rank && i < ids.len() && ids[i] == owner) by {
            assert forall|i: int| 0 <= i < rank && i < ids.len() implies ids[i] != owner by {
                assert(ids[i] < ids[rank]);
            }
        }
        assert(before[owner] == spr_stripped(db)[owner]);
        assert forall|id: u32| db.contains_key(id) implies (spr_partial(db, upto)[id] == if id
            == owner {
            db[owner]
        } else {
            before[id]
        }) by {
            if id == owner {
                assert(0 <= rank < upto && rank < ids.len() && ids[rank] == id);
            } else {
                if exists|i: int| 0 <= i < upto && i < ids.len() && ids[i] == id {
                    let i = choose|i: int| 0 <= i < upto && i < ids.len() && ids[i] == id;
                    assert(0 <= i < rank && i < ids.len() && ids[i] == id);
                }
                if exists|i: int| 0 <= i < rank && i < ids.len() && ids[i] == id {
                    let i = choose|i: int| 0 <= i < rank && i < ids.len() && ids[i] == id;
                    assert(0 <= i < upto && i < ids.len() && ids[i] == id);
                }
            }
        }
        if rank < 0x1000 {
            assert(table.contains_key(rank as u32));
            assert(table[rank as u32] == ids[rank]);
            let sprite_count = ascending_u32(db[owner].sprites.dom()).len() as int;
            let texture_count = ascending_u32(db[owner].textures.dom()).len() as int;
            lemma_spr_attach_block(
                before,
                table,
                db[owner].sprites,
                rank,
                false,
                owner,
                sprite_count,
            );
            assert(sprites.take(sprite_count) =~= sprites);
            lemma_spr_first_entries_all(db[owner].sprites);
            let middle = before.insert(
                owner,
                spr_with_collection(before[owner], false, db[owner].sprites),
            );
            lemma_spr_attach_block(
                middle,
                table,
                db[owner].textures,
                rank,
                true,
                owner,
                texture_count,
            );
            assert(textures.take(texture_count) =~= textures);
            lemma_spr_first_entries_all(db[owner].textures);
            assert(middle.insert(
                owner,
                spr_with_collection(middle[owner], true, db[owner].textures),
            ) =~= spr_partial(db, upto));
        } else {
            assert(db[ids[rank]].sprites == Map::<u32, SprEntryView>::empty());
            assert(db[owner].textures == Map::<u32, SprEntryView>::empty());
            lemma_spr_empty_block(rank, false);
            lemma_spr_empty_block(rank, true);
            assert(earlier + sprites + textures =~= earlier);
            assert(db[owner] == spr_stripped(db)[owner]);
            assert(before =~= spr_partial(db, upto));
        }
    }
}

/// Encoding then decoding gives the database back, for every database in
/// which the sets that have sprites or textures have ranks below 4096, the
/// most that the 12 bits of a parent field can name. An id that a set has
/// both among its sprites and among its textures comes back in both.
pub proof fn lemma_spr_round_trip(db: Map<u32, SprSetView>)
    requires
        spr_ranks_fit(db),
    ensures
        spr_decode(spr_set_rows(db), spr_entry_rows(db)) == db,
{
    let ids = ascending_u32(db.dom());
    lemma_spr_set_rows(db);
    lemma_spr_round_trip_upto(db, ids.len() as int);
    lemma_ascending_u32(db.dom());
    assert forall|id: u32| db.contains_key(id) implies spr_partial(db, ids.len() as int)[id]
        == db[id] by {
        assert(ids.contains(id));
        let i = choose|i: int| 0 <= i < ids.len() && ids[i] == id;
        assert(0 <= i < ids.len() && i < ids.len() && ids[i] == id);
    }
    assert(spr_partial(db, ids.len() as int) =~= db);
}

/// One of the two collections of a set: its textures where `texture` holds,
/// its sprites where not.
pub open spec fn spr_collection(set: SprSetView, texture: bool) -> Map<u32, SprEntryView> {
    if texture {
        set.textures
    } else {
        set.sprites
    }
}

/// Whether `row` is the record of an entry that the set of rank `rank` has
/// in the collection that `texture` names.
pub open spec fn spr_row_stems(
    db: Map<u32, SprSetView>,
    row: SprEntryRow,
    rank: int,
    texture: bool,
) -> bool {
    let ids = ascending_u32(db.dom());
    let collection = spr_collection(db[ids[rank]], texture);
    &&& 0 <= rank < ids.len()
    &&& collection.contains_key(row.id)
    &&& collection[row.id] == SprEntryView { index: row.index, name: row.name }
    &&& row.set_index == spr_parent_field(rank, texture)
}

/// Every record of the blocks of the first `upto` sets is the record of an
/// entry of one of those sets.
proof fn lemma_spr_rows_stem_upto(db: Map<u32, SprSetView>, upto: int, k: int)
    requires
        0 <= upto <= ascending_u32(db.dom()).len(),
        0 <= k < spr_entry_rows_upto(db, upto).len(),
    ensures
        exists|rank: int, texture: bool|
            rank < upto && #[trigger] spr_row_stems(
                db,
                spr_entry_rows_upto(db, upto)[k],
                rank,
                texture,
            ),
    decreases upto,
{
    let ids = ascending_u32(db.dom());
    let rank = upto - 1;
    let set = db[ids[rank]];
    let earlier = spr_entry_rows_upto(db, rank);
    let sprites = spr_entry_block(set.sprites, rank, false);
    let textures = spr_entry_block(set.textures, rank, true);
    let row = spr_entry_rows_upto(db, upto)[k];
    if k < earlier.len() {
        lemma_spr_rows_stem_upto(db, rank, k);
        let (r, t) = choose|r: int, t: bool|
            r < rank && #[trigger] spr_row_stems(db, earlier[k], r, t);
        assert(r < upto && spr_row_stems(db, row, r, t));
    } else if k < earlier.len() + sprites.len() {
        lemma_ascending_u32(set.sprites.dom());
        assert(row == sprites[k - earlier.len()]);
        assert(rank < upto && spr_row_stems(db, row, rank, false));
    } else {
        lemma_ascending_u32(set.textures.dom());
        assert(row == textures[k - earlier.len() - sprites.len()]);
        assert(rank < upto && spr_row_stems(db, row, rank, true));
    }
}

/// Encoding writes the texture bit that the collection calls for: every
/// record of the entry table is the record of an entry of some set, of one
/// of its textures where the texture bit of the record is set, of one of
/// its sprites where the bit is clear.
pub proof fn lemma_spr_rows_stem(db: Map<u32, SprSetView>, k: int)
    requires
        0 <= k < spr_entry_rows(db).len(),
    ensures
        exists|rank: int| #[trigger]
            spr_row_stems(
                db,
                spr_entry_rows(db)[k],
                rank,
                spr_is_texture(spr_entry_rows(db)[k].set_index),
            ),
{
    let ids = ascending_u32(db.dom());
    let row = spr_entry_rows(db)[k];
    lemma_spr_rows_stem_upto(db, ids.len() as int, k);
    let (rank, texture) = choose|rank: int, texture: bool|
        rank < ids.len() && #[trigger] spr_row_stems(db, row, rank, texture);
    lemma_spr_parent_field(rank, texture);
    assert(spr_row_stems(db, row, rank, spr_is_texture(row.set_index)));
}

/// Every entry of the first `upto` sets has its record in their blocks.
proof fn lemma_spr_entry_written_upto(
    db: Map<u32, SprSetView>,
    upto: int,
    rank: int,
    texture: bool,
    id: u32,
)
    requires
        0 <= rank < upto <= ascending_u32(db.dom()).len(),
        spr_collection(db[ascending_u32(db.dom())[rank]], texture).contains_key(id),
    ensures
        exists|k: int|
            0 <= k < spr_entry_rows_upto(db, upto).len() && id == (#[trigger] spr_entry_rows_upto(
                db,
                upto,
            )[k]).id && spr_row_stems(db, spr_entry_rows_upto(db, upto)[k], rank, texture),
    decreases upto,
{
    let ids = ascending_u32(db.dom());
    let last = upto - 1;
    let set = db[ids[last]];
    let earlier = spr_entry_rows_upto(db, last);
    let sprites = spr_entry_block(set.sprites, last, false);
    let textures = spr_entry_block(set.textures, last, true);
    let rows = spr_entry_rows_upto(db, upto);
    if rank < last {
        lemma_spr_entry_written_upto(db, last, rank, texture, id);
        let k = choose|k: int|
            0 <= k < earlier.len() && id == (#[trigger] earlier[k]).id && spr_row_stems(
                db,
                earlier[k],
                rank,
                texture,
            );
        assert(rows[k] == earlier[k]);
    } else if texture {
        let entry_ids = ascending_u32(set.textures.dom());
        lemma_ascending_u32(set.textures.dom());
        assert(entry_ids.contains(id));
        let j = choose|j: int| 0 <= j < entry_ids.len() && entry_ids[j] == id;
        let k = earlier.len() + sprites.len() + j;
        assert(rows[k] == textures[j]);
    } else {
        let entry_ids = ascending_u32(set.sprites.dom());
        lemma_ascending_u32(set.sprites.dom());
        assert(entry_ids.contains(id));
        let j = choose|j: int| 0 <= j < entry_ids.len() && entry_ids[j] == id;
        let k = earlier.len() + j;
        assert(rows[k] == sprites[j]);
    }
}

/// Encoding leaves no entry out: every sprite of every set has a record in
/// the entry table with the texture bit clear, and every texture one with
/// the bit set.
pub proof fn lemma_spr_entry_written(db: Map<u32, SprSetView>, rank: int, texture: bool, id: u32)
    requires
        0 <= rank < ascending_u32(db.dom()).len(),
        spr_collection(db[ascending_u32(db.dom())[rank]], texture).contains_key(id),
    ensures
        exists|k: int|
            0 <= k < spr_entry_rows(db).len() && id == (#[trigger] spr_entry_rows(db)[k]).id
                && spr_row_stems(db, spr_entry_rows(db)[k], rank, texture) && spr_is_texture(
                spr_entry_rows(db)[k].set_index,
            ) == texture,
{
    let rows = spr_entry_rows(db);
    lemma_spr_entry_written_upto(db, ascending_u32(db.dom()).len() as int, rank, texture, id);
    lemma_spr_parent_field(rank, texture);
    let k = choose|k: int|
        0 <= k < rows.len() && id == (#[trigger] rows[k]).id && spr_row_stems(
            db,
            rows[k],
            rank,
            texture,
        );
    assert(spr_is_texture(rows[k].set_index) == texture);
}

/// The sets of a set table have no entries before the entry table is read.
proof fn lemma_spr_parents_bare(rows: Seq<SprSetRow>)
    ensures
        forall|id: u32| #[trigger]
            spr_parents(rows).contains_key(id) ==> {
                &&& spr_parents(rows)[id].sprites == Map::<u32, SprEntryView>::empty()
                &&& spr_parents(rows)[id].textures == Map::<u32, SprEntryView>::empty()
            },
    decreases rows.len(),
{
    if rows.len() > 0 {
        let front = rows.drop_last();
        lemma_spr_parents_bare(front);
        assert forall|id: u32| #[trigger] spr_parents(rows).contains_key(id) implies {
            &&& spr_parents(rows)[id].sprites == Map::<u32, SprEntryView>::empty()
            &&& spr_parents(rows)[id].textures == Map::<u32, SprEntryView>::empty()
        } by {
            if id != rows.last().id {
                assert(spr_parents(front).contains_key(id));
            }
        }
    }
}

/// Whether an entry record is one of the entry `entry_id` that the set
/// `set_id` has in the collection that `texture` names: it has that id, its
/// texture bit names that collection, and its parent field resolves to that
/// set by the side table.
pub open spec fn spr_entry_goes_to(
    table: Map<u32, u32>,
    row: SprEntryRow,
    set_id: u32,
    texture: bool,
    entry_id: u32,
) -> bool {
    &&& row.id == entry_id
    &&& spr_is_texture(row.set_index) == texture
    &&& table.contains_key(spr_parent_index(row.set_index))
    &&& table[spr_parent_index(row.set_index)] == set_id
}

/// Which entries a set has in a collection that was empty after entry
/// records are attached.
proof fn lemma_spr_attached_entries(
    sets: Map<u32, SprSetView>,
    table: Map<u32, u32>,
    rows: Seq<SprEntryRow>,
    set_id: u32,
    texture: bool,
    entry_id: u32,
)
    requires
        sets.contains_key(set_id),
        spr_collection(sets[set_id], texture) == Map::<u32, SprEntryView>::empty(),
    ensures
        spr_collection(spr_attach_all(sets, table, rows)[set_id], texture).contains_key(entry_id)
            <==> exists|k: int|
            0 <= k < rows.len() && spr_entry_goes_to(
                table,
                #[trigger] rows[k],
                set_id,
                texture,
                entry_id,
            ),
        forall|k: int|
            0 <= k < rows.len() && spr_entry_goes_to(
                table,
                #[trigger] rows[k],
                set_id,
                texture,
                entry_id,
            ) && (forall|j: int|
                k < j < rows.len() ==> !spr_entry_goes_to(
                    table,
                    #[trigger] rows[j],
                    set_id,
                    texture,
                    entry_id,
                )) ==> spr_collection(spr_attach_all(sets, table, rows)[set_id], texture)[entry_id]
                == (SprEntryView { index: rows[k].index, name: rows[k].name }),
    decreases rows.len(),
{
    if rows.len() > 0 {
        let front = rows.drop_last();
        let prev = spr_collection(spr_attach_all(sets, table, front)[set_id], texture);
        let last = rows.last();
        let out = spr_collection(spr_attach_all(sets, table, rows)[set_id], texture);
        lemma_spr_attached_entries(sets, table, front, set_id, texture, entry_id);
        lemma_spr_attach_all_dom(sets, table, front);
        assert(spr_attach_all(sets, table, front).contains_key(set_id));
        assert(last == rows[rows.len() - 1]);
        if spr_entry_goes_to(table, last, set_id, texture, entry_id) {
            assert(out.contains_key(entry_id));
            assert forall|k: int|
                0 <= k < rows.len() && spr_entry_goes_to(
                    table,
                    #[trigger] rows[k],
                    set_id,
                    texture,
                    entry_id,
                ) && (forall|j: int|
                    k < j < rows.len() ==> !spr_entry_goes_to(
                        table,
                        #[trigger] rows[j],
                        set_id,
                        texture,
                        entry_id,
                    )) implies out[entry_id] == (SprEntryView {
                index: rows[k].index,
                name: rows[k].name,
            }) by {
                if k < rows.len() - 1 {
                    assert(!spr_entry_goes_to(
                        table,
                        rows[rows.len() - 1],
                        set_id,
                        texture,
                        entry_id,
                    ));
                }
            }
        } else {
            assert(out.contains_key(entry_id) == prev.contains_key(entry_id));
            assert(prev.contains_key(entry_id) ==> out[entry_id] == prev[entry_id]);
            if prev.contains_key(entry_id) {
                let k = choose|k: int|
                    0 <= k < front.len() && spr_entry_goes_to(
                        table,
                        #[trigger] front[k],
                        set_id,
                        texture,
                        entry_id,
                    );
                assert(rows[k] == front[k]);
            }
            if exists|k: int|
                0 <= k < rows.len() && spr_entry_goes_to(
                    table,
                    #[trigger] rows[k],
                    set_id,
                    texture,
                    entry_id,
                ) {
                let k = choose|k: int|
                    0 <= k < rows.len() && spr_entry_goes_to(
                        table,
                        #[trigger] rows[k],
                        set_id,
                        texture,
                        entry_id,
                    );
                assert(front[k] == rows[k]);
            }
            assert forall|k: int|
                0 <= k < rows.len() && spr_entry_goes_to(
                    table,
                    #[trigger] rows[k],
                    set_id,
                    texture,
                    entry_id,
                ) && (forall|j: int|
                    k < j < rows.len() ==> !spr_entry_goes_to(
                        table,
                        #[trigger] rows[j],
                        set_id,
                        texture,
                        entry_id,
                    )) implies out[entry_id] == (SprEntryView {
                index: rows[k].index,
                name: rows[k].name,
            }) by {
                assert(front[k] == rows[k]);
                assert forall|j: int| k < j < front.len() implies !spr_entry_goes_to(
                    table,
                    #[trigger] front[j],
                    set_id,
                    texture,
                    entry_id,
                ) by {
                    assert(front[j] == rows[j]);
                }
                assert(prev.contains_key(entry_id));
            }
        }
    }
}

/// Decoding sorts by the texture bit: the textures of a decoded set are
/// exactly the ids of the entry records whose texture bit is set and whose
/// parent field resolves to that set, its sprites those of the records
/// whose bit is clear; and an entry has the fields of the last such record
/// with its id. So the two collections of a set never draw on the same
/// record, and one id may stand in both.
pub proof fn lemma_spr_decoded_entries(
    sets: Seq<SprSetRow>,
    entries: Seq<SprEntryRow>,
    set_id: u32,
    texture: bool,
    entry_id: u32,
)
    requires
        spr_decode(sets, entries).contains_key(set_id),
    ensures
        spr_collection(spr_decode(sets, entries)[set_id], texture).contains_key(entry_id)
            <==> exists|k: int|
            0 <= k < entries.len() && spr_entry_goes_to(
                spr_index_table(sets),
                #[trigger] entries[k],
                set_id,
                texture,
                entry_id,
            ),
        forall|k: int|
            0 <= k < entries.len() && spr_entry_goes_to(
                spr_index_table(sets),
                #[trigger] entries[k],
                set_id,
                texture,
                entry_id,
            ) && (forall|j: int|
                k < j < entries.len() ==> !spr_entry_goes_to(
                    spr_index_table(sets),
                    #[trigger] entries[j],
                    set_id,
                    texture,
                    entry_id,
                )) ==> spr_collection(spr_decode(sets, entries)[set_id], texture)[entry_id]
                == (SprEntryView { index: entries[k].index, name: entries[k].name }),
{
    lemma_spr_attach_all_dom(spr_parents(sets), spr_index_table(sets), entries);
    lemma_spr_parents_bare(sets);
    assert(spr_parents(sets).contains_key(set_id));
    lemma_spr_attached_entries(
        spr_parents(sets),
        spr_index_table(sets),
        entries,
        set_id,
        texture,
        entry_id,
    );
}

/// Entry records none of which resolves to the set `id` leave that set as
/// it was.
proof fn lemma_spr_untouched(
    sets: Map<u32, SprSetView>,
    table: Map<u32, u32>,
    rows: Seq<SprEntryRow>,
    id: u32,
)
    requires
        forall|k: int|
            0 <= k < rows.len() && table.contains_key(
                spr_parent_index((#[trigger] rows[k]).set_index),
            ) ==> table[spr_parent_index(rows[k].set_index)] != id,
    ensures
        spr_attach_all(sets, table, rows).contains_key(id) == sets.contains_key(id),
        spr_attach_all(sets, table, rows)[id] == sets[id],
    decreases rows.len(),
{
    if rows.len() > 0 {
        let front = rows.drop_last();
        assert forall|k: int|
            0 <= k < front.len() && table.contains_key(
                spr_parent_index((#[trigger] front[k]).set_index),
            ) implies table[spr_parent_index(front[k].set_index)] != id by {
            assert(front[k] == rows[k]);
        }
        lemma_spr_untouched(sets, table, front, id);
        assert(rows.last() == rows[rows.len() - 1]);
    }
}

/// Whatever it was packed from, a parent field resolves to a positional
/// index below 4096.
pub proof fn lemma_spr_parent_index_bound(set_index: u16)
    ensures
        spr_parent_index(set_index) < 0x1000,
{
    assert(set_index & 0x0FFF < 0x1000) by (bit_vector);
}

/// The condition of `lemma_spr_round_trip` leaves out no database that
/// comes back: where a set of rank 4096 or above has sprites or textures,
/// encoding then decoding gives another database, in which that set has
/// neither.
pub proof fn lemma_spr_round_trip_needs_fit(db: Map<u32, SprSetView>)
    requires
        !spr_ranks_fit(db),
    ensures
        spr_decode(spr_set_rows(db), spr_entry_rows(db)) != db,
{
    let ids = ascending_u32(db.dom());
    let rows = spr_entry_rows(db);
    let table = spr_index_table(spr_set_rows(db));
    let i = choose|i: int|
        0x1000 <= i < ids.len() && !({
            &&& (#[trigger] db[ids[i]]).sprites == Map::<u32, SprEntryView>::empty()
            &&& db[ids[i]].textures == Map::<u32, SprEntryView>::empty()
        });
    let id = ids[i];
    lemma_ascending_u32(db.dom());
    lemma_spr_set_rows(db);
    assert forall|k: int|
        0 <= k < rows.len() && table.contains_key(
            spr_parent_index((#[trigger] rows[k]).set_index),
        ) implies table[spr_parent_index(rows[k].set_index)] != id by {
        let p = spr_parent_index(rows[k].set_index);
        lemma_spr_parent_index_bound(rows[k].set_index);
        assert(table[p] == ids[p as int]);
        assert(ids[p as int] < ids[i]);
    }
    lemma_spr_untouched(spr_stripped(db), table, rows, id);
    assert(spr_stripped(db)[id].sprites == Map::<u32, SprEntryView>::empty());
    assert(spr_stripped(db)[id].textures == Map::<u32, SprEntryView>::empty());
}

/// The round trip holds through the fields too: the rows of fields that the
/// two tables of a database are written as are read back as that database.
pub proof fn lemma_spr_field_round_trip(db: Map<u32, SprSetView>)
    requires
        spr_ranks_fit(db),
    ensures
        spr_from_rows(
            field_rows::<SprSetRecord>(spr_set_rows(db)),
            field_rows::<SprEntryRecord>(spr_entry_rows(db)),
        ) == Some(db),
{
    lemma_parse_field_rows::<SprSetRecord>(spr_set_rows(db));
    lemma_parse_field_rows::<SprEntryRecord>(spr_entry_rows(db));
    lemma_spr_round_trip(db);
}

} // verus!
