//! What holds of the animation-set codec: which sets a pair of tables
//! decodes to, that unresolved scenes leave no trace, that the positional
//! indices of a file are arbitrary, and that encoding then decoding gives
//! the database back.

use crate::aet::{
    aet_attach, aet_attach_all, aet_bare_set, aet_decode, aet_index_table, aet_parent_field,
    aet_parent_index, aet_parents, aet_scene_block, aet_scene_rows, aet_scene_rows_upto,
    aet_set_rows, aet_stripped, AetSceneRecord, AetSceneRow, AetSceneView, AetSetRecord, AetSetRow,
    AetSetView,
};
use crate::aet_layout::aet_from_rows;
use crate::layout::{field_rows, lemma_parse_field_rows};
use crate::order::{ascending_u32, lemma_ascending_u32};
use vstd::prelude::*;

verus! {

/// Attaching scenes never adds or removes a set, and changes nothing of a
/// set but its scenes.
pub proof fn lemma_aet_attach_all_dom(
    sets: Map<u32, AetSetView>,
    table: Map<u32, u32>,
    rows: Seq<AetSceneRow>,
)
    ensures
        aet_attach_all(sets, table, rows).dom() == sets.dom(),
        forall|id: u32| #[trigger]
            sets.contains_key(id) ==> {
                &&& aet_attach_all(sets, table, rows)[id].name == sets[id].name
                &&& aet_attach_all(sets, table, rows)[id].filename == sets[id].filename
                &&& aet_attach_all(sets, table, rows)[id].sprite_set_id == sets[id].sprite_set_id
            },
    decreases rows.len(),
{
    if rows.len() > 0 {
        lemma_aet_attach_all_dom(sets, table, rows.drop_last());
        let prev = aet_attach_all(sets, table, rows.drop_last());
        assert(aet_attach(prev, table, rows.last()).dom() =~= prev.dom());
        assert forall|id: u32| #[trigger] sets.contains_key(id) implies {
            &&& aet_attach_all(sets, table, rows)[id].name == sets[id].name
            &&& aet_attach_all(sets, table, rows)[id].filename == sets[id].filename
            &&& aet_attach_all(sets, table, rows)[id].sprite_set_id == sets[id].sprite_set_id
        } by {
            assert(prev.contains_key(id));
        }
    }
}

/// Attaching two runs of scene records one after the other is attaching
/// their concatenation.
pub proof fn lemma_aet_attach_all_concat(
    sets: Map<u32, AetSetView>,
    table: Map<u32, u32>,
    first: Seq<AetSceneRow>,
    second: Seq<AetSceneRow>,
)
    ensures
        aet_attach_all(sets, table, first + second) == aet_attach_all(
            aet_attach_all(sets, table, first),
            table,
            second,
        ),
    decreases second.len(),
{
    if second.len() == 0 {
        assert(first + second =~= first);
    } else {
        lemma_aet_attach_all_concat(sets, table, first, second.drop_last());
        assert((first + second).drop_last() =~= first + second.drop_last());
        assert((first + second).last() == second.last());
    }
}

/// The sets of a decoded database are exactly the ids of the set table, and
/// a set has the fields of the last record with its id.
pub proof fn lemma_aet_parents(rows: Seq<AetSetRow>)
    ensures
        forall|id: u32|
            aet_parents(rows).contains_key(id) <==> exists|i: int|
                0 <= i < rows.len() && (#[trigger] rows[i]).id == id,
        forall|i: int|
            0 <= i < rows.len() && (forall|j: int|
                i < j < rows.len() ==> (#[trigger] rows[j]).id != rows[i].id)
                ==> aet_parents(rows)[(#[trigger] rows[i]).id] == aet_bare_set(rows[i]),
    decreases rows.len(),
{
    if rows.len() > 0 {
        let front = rows.drop_last();
        lemma_aet_parents(front);
        assert forall|id: u32|
            aet_parents(rows).contains_key(id) <==> exists|i: int|
                0 <= i < rows.len() && (#[trigger] rows[i]).id == id by {
            if aet_parents(rows).contains_key(id) {
                if id == rows.last().id {
                    assert(rows[rows.len() - 1].id == id);
                } else {
                    assert(aet_parents(front).contains_key(id));
                    let i = choose|i: int| 0 <= i < front.len() && (#[trigger] front[i]).id == id;
                    assert(rows[i] == front[i]);
                }
            }
            if exists|i: int| 0 <= i < rows.len() && (#[trigger] rows[i]).id == id {
                let i = choose|i: int| 0 <= i < rows.len() && (#[trigger] rows[i]).id == id;
                if i < front.len() {
                    assert(front[i].id == id);
                    assert(aet_parents(front).contains_key(id));
                }
            }
        }
        assert forall|i: int|
            0 <= i < rows.len() && (forall|j: int|
                i < j < rows.len() ==> (#[trigger] rows[j]).id
                    != rows[i].id) implies aet_parents(rows)[(#[trigger] rows[i]).id]
            == aet_bare_set(rows[i]) by {
            if i < front.len() {
                assert(rows[rows.len() - 1].id != rows[i].id);
                assert(front[i] == rows[i]);
                assert forall|j: int| i < j < front.len() implies (#[trigger] front[j]).id
                    != front[i].id by {
                    assert(rows[j].id != rows[i].id);
                }
            }
        }
    }
}

/// The positional indices of the side table are exactly those of the set
/// table, each of them names a set of the table, and an index names the set
/// of the last record that holds it.
pub proof fn lemma_aet_index_table(rows: Seq<AetSetRow>)
    ensures
        forall|index: u32|
            aet_index_table(rows).contains_key(index) <==> exists|i: int|
                0 <= i < rows.len() && (#[trigger] rows[i]).index == index,
        forall|index: u32| #[trigger]
            aet_index_table(rows).contains_key(index) ==> aet_parents(rows).contains_key(
                aet_index_table(rows)[index],
            ),
        forall|i: int|
            0 <= i < rows.len() && (forall|j: int|
                i < j < rows.len() ==> (#[trigger] rows[j]).index != rows[i].index)
                ==> aet_index_table(rows)[(#[trigger] rows[i]).index] == rows[i].id,
    decreases rows.len(),
{
    if rows.len() > 0 {
        let front = rows.drop_last();
        lemma_aet_index_table(front);
        assert forall|index: u32|
            aet_index_table(rows).contains_key(index) <==> exists|i: int|
                0 <= i < rows.len() && (#[trigger] rows[i]).index == index by {
            if aet_index_table(rows).contains_key(index) {
                if index == rows.last().index {
                    assert(rows[rows.len() - 1].index == index);
                } else {
                    assert(aet_index_table(front).contains_key(index));
                    let i = choose|i: int|
                        0 <= i < front.len() && (#[trigger] front[i]).index == index;
                    assert(rows[i] == front[i]);
                }
            }
            if exists|i: int| 0 <= i < rows.len() && (#[trigger] rows[i]).index == index {
                let i = choose|i: int| 0 <= i < rows.len() && (#[trigger] rows[i]).index == index;
                if i < front.len() {
                    assert(front[i].index == index);
                    assert(aet_index_table(front).contains_key(index));
                }
            }
        }
        assert forall|index: u32| #[trigger]
            aet_index_table(rows).contains_key(index) implies aet_parents(rows).contains_key(
            aet_index_table(rows)[index],
        ) by {
            if index != rows.last().index {
                assert(aet_index_table(front).contains_key(index));
            }
        }
        assert forall|i: int|
            0 <= i < rows.len() && (forall|j: int|
                i < j < rows.len() ==> (#[trigger] rows[j]).index
                    != rows[i].index) implies aet_index_table(rows)[(#[trigger] rows[i]).index]
            == rows[i].id by {
            if i < front.len() {
                assert(rows[rows.len() - 1].index != rows[i].index);
                assert(front[i] == rows[i]);
                assert forall|j: int|
                    i < j < front.len() implies (#[trigger] front[j]).index
                    != front[i].index by {
                    assert(rows[j].index != rows[i].index);
                }
            }
        }
    }
}

/// A scene record whose parent field resolves to no set of the set table
/// leaves no trace: with it or without it, at whatever place of the scene
/// table, the tables decode to the same database.
pub proof fn lemma_aet_orphan_dropped(
    sets: Seq<AetSetRow>,
    scenes: Seq<AetSceneRow>,
    at: int,
    orphan: AetSceneRow,
)
    requires
        0 <= at <= scenes.len(),
        !aet_index_table(sets).contains_key(aet_parent_index(orphan.set_index)),
    ensures
        aet_decode(sets, scenes.insert(at, orphan)) == aet_decode(sets, scenes),
{
    let parents = aet_parents(sets);
    let table = aet_index_table(sets);
    let before = scenes.take(at);
    let after = scenes.skip(at);
    assert(scenes.insert(at, orphan) =~= before.push(orphan) + after);
    assert(scenes =~= before + after);
    lemma_aet_attach_all_concat(parents, table, before.push(orphan), after);
    lemma_aet_attach_all_concat(parents, table, before, after);
    assert(before.push(orphan).drop_last() =~= before);
}

/// The positional indices of a file are arbitrary: where a second pair of
/// tables differs from the first only in that every positional index `p` of
/// the set table, and every parent index `p` of the scene table, is replaced
/// by `renumber(p)`, and `renumber` gives no index to two sets, both pairs
/// decode to the same database.
pub proof fn lemma_aet_index_independence(
    sets: Seq<AetSetRow>,
    scenes: Seq<AetSceneRow>,
    sets2: Seq<AetSetRow>,
    scenes2: Seq<AetSceneRow>,
    renumber: spec_fn(u32) -> u32,
)
    requires
        forall|a: u32, b: u32| #[trigger] renumber(a) == #[trigger] renumber(b) ==> a == b,
        sets2.len() == sets.len(),
        forall|i: int|
            0 <= i < sets.len() ==> #[trigger] sets2[i] == (AetSetRow {
                index: renumber(sets[i].index),
                ..sets[i]
            }),
        scenes2.len() == scenes.len(),
        forall|k: int|
            0 <= k < scenes.len() ==> {
                &&& (#[trigger] scenes2[k]).id == scenes[k].id
                &&& scenes2[k].name == scenes[k].name
                &&& scenes2[k].index == scenes[k].index
                &&& aet_parent_index(scenes2[k].set_index) == renumber(
                    aet_parent_index(scenes[k].set_index),
                )
            },
    ensures
        aet_decode(sets2, scenes2) == aet_decode(sets, scenes),
{
    lemma_aet_renumbered_sets(sets, sets2, renumber);
    lemma_aet_renumbered_scenes(
        aet_parents(sets),
        aet_index_table(sets),
        aet_index_table(sets2),
        scenes,
        scenes2,
        renumber,
    );
}

/// Renumbering the positional indices of a set table keeps its sets and
/// renumbers its side table.
proof fn lemma_aet_renumbered_sets(
    sets: Seq<AetSetRow>,
    sets2: Seq<AetSetRow>,
    renumber: spec_fn(u32) -> u32,
)
    requires
        forall|a: u32, b: u32| #[trigger] renumber(a) == #[trigger] renumber(b) ==> a == b,
        sets2.len() == sets.len(),
        forall|i: int|
            0 <= i < sets.len() ==> #[trigger] sets2[i] == (AetSetRow {
                index: renumber(sets[i].index),
                ..sets[i]
            }),
    ensures
        aet_parents(sets2) == aet_parents(sets),
        forall|p: u32|
            aet_index_table(sets2).contains_key(#[trigger] renumber(p)) <==> aet_index_table(
                sets,
            ).contains_key(p),
        forall|p: u32|
            aet_index_table(sets).contains_key(p) ==> aet_index_table(sets2)[#[trigger] renumber(
                p,
            )] == aet_index_table(sets)[p],
    decreases sets.len(),
{
    if sets.len() > 0 {
        let front = sets.drop_last();
        let front2 = sets2.drop_last();
        assert forall|i: int| 0 <= i < front.len() implies #[trigger] front2[i] == (AetSetRow {
            index: renumber(front[i].index),
            ..front[i]
        }) by {
            assert(front2[i] == sets2[i]);
        }
        lemma_aet_renumbered_sets(front, front2, renumber);
        let last = sets.last();
        assert(sets2.last() == sets2[sets.len() - 1]);
        assert(sets2.last() == (AetSetRow { index: renumber(last.index), ..last }));
        assert(aet_bare_set(sets2.last()) == aet_bare_set(last));
        assert forall|p: u32|
            aet_index_table(sets2).contains_key(#[trigger] renumber(p)) <==> aet_index_table(
                sets,
            ).contains_key(p) by {
            if renumber(p) == renumber(last.index) {
                assert(p == last.index);
            }
        }
        assert forall|p: u32| aet_index_table(sets).contains_key(p) implies aet_index_table(
            sets2,
        )[#[trigger] renumber(p)] == aet_index_table(sets)[p] by {
            if renumber(p) == renumber(last.index) {
                assert(p == last.index);
            }
        }
    }
}

/// Scene records that resolve by a renumbered side table as they did by the
/// first attach to the same sets.
proof fn lemma_aet_renumbered_scenes(
    parents: Map<u32, AetSetView>,
    table: Map<u32, u32>,
    table2: Map<u32, u32>,
    scenes: Seq<AetSceneRow>,
    scenes2: Seq<AetSceneRow>,
    renumber: spec_fn(u32) -> u32,
)
    requires
        forall|p: u32| table2.contains_key(#[trigger] renumber(p)) <==> table.contains_key(p),
        forall|p: u32| table.contains_key(p) ==> table2[#[trigger] renumber(p)] == table[p],
        scenes2.len() == scenes.len(),
        forall|k: int|
            0 <= k < scenes.len() ==> {
                &&& (#[trigger] scenes2[k]).id == scenes[k].id
                &&& scenes2[k].name == scenes[k].name
                &&& scenes2[k].index == scenes[k].index
                &&& aet_parent_index(scenes2[k].set_index) == renumber(
                    aet_parent_index(scenes[k].set_index),
                )
            },
    ensures
        aet_attach_all(parents, table2, scenes2) == aet_attach_all(parents, table, scenes),
    decreases scenes.len(),
{
    if scenes.len() > 0 {
        let front = scenes.drop_last();
        let front2 = scenes2.drop_last();
        assert forall|k: int| 0 <= k < front.len() implies {
            &&& (#[trigger] front2[k]).id == front[k].id
            &&& front2[k].name == front[k].name
            &&& front2[k].index == front[k].index
            &&& aet_parent_index(front2[k].set_index) == renumber(
                aet_parent_index(front[k].set_index),
            )
        } by {
            assert(front2[k] == scenes2[k]);
            assert(front[k] == scenes[k]);
        }
        lemma_aet_renumbered_scenes(parents, table, table2, front, front2, renumber);
        let row = scenes.last();
        let row2 = scenes2.last();
        assert(row2 == scenes2[scenes.len() - 1]);
        assert(row == scenes[scenes.len() - 1]);
        let p = aet_parent_index(row.set_index);
        assert(aet_parent_index(row2.set_index) == renumber(p));
        assert(table2.contains_key(renumber(p)) <==> table.contains_key(p));
    }
}

/// A parent field that holds a rank below 4096 resolves to that rank.
pub proof fn lemma_aet_parent_field(rank: int)
    requires
        0 <= rank < 0x1000,
    ensures
        aet_parent_index(aet_parent_field(rank)) == rank,
{
    let field: u16 = rank as u16;
    assert(field < 0x1000 ==> field & 0x0FFF == field) by (bit_vector);
}

/// The set table of a database decodes to its sets without their scenes,
/// and its side table maps each rank to the id of that rank.
pub proof fn lemma_aet_set_rows(db: Map<u32, AetSetView>)
    ensures
        aet_parents(aet_set_rows(db)) == aet_stripped(db),
        forall|p: u32|
            aet_index_table(aet_set_rows(db)).contains_key(p) <==> p < ascending_u32(
                db.dom(),
            ).len(),
        forall|p: u32|
            p < ascending_u32(db.dom()).len() ==> #[trigger] aet_index_table(aet_set_rows(db))[p]
                == ascending_u32(db.dom())[p as int],
{
    let ids = ascending_u32(db.dom());
    let rows = aet_set_rows(db);
    lemma_ascending_u32(db.dom());
    lemma_aet_parents(rows);
    lemma_aet_index_table(rows);
    assert forall|i: int, j: int|
        0 <= i < rows.len() && i < j < rows.len() implies (#[trigger] rows[j]).id != (
    #[trigger] rows[i]).id && rows[j].index != rows[i].index by {
        if j < i {
            assert(ids[j] < ids[i]);
        } else {
            assert(ids[i] < ids[j]);
        }
    }
    assert forall|id: u32| aet_parents(rows).contains_key(id) <==> db.contains_key(id) by {
        if aet_parents(rows).contains_key(id) {
            let i = choose|i: int| 0 <= i < rows.len() && (#[trigger] rows[i]).id == id;
            assert(ids.contains(ids[i]));
        }
        if db.contains_key(id) {
            assert(ids.contains(id));
            let i = choose|i: int| 0 <= i < ids.len() && ids[i] == id;
            assert(rows[i].id == id);
        }
    }
    assert forall|id: u32| db.contains_key(id) implies aet_parents(rows)[id] == aet_stripped(
        db,
    )[id] by {
        assert(ids.contains(id));
        let i = choose|i: int| 0 <= i < ids.len() && ids[i] == id;
        assert(rows[i].id == id);
        assert(aet_parents(rows)[rows[i].id] == aet_bare_set(rows[i]));
    }
    assert(aet_parents(rows) =~= aet_stripped(db));
    assert forall|p: u32| aet_index_table(rows).contains_key(p) <==> p < ids.len() by {
        if aet_index_table(rows).contains_key(p) {
            let i = choose|i: int| 0 <= i < rows.len() && (#[trigger] rows[i]).index == p;
        }
        if p < ids.len() {
            assert(rows[p as int].index == p);
        }
    }
    assert forall|p: u32| p < ids.len() implies #[trigger] aet_index_table(rows)[p] == ids[p as int] by {
        assert(rows[p as int].index == p);
        assert(aet_index_table(rows)[rows[p as int].index] == rows[p as int].id);
    }
}

/// The scenes of `scenes` whose ids are among the first `upto` in ascending
/// order.
spec fn aet_first_scenes(scenes: Map<u32, AetSceneView>, upto: int) -> Map<
    u32,
    AetSceneView,
> {
    Map::new(
        |id: u32|
            exists|q: int|
                0 <= q < upto && q < ascending_u32(scenes.dom()).len() && ascending_u32(
                    scenes.dom(),
                )[q] == id,
        |id: u32| scenes[id],
    )
}

/// Attaching the first `upto` scene records of a set's block to a database
/// in which that set has no scenes yet gives that set those scenes.
proof fn lemma_aet_attach_block(
    sets: Map<u32, AetSetView>,
    table: Map<u32, u32>,
    scenes: Map<u32, AetSceneView>,
    rank: int,
    owner: u32,
    upto: int,
)
    requires
        table.contains_key(aet_parent_index(aet_parent_field(rank))),
        table[aet_parent_index(aet_parent_field(rank))] == owner,
        sets.contains_key(owner),
        sets[owner].scenes == Map::<u32, AetSceneView>::empty(),
        0 <= upto <= ascending_u32(scenes.dom()).len(),
    ensures
        aet_attach_all(sets, table, aet_scene_block(scenes, rank).take(upto)) == sets.insert(
            owner,
            AetSetView { scenes: aet_first_scenes(scenes, upto), ..sets[owner] },
        ),
    decreases upto,
{
    let block = aet_scene_block(scenes, rank);
    let ids = ascending_u32(scenes.dom());
    if upto == 0 {
        assert(block.take(0) =~= Seq::empty());
        assert(aet_first_scenes(scenes, 0) =~= Map::empty());
        assert(sets.insert(owner, AetSetView { scenes: aet_first_scenes(scenes, 0), ..sets[owner] })
            =~= sets);
    } else {
        lemma_aet_attach_block(sets, table, scenes, rank, owner, upto - 1);
        lemma_ascending_u32(scenes.dom());
        let prev = aet_attach_all(sets, table, block.take(upto - 1));
        let row = block[upto - 1];
        assert(block.take(upto).drop_last() =~= block.take(upto - 1));
        assert(block.take(upto).last() == row);
        assert(scenes.dom().contains(ids[upto - 1]));
        assert(aet_first_scenes(scenes, upto) =~= aet_first_scenes(scenes, upto - 1).insert(
            row.id,
            AetSceneView { name: row.name, index: row.index },
        )) by {
            assert forall|id: u32|
                aet_first_scenes(scenes, upto).contains_key(id) <==> aet_first_scenes(
                    scenes,
                    upto - 1,
                ).insert(row.id, AetSceneView { name: row.name, index: row.index }).contains_key(
                    id,
                ) by {
                if aet_first_scenes(scenes, upto).contains_key(id) {
                    let q = choose|q: int| 0 <= q < upto && q < ids.len() && ids[q] == id;
                    if q < upto - 1 {
                        assert(aet_first_scenes(scenes, upto - 1).contains_key(id));
                    }
                }
                if aet_first_scenes(scenes, upto - 1).contains_key(id) {
                    let q = choose|q: int| 0 <= q < upto - 1 && q < ids.len() && ids[q] == id;
                    assert(0 <= q < upto && q < ids.len() && ids[q] == id);
                }
                if id == row.id {
                    assert(0 <= upto - 1 < upto && upto - 1 < ids.len() && ids[upto - 1] == id);
                }
            }
        }
        assert(aet_attach(prev, table, row) =~= sets.insert(
            owner,
            AetSetView { scenes: aet_first_scenes(scenes, upto), ..sets[owner] },
        ));
    }
}

/// The database in which the sets of rank below `upto` have their scenes
/// and the others have none.
spec fn aet_partial(db: Map<u32, AetSetView>, upto: int) -> Map<u32, AetSetView> {
    Map::new(
        |id: u32| db.contains_key(id),
        |id: u32|
            if exists|i: int|
                0 <= i < upto && i < ascending_u32(db.dom()).len() && ascending_u32(db.dom())[i]
                    == id {
                db[id]
            } else {
                aet_stripped(db)[id]
            },
    )
}

/// Whether every set that has scenes has a rank that fits the 12 bits of a
/// parent field.
pub open spec fn aet_ranks_fit(db: Map<u32, AetSetView>) -> bool {
    forall|i: int|
        0x1000 <= i < ascending_u32(db.dom()).len() ==> (#[trigger] db[ascending_u32(
            db.dom(),
        )[i]]).scenes == Map::<u32, AetSceneView>::empty()
}

/// Attaching the scene records of the first `upto` sets to the sets without
/// scenes gives those sets their scenes.
proof fn lemma_aet_round_trip_upto(db: Map<u32, AetSetView>, upto: int)
    requires
        aet_ranks_fit(db),
        0 <= upto <= ascending_u32(db.dom()).len(),
    ensures
        aet_attach_all(
            aet_stripped(db),
            aet_index_table(aet_set_rows(db)),
            aet_scene_rows_upto(db, upto),
        ) == aet_partial(db, upto),
    decreases upto,
{
    let ids = ascending_u32(db.dom());
    let table = aet_index_table(aet_set_rows(db));
    if upto == 0 {
        assert(aet_partial(db, 0) =~= aet_stripped(db));
    } else {
        let rank = upto - 1;
        let owner = ids[rank];
        let before = aet_partial(db, rank);
        let block = aet_scene_block(db[owner].scenes, rank);
        lemma_aet_round_trip_upto(db, rank);
        lemma_ascending_u32(db.dom());
        lemma_aet_set_rows(db);
        lemma_aet_attach_all_concat(
            aet_stripped(db),
            table,
            aet_scene_rows_upto(db, rank),
            block,
        );
        assert(db.contains_key(owner));
        assert(!exists|i: int| 0 <= i < rank && i < ids.len() && ids[i] == owner) by {
            assert forall|i: int| 0 <= i < rank && i < ids.len() implies ids[i] != owner by {
                assert(ids[i] < ids[rank]);
            }
        }
        assert(before[owner] == aet_stripped(db)[owner]);
        assert forall|id: u32| db.contains_key(id) implies (aet_partial(db, upto)[id] == if id
            == owner {
            db[owner]
        } else {
            before[id]
        }) by {
            if id == owner {
                assert(0 <= rank < upto && rank < ids.len() && ids[rank] == id);
            } else {
                if exists|i: int| 0 <= i < upto && i < ids.len() && ids[i] == id {
                    let i = choose|i: int| 0 <= i < upto && i < ids.len() && ids[i] == id;
                    assert(0 <= i < rank && i < ids.len() && ids[i] == id);
                }
                if exists|i: int| 0 <= i < rank && i < ids.len() && ids[i] == id {
                    let i = choose|i: int| 0 <= i < rank && i < ids.len() && ids[i] == id;
                    assert(0 <= i < upto && i < ids.len() && ids[i] == id);
                }
            }
        }
        if rank < 0x1000 {
            lemma_aet_parent_field(rank);
            let scene_ids = ascending_u32(db[owner].scenes.dom());
            lemma_ascending_u32(db[owner].scenes.dom());
            assert(table.contains_key(rank as u32));
            assert(table[rank as u32] == ids[rank]);
            lemma_aet_attach_block(
                before,
                table,
                db[owner].scenes,
                rank,
                owner,
                scene_ids.len() as int,
            );
            assert(block.take(scene_ids.len() as int) =~= block);
            assert(aet_first_scenes(db[owner].scenes, scene_ids.len() as int)
                =~= db[owner].scenes) by {
                assert forall|id: u32|
                    aet_first_scenes(db[owner].scenes, scene_ids.len() as int).contains_key(id)
                        <==> db[owner].scenes.contains_key(id) by {
                    if db[owner].scenes.contains_key(id) {
                        assert(scene_ids.contains(id));
                        let q = choose|q: int| 0 <= q < scene_ids.len() && scene_ids[q] == id;
                        assert(0 <= q < scene_ids.len() && q < scene_ids.len() && scene_ids[q]
                            == id);
                    }
                    if aet_first_scenes(db[owner].scenes, scene_ids.len() as int).contains_key(
                        id,
                    ) {
                        let q = choose|q: int|
                            0 <= q < scene_ids.len() && q < scene_ids.len() && scene_ids[q]
                                == id;
                        assert(scene_ids.contains(scene_ids[q]));
                    }
                }
            }
            assert(before.insert(
                owner,
                AetSetView {
                    scenes: aet_first_scenes(db[owner].scenes, scene_ids.len() as int),
                    ..before[owner]
                },
            ) =~= aet_partial(db, upto));
        } else {
            assert(db[ids[rank]].scenes == Map::<u32, AetSceneView>::empty());
            assert(db[owner].scenes.dom() =~= Set::empty());
            lemma_ascending_u32(db[owner].scenes.dom());
            let scene_ids = ascending_u32(db[owner].scenes.dom());
            if scene_ids.len() > 0 {
                assert(scene_ids.contains(scene_ids[0]));
            }
            assert(block =~= Seq::empty());
            assert(db[owner] == aet_stripped(db)[owner]);
            assert(before =~= aet_partial(db, upto));
        }
    }
}

/// Encoding then decoding gives the database back, for every database in
/// which the sets that have scenes have ranks below 4096, the most that the
/// 12 bits of a parent field can name.
pub proof fn lemma_aet_round_trip(db: Map<u32, AetSetView>)
    requires
        aet_ranks_fit(db),
    ensures
        aet_decode(aet_set_rows(db), aet_scene_rows(db)) == db,
{
    let ids = ascending_u32(db.dom());
    lemma_aet_set_rows(db);
    lemma_aet_round_trip_upto(db, ids.len() as int);
    lemma_ascending_u32(db.dom());
    assert forall|id: u32| db.contains_key(id) implies aet_partial(db, ids.len() as int)[id]
        == db[id] by {
        assert(ids.contains(id));
        let i = choose|i: int| 0 <= i < ids.len() && ids[i] == id;
        assert(0 <= i < ids.len() && i < ids.len() && ids[i] == id);
    }
    assert(aet_partial(db, ids.len() as int) =~= db);
}

/// Scene records none of which resolves to the set `id` leave that set as
/// it was.
proof fn lemma_aet_untouched(
    sets: Map<u32, AetSetView>,
    table: Map<u32, u32>,
    rows: Seq<AetSceneRow>,
    id: u32,
)
    requires
        forall|k: int|
            0 <= k < rows.len() && table.contains_key(
                aet_parent_index((#[trigger] rows[k]).set_index),
            ) ==> table[aet_parent_index(rows[k].set_index)] != id,
    ensures
        aet_attach_all(sets, table, rows).contains_key(id) == sets.contains_key(id),
        aet_attach_all(sets, table, rows)[id] == sets[id],
    decreases rows.len(),
{
    if rows.len() > 0 {
        let front = rows.drop_last();
        assert forall|k: int|
            0 <= k < front.len() && table.contains_key(
                aet_parent_index((#[trigger] front[k]).set_index),
            ) implies table[aet_parent_index(front[k].set_index)] != id by {
            assert(front[k] == rows[k]);
        }
        lemma_aet_untouched(sets, table, front, id);
        assert(rows.last() == rows[rows.len() - 1]);
    }
}

/// Whatever its rank, a parent field resolves to a positional index below
/// 4096.
pub proof fn lemma_aet_parent_index_bound(set_index: u16)
    ensures
        aet_parent_index(set_index) < 0x1000,
{
    assert(set_index & 0x0FFF < 0x1000) by (bit_vector);
}

/// The condition of `lemma_aet_round_trip` leaves out no database that
/// comes back: where a set of rank 4096 or above has scenes, encoding then
/// decoding gives another database, in which that set has none.
pub proof fn lemma_aet_round_trip_needs_fit(db: Map<u32, AetSetView>)
    requires
        !aet_ranks_fit(db),
    ensures
        aet_decode(aet_set_rows(db), aet_scene_rows(db)) != db,
{
    let ids = ascending_u32(db.dom());
    let rows = aet_scene_rows(db);
    let table = aet_index_table(aet_set_rows(db));
    let i = choose|i: int|
        0x1000 <= i < ids.len() && (#[trigger] db[ids[i]]).scenes != Map::<
            u32,
            AetSceneView,
        >::empty();
    let id = ids[i];
    lemma_ascending_u32(db.dom());
    lemma_aet_set_rows(db);
    assert forall|k: int|
        0 <= k < rows.len() && table.contains_key(
            aet_parent_index((#[trigger] rows[k]).set_index),
        ) implies table[aet_parent_index(rows[k].set_index)] != id by {
        let p = aet_parent_index(rows[k].set_index);
        lemma_aet_parent_index_bound(rows[k].set_index);
        assert(table[p] == ids[p as int]);
        assert(ids[p as int] < ids[i]);
    }
    lemma_aet_untouched(aet_stripped(db), table, rows, id);
    assert(aet_stripped(db)[id].scenes == Map::<u32, AetSceneView>::empty());
}

/// The round trip holds through the fields too: the rows of fields that the
/// two tables of a database are written as are read back as that database.
pub proof fn lemma_aet_field_round_trip(db: Map<u32, AetSetView>)
    requires
        aet_ranks_fit(db),
    ensures
        aet_from_rows(
            field_rows::<AetSetRecord>(aet_set_rows(db)),
            field_rows::<AetSceneRecord>(aet_scene_rows(db)),
        ) == Some(db),
{
    lemma_parse_field_rows::<AetSetRecord>(aet_set_rows(db));
    lemma_parse_field_rows::<AetSceneRecord>(aet_scene_rows(db));
    lemma_aet_round_trip(db);
}

/// Whether a scene record is one of the scene `scene_id` of the set
/// `set_id`: it has that id, and its parent field resolves to that set by
/// the side table.
pub open spec fn aet_scene_goes_to(
    table: Map<u32, u32>,
    row: AetSceneRow,
    set_id: u32,
    scene_id: u32,
) -> bool {
    &&& row.id == scene_id
    &&& table.contains_key(aet_parent_index(row.set_index))
    &&& table[aet_parent_index(row.set_index)] == set_id
}

/// Which scenes a set without scenes has after scene records are attached.
proof fn lemma_aet_attached_scenes(
    sets: Map<u32, AetSetView>,
    table: Map<u32, u32>,
    rows: Seq<AetSceneRow>,
    set_id: u32,
    scene_id: u32,
)
    requires
        sets.contains_key(set_id),
        sets[set_id].scenes == Map::<u32, AetSceneView>::empty(),
    ensures
        aet_attach_all(sets, table, rows)[set_id].scenes.contains_key(scene_id) <==> exists|k: int|
            0 <= k < rows.len() && aet_scene_goes_to(table, #[trigger] rows[k], set_id, scene_id),
        forall|k: int|
            0 <= k < rows.len() && aet_scene_goes_to(table, #[trigger] rows[k], set_id, scene_id)
                && (forall|j: int|
                k < j < rows.len() ==> !aet_scene_goes_to(
                    table,
                    #[trigger] rows[j],
                    set_id,
                    scene_id,
                )) ==> aet_attach_all(sets, table, rows)[set_id].scenes[scene_id]
                == (AetSceneView { name: rows[k].name, index: rows[k].index }),
    decreases rows.len(),
{
    if rows.len() > 0 {
        let front = rows.drop_last();
        let prev = aet_attach_all(sets, table, front);
        let last = rows.last();
        let out = aet_attach_all(sets, table, rows);
        lemma_aet_attached_scenes(sets, table, front, set_id, scene_id);
        lemma_aet_attach_all_dom(sets, table, front);
        assert(prev.contains_key(set_id));
        assert(last == rows[rows.len() - 1]);
        if aet_scene_goes_to(table, last, set_id, scene_id) {
            assert(out[set_id].scenes.contains_key(scene_id));
            assert forall|k: int|
                0 <= k < rows.len() && aet_scene_goes_to(
                    table,
                    #[trigger] rows[k],
                    set_id,
                    scene_id,
                ) && (forall|j: int|
                    k < j < rows.len() ==> !aet_scene_goes_to(
                        table,
                        #[trigger] rows[j],
                        set_id,
                        scene_id,
                    )) implies out[set_id].scenes[scene_id] == (AetSceneView {
                name: rows[k].name,
                index: rows[k].index,
            }) by {
                if k < rows.len() - 1 {
                    assert(!aet_scene_goes_to(table, rows[rows.len() - 1], set_id, scene_id));
                }
            }
        } else {
            assert(out[set_id].scenes.contains_key(scene_id) == prev[set_id].scenes.contains_key(
                scene_id,
            ));
            assert(prev[set_id].scenes.contains_key(scene_id) ==> out[set_id].scenes[scene_id]
                == prev[set_id].scenes[scene_id]);
            if prev[set_id].scenes.contains_key(scene_id) {
                let k = choose|k: int|
                    0 <= k < front.len() && aet_scene_goes_to(
                        table,
                        #[trigger] front[k],
                        set_id,
                        scene_id,
                    );
                assert(rows[k] == front[k]);
            }
            if exists|k: int|
                0 <= k < rows.len() && aet_scene_goes_to(
                    table,
                    #[trigger] rows[k],
                    set_id,
                    scene_id,
                ) {
                let k = choose|k: int|
                    0 <= k < rows.len() && aet_scene_goes_to(
                        table,
                        #[trigger] rows[k],
                        set_id,
                        scene_id,
                    );
                assert(front[k] == rows[k]);
            }
            assert forall|k: int|
                0 <= k < rows.len() && aet_scene_goes_to(
                    table,
                    #[trigger] rows[k],
                    set_id,
                    scene_id,
                ) && (forall|j: int|
                    k < j < rows.len() ==> !aet_scene_goes_to(
                        table,
                        #[trigger] rows[j],
                        set_id,
                        scene_id,
                    )) implies out[set_id].scenes[scene_id] == (AetSceneView {
                name: rows[k].name,
                index: rows[k].index,
            }) by {
                assert(front[k] == rows[k]);
                assert forall|j: int| k < j < front.len() implies !aet_scene_goes_to(
                    table,
                    #[trigger] front[j],
                    set_id,
                    scene_id,
                ) by {
                    assert(front[j] == rows[j]);
                }
                assert(prev[set_id].scenes.contains_key(scene_id));
            }
        }
    }
}

/// The sets of a set table have no scenes before the scene table is read.
proof fn lemma_aet_parents_bare(rows: Seq<AetSetRow>)
    ensures
        forall|id: u32| #[trigger]
            aet_parents(rows).contains_key(id) ==> aet_parents(rows)[id].scenes == Map::<
                u32,
                AetSceneView,
            >::empty(),
    decreases rows.len(),
{
    if rows.len() > 0 {
        let front = rows.drop_last();
        lemma_aet_parents_bare(front);
        assert forall|id: u32| #[trigger]
            aet_parents(rows).contains_key(id) implies aet_parents(rows)[id].scenes == Map::<
            u32,
            AetSceneView,
        >::empty() by {
            if id != rows.last().id {
                assert(aet_parents(front).contains_key(id));
            }
        }
    }
}

/// The scenes of a decoded set are exactly the ids of the scene records
/// whose parent field resolves to that set, and a scene has the fields of
/// the last such record with its id.
pub proof fn lemma_aet_decoded_scenes(
    sets: Seq<AetSetRow>,
    scenes: Seq<AetSceneRow>,
    set_id: u32,
    scene_id: u32,
)
    requires
        aet_decode(sets, scenes).contains_key(set_id),
    ensures
        aet_decode(sets, scenes)[set_id].scenes.contains_key(scene_id) <==> exists|k: int|
            0 <= k < scenes.len() && aet_scene_goes_to(
                aet_index_table(sets),
                #[trigger] scenes[k],
                set_id,
                scene_id,
            ),
        forall|k: int|
            0 <= k < scenes.len() && aet_scene_goes_to(
                aet_index_table(sets),
                #[trigger] scenes[k],
                set_id,
                scene_id,
            ) && (forall|j: int|
                k < j < scenes.len() ==> !aet_scene_goes_to(
                    aet_index_table(sets),
                    #[trigger] scenes[j],
                    set_id,
                    scene_id,
                )) ==> aet_decode(sets, scenes)[set_id].scenes[scene_id] == (AetSceneView {
                name: scenes[k].name,
                index: scenes[k].index,
            }),
{
    lemma_aet_attach_all_dom(aet_parents(sets), aet_index_table(sets), scenes);
    lemma_aet_parents_bare(sets);
    assert(aet_parents(sets).contains_key(set_id));
    lemma_aet_attached_scenes(aet_parents(sets), aet_index_table(sets), scenes, set_id, scene_id);
}

} // verus!
