//! What holds of the object codec: which sets a pair of tables decodes to,
//! that unresolved objects leave no trace, that a database has one hint, and
//! that encoding then decoding gives the database back.

use crate::obj::{
    obj_attach, obj_attach_all, obj_bare_set, obj_decode, obj_is_max_id_hint, obj_object_block,
    obj_object_rows, obj_object_rows_upto, obj_parents, obj_set_rows, obj_stripped,
    ObjObjectRecord, ObjObjectRow, ObjSetRecord, ObjSetRow, ObjSetView,
};
use crate::layout::{field_rows, lemma_parse_field_rows};
use crate::obj_layout::obj_from_rows;
use crate::order::{ascending_u16, ascending_u32, lemma_ascending_u16, lemma_ascending_u32};
use vstd::prelude::*;

verus! {

/// Attaching objects never adds or removes a set, and changes nothing of a
/// set but its objects.
pub proof fn lemma_obj_attach_all_dom(sets: Map<u32, ObjSetView>, rows: Seq<ObjObjectRow>)
    ensures
        obj_attach_all(sets, rows).dom() == sets.dom(),
        forall|id: u32| #[trigger]
            sets.contains_key(id) ==> {
                &&& obj_attach_all(sets, rows)[id].name == sets[id].name
                &&& obj_attach_all(sets, rows)[id].object_filename == sets[id].object_filename
                &&& obj_attach_all(sets, rows)[id].texture_filename == sets[id].texture_filename
                &&& obj_attach_all(sets, rows)[id].archive_filename == sets[id].archive_filename
            },
    decreases rows.len(),
{
    if rows.len() > 0 {
        lemma_obj_attach_all_dom(sets, rows.drop_last());
        let prev = obj_attach_all(sets, rows.drop_last());
        assert(obj_attach(prev, rows.last()).dom() =~= prev.dom());
        assert forall|id: u32| #[trigger] sets.contains_key(id) implies {
            &&& obj_attach_all(sets, rows)[id].name == sets[id].name
            &&& obj_attach_all(sets, rows)[id].object_filename == sets[id].object_filename
            &&& obj_attach_all(sets, rows)[id].texture_filename == sets[id].texture_filename
            &&& obj_attach_all(sets, rows)[id].archive_filename == sets[id].archive_filename
        } by {
            assert(prev.contains_key(id));
        }
    }
}

/// Attaching two runs of object records one after the other is attaching
/// their concatenation.
pub proof fn lemma_obj_attach_all_concat(
    sets: Map<u32, ObjSetView>,
    first: Seq<ObjObjectRow>,
    second: Seq<ObjObjectRow>,
)
    ensures
        obj_attach_all(sets, first + second) == obj_attach_all(
            obj_attach_all(sets, first),
            second,
        ),
    decreases second.len(),
{
    if second.len() == 0 {
        assert(first + second =~= first);
    } else {
        lemma_obj_attach_all_concat(sets, first, second.drop_last());
        assert((first + second).drop_last() =~= first + second.drop_last());
        assert((first + second).last() == second.last());
    }
}

/// The sets of a decoded database are exactly the ids of the set table, and
/// a set has the fields of the last record with its id.
pub proof fn lemma_obj_parents(rows: Seq<ObjSetRow>)
    ensures
        forall|id: u32|
            obj_parents(rows).contains_key(id) <==> exists|i: int|
                0 <= i < rows.len() && (#[trigger] rows[i]).id == id,
        forall|i: int|
            0 <= i < rows.len() && (forall|j: int|
                i < j < rows.len() ==> (#[trigger] rows[j]).id != rows[i].id)
                ==> obj_parents(rows)[(#[trigger] rows[i]).id] == obj_bare_set(rows[i]),
    decreases rows.len(),
{
    if rows.len() > 0 {
        let front = rows.drop_last();
        lemma_obj_parents(front);
        assert forall|id: u32|
            obj_parents(rows).contains_key(id) <==> exists|i: int|
                0 <= i < rows.len() && (#[trigger] rows[i]).id == id by {
            if obj_parents(rows).contains_key(id) {
                if id == rows.last().id {
                    assert(rows[rows.len() - 1].id == id);
                } else {
                    assert(obj_parents(front).contains_key(id));
                    let i = choose|i: int| 0 <= i < front.len() && (#[trigger] front[i]).id == id;
                    assert(rows[i] == front[i]);
                }
            }
            if exists|i: int| 0 <= i < rows.len() && (#[trigger] rows[i]).id == id {
                let i = choose|i: int| 0 <= i < rows.len() && (#[trigger] rows[i]).id == id;
                if i < front.len() {
                    assert(front[i].id == id);
                    assert(obj_parents(front).contains_key(id));
                }
            }
        }
        assert forall|i: int|
            0 <= i < rows.len() && (forall|j: int|
                i < j < rows.len() ==> (#[trigger] rows[j]).id
                    != rows[i].id) implies obj_parents(rows)[(#[trigger] rows[i]).id]
            == obj_bare_set(rows[i]) by {
            if i < front.len() {
                assert(rows[rows.len() - 1].id != rows[i].id);
                assert(front[i] == rows[i]);
                assert forall|j: int| i < j < front.len() implies (#[trigger] front[j]).id
                    != front[i].id by {
                    assert(rows[j].id != rows[i].id);
                }
            }
        }
    }
}

/// An object record whose parent field holds the id of no set of the set
/// table leaves no trace: with it or without it, at whatever place of the
/// object table, the tables decode to the same database.
pub proof fn lemma_obj_orphan_dropped(
    sets: Seq<ObjSetRow>,
    objects: Seq<ObjObjectRow>,
    at: int,
    orphan: ObjObjectRow,
)
    requires
        0 <= at <= objects.len(),
        !obj_parents(sets).contains_key(orphan.set_id as u32),
    ensures
        obj_decode(sets, objects.insert(at, orphan)) == obj_decode(sets, objects),
{
    let parents = obj_parents(sets);
    let before = objects.take(at);
    let after = objects.skip(at);
    assert(objects.insert(at, orphan) =~= before.push(orphan) + after);
    assert(objects =~= before + after);
    lemma_obj_attach_all_concat(parents, before.push(orphan), after);
    lemma_obj_attach_all_concat(parents, before, after);
    assert(before.push(orphan).drop_last() =~= before);
    lemma_obj_attach_all_dom(parents, before);
}

/// A database has at most one hint.
pub proof fn lemma_obj_max_id_hint_unique(db: Map<u32, ObjSetView>, a: u32, b: u32)
    requires
        obj_is_max_id_hint(db, a),
        obj_is_max_id_hint(db, b),
    ensures
        a == b,
{
}

/// The hint of a database without objects is 0.
pub proof fn lemma_obj_max_id_hint_empty(db: Map<u32, ObjSetView>, hint: u32)
    requires
        obj_is_max_id_hint(db, hint),
        forall|set_id: u32, id: u16|
            db.contains_key(set_id) ==> !(#[trigger] db[set_id].objects.contains_key(id)),
    ensures
        hint == 0,
{
}

/// The set table of a database decodes to its sets without their objects.
pub proof fn lemma_obj_set_rows(db: Map<u32, ObjSetView>)
    ensures
        obj_parents(obj_set_rows(db)) == obj_stripped(db),
{
    let ids = ascending_u32(db.dom());
    let rows = obj_set_rows(db);
    lemma_ascending_u32(db.dom());
    lemma_obj_parents(rows);
    assert forall|i: int, j: int|
        0 <= i < rows.len() && i < j < rows.len() implies (#[trigger] rows[j]).id != (
    #[trigger] rows[i]).id by {
        if j < i {
            assert(ids[j] < ids[i]);
        } else {
            assert(ids[i] < ids[j]);
        }
    }
    assert forall|id: u32| obj_parents(rows).contains_key(id) <==> db.contains_key(id) by {
        if obj_parents(rows).contains_key(id) {
            let i = choose|i: int| 0 <= i < rows.len() && (#[trigger] rows[i]).id == id;
            assert(ids.contains(ids[i]));
        }
        if db.contains_key(id) {
            assert(ids.contains(id));
            let i = choose|i: int| 0 <= i < ids.len() && ids[i] == id;
            assert(rows[i].id == id);
        }
    }
    assert forall|id: u32| db.contains_key(id) implies obj_parents(rows)[id] == obj_stripped(
        db,
    )[id] by {
        assert(ids.contains(id));
        let i = choose|i: int| 0 <= i < ids.len() && ids[i] == id;
        assert(rows[i].id == id);
        assert(obj_parents(rows)[rows[i].id] == obj_bare_set(rows[i]));
    }
    assert(obj_parents(rows) =~= obj_stripped(db));
}

/// The objects of `objects` whose ids are among the first `upto` in
/// ascending order.
spec fn obj_first_objects(objects: Map<u16, Seq<char>>, upto: int) -> Map<
    u16,
    Seq<char>,
> {
    Map::new(
        |id: u16|
            exists|q: int|
                0 <= q < upto && q < ascending_u16(objects.dom()).len() && ascending_u16(
                    objects.dom(),
                )[q] == id,
        |id: u16| objects[id],
    )
}

/// The first `upto` objects in ascending order are all of them once `upto`
/// reaches their number.
proof fn lemma_obj_first_objects_all(objects: Map<u16, Seq<char>>)
    ensures
        obj_first_objects(objects, ascending_u16(objects.dom()).len() as int) == objects,
{
    let ids = ascending_u16(objects.dom());
    let all = obj_first_objects(objects, ids.len() as int);
    lemma_ascending_u16(objects.dom());
    assert forall|id: u16| all.contains_key(id) <==> objects.contains_key(id) by {
        if objects.contains_key(id) {
            assert(ids.contains(id));
            let q = choose|q: int| 0 <= q < ids.len() && ids[q] == id;
            assert(0 <= q < ids.len() && q < ids.len() && ids[q] == id);
        }
        if all.contains_key(id) {
            let q = choose|q: int| 0 <= q < ids.len() && q < ids.len() && ids[q] == id;
            assert(ids.contains(ids[q]));
        }
    }
    assert(all =~= objects);
}

/// Attaching the first `upto` object records of a set's block to a database
/// in which that set has no objects yet gives that set those objects.
proof fn lemma_obj_attach_block(
    sets: Map<u32, ObjSetView>,
    objects: Map<u16, Seq<char>>,
    owner: u32,
    upto: int,
)
    requires
        owner <= 0xFFFF,
        sets.contains_key(owner),
        sets[owner].objects == Map::<u16, Seq<char>>::empty(),
        0 <= upto <= ascending_u16(objects.dom()).len(),
    ensures
        obj_attach_all(sets, obj_object_block(objects, owner).take(upto)) == sets.insert(
            owner,
            ObjSetView { objects: obj_first_objects(objects, upto), ..sets[owner] },
        ),
    decreases upto,
{
    let block = obj_object_block(objects, owner);
    let ids = ascending_u16(objects.dom());
    if upto == 0 {
        assert(block.take(0) =~= Seq::empty());
        assert(obj_first_objects(objects, 0) =~= Map::empty());
        assert(sets.insert(
            owner,
            ObjSetView { objects: obj_first_objects(objects, 0), ..sets[owner] },
        ) =~= sets);
    } else {
        lemma_obj_attach_block(sets, objects, owner, upto - 1);
        lemma_ascending_u16(objects.dom());
        let prev = obj_attach_all(sets, block.take(upto - 1));
        let row = block[upto - 1];
        assert(block.take(upto).drop_last() =~= block.take(upto - 1));
        assert(block.take(upto).last() == row);
        assert(objects.dom().contains(ids[upto - 1]));
        assert(row.set_id as u32 == owner);
        assert(obj_first_objects(objects, upto) =~= obj_first_objects(objects, upto - 1).insert(
            row.id,
            row.name,
        )) by {
            assert forall|id: u16|
                obj_first_objects(objects, upto).contains_key(id) <==> obj_first_objects(
                    objects,
                    upto - 1,
                ).insert(row.id, row.name).contains_key(id) by {
                if obj_first_objects(objects, upto).contains_key(id) {
                    let q = choose|q: int| 0 <= q < upto && q < ids.len() && ids[q] == id;
                    if q < upto - 1 {
                        assert(obj_first_objects(objects, upto - 1).contains_key(id));
                    }
                }
                if obj_first_objects(objects, upto - 1).contains_key(id) {
                    let q = choose|q: int| 0 <= q < upto - 1 && q < ids.len() && ids[q] == id;
                    assert(0 <= q < upto && q < ids.len() && ids[q] == id);
                }
                if id == row.id {
                    assert(0 <= upto - 1 < upto && upto - 1 < ids.len() && ids[upto - 1] == id);
                }
            }
        }
        assert(obj_attach(prev, row) =~= sets.insert(
            owner,
            ObjSetView { objects: obj_first_objects(objects, upto), ..sets[owner] },
        ));
    }
}

/// The database in which the sets of rank below `upto` have their objects
/// and the others have none.
spec fn obj_partial(db: Map<u32, ObjSetView>, upto: int) -> Map<u32, ObjSetView> {
    Map::new(
        |id: u32| db.contains_key(id),
        |id: u32|
            if exists|i: int|
                0 <= i < upto && i < ascending_u32(db.dom()).len() && ascending_u32(db.dom())[i]
                    == id {
                db[id]
            } else {
                obj_stripped(db)[id]
            },
    )
}

/// Whether every set that has objects has an id that fits the 16 bits of a
/// parent field.
pub open spec fn obj_ids_fit(db: Map<u32, ObjSetView>) -> bool {
    forall|id: u32|
        db.contains_key(id) && id > 0xFFFF ==> (#[trigger] db[id]).objects == Map::<
            u16,
            Seq<char>,
        >::empty()
}

/// Attaching the object records of the first `upto` sets to the sets
/// without objects gives those sets their objects.
proof fn lemma_obj_round_trip_upto(db: Map<u32, ObjSetView>, upto: int)
    requires
        obj_ids_fit(db),
        0 <= upto <= ascending_u32(db.dom()).len(),
    ensures
        obj_attach_all(obj_stripped(db), obj_object_rows_upto(db, upto)) == obj_partial(db, upto),
    decreases upto,
{
    let ids = ascending_u32(db.dom());
    if upto == 0 {
        assert(obj_partial(db, 0) =~= obj_stripped(db));
    } else {
        let rank = upto - 1;
        let owner = ids[rank];
        let before = obj_partial(db, rank);
        let block = obj_object_block(db[owner].objects, owner);
        lemma_obj_round_trip_upto(db, rank);
        lemma_ascending_u32(db.dom());
        lemma_obj_attach_all_concat(obj_stripped(db), obj_object_rows_upto(db, rank), block);
        assert(db.contains_key(owner));
        assert(!exists|i: int| 0 <= i < rank && i < ids.len() && ids[i] == owner) by {
            assert forall|i: int| 0 <= i < rank && i < ids.len() implies ids[i] != owner by {
                assert(ids[i] < ids[rank]);
            }
        }
        assert(before[owner] == obj_stripped(db)[owner]);
        assert forall|id: u32| db.contains_key(id) implies (obj_partial(db, upto)[id] == if id
            == owner {
            db[owner]
        } else {
            before[id]
        }) by {
            if id == owner {
                assert(0 <= rank < upto && rank < ids.len() && ids[rank] == id);
            } else {
                if exists|i: int| 0 <= i < upto && i < ids.len() && ids[i] == id {
                    let i = choose|i: int| 0 <= i < upto && i < ids.len() && ids[i] == id;
                    assert(0 <= i < rank && i < ids.len() && ids[i] == id);
                }
                if exists|i: int| 0 <= i < rank && i < ids.len() && ids[i] == id {
                    let i = choose|i: int| 0 <= i < rank && i < ids.len() && ids[i] == id;
                    assert(0 <= i < upto && i < ids.len() && ids[i] == id);
                }
            }
        }
        if owner <= 0xFFFF {
            let count = ascending_u16(db[owner].objects.dom()).len() as int;
            lemma_obj_attach_block(before, db[owner].objects, owner, count);
            assert(block.take(count) =~= block);
            lemma_obj_first_objects_all(db[owner].objects);
            assert(before.insert(owner, ObjSetView { objects: db[owner].objects, ..before[owner] })
                =~= obj_partial(db, upto));
        } else {
            assert(db[owner].objects == Map::<u16, Seq<char>>::empty());
            assert(db[owner].objects.dom() =~= Set::empty());
            lemma_ascending_u16(db[owner].objects.dom());
            let object_ids = ascending_u16(db[owner].objects.dom());
            if object_ids.len() > 0 {
                assert(object_ids.contains(object_ids[0]));
            }
            assert(block =~= Seq::empty());
            assert(db[owner] == obj_stripped(db)[owner]);
            assert(before =~= obj_partial(db, upto));
        }
    }
}

/// Encoding then decoding gives the database back, for every database in
/// which the sets that have objects have ids below 65536, the most that the
/// 16 bits of a parent field can name.
pub proof fn lemma_obj_round_trip(db: Map<u32, ObjSetView>)
    requires
        obj_ids_fit(db),
    ensures
        obj_decode(obj_set_rows(db), obj_object_rows(db)) == db,
{
    let ids = ascending_u32(db.dom());
    lemma_obj_set_rows(db);
    lemma_obj_round_trip_upto(db, ids.len() as int);
    lemma_ascending_u32(db.dom());
    assert forall|id: u32| db.contains_key(id) implies obj_partial(db, ids.len() as int)[id]
        == db[id] by {
        assert(ids.contains(id));
        let i = choose|i: int| 0 <= i < ids.len() && ids[i] == id;
        assert(0 <= i < ids.len() && i < ids.len() && ids[i] == id);
    }
    assert(obj_partial(db, ids.len() as int) =~= db);
}

/// Object records none of which names the set `id` leave that set as it
/// was.
proof fn lemma_obj_untouched(sets: Map<u32, ObjSetView>, rows: Seq<ObjObjectRow>, id: u32)
    requires
        forall|k: int| 0 <= k < rows.len() ==> (#[trigger] rows[k]).set_id as u32 != id,
    ensures
        obj_attach_all(sets, rows).contains_key(id) == sets.contains_key(id),
        obj_attach_all(sets, rows)[id] == sets[id],
    decreases rows.len(),
{
    if rows.len() > 0 {
        let front = rows.drop_last();
        assert forall|k: int| 0 <= k < front.len() implies (#[trigger] front[k]).set_id as u32
            != id by {
            assert(front[k] == rows[k]);
        }
        lemma_obj_untouched(sets, front, id);
        assert(rows.last() == rows[rows.len() - 1]);
    }
}

/// The condition of `lemma_obj_round_trip` leaves out no database that
/// comes back: where a set with an id of 65536 or above has objects,
/// encoding then decoding gives another database, in which that set has
/// none.
pub proof fn lemma_obj_round_trip_needs_fit(db: Map<u32, ObjSetView>)
    requires
        !obj_ids_fit(db),
    ensures
        obj_decode(obj_set_rows(db), obj_object_rows(db)) != db,
{
    let rows = obj_object_rows(db);
    let id = choose|id: u32|
        db.contains_key(id) && id > 0xFFFF && (#[trigger] db[id]).objects != Map::<
            u16,
            Seq<char>,
        >::empty();
    lemma_obj_set_rows(db);
    lemma_obj_untouched(obj_stripped(db), rows, id);
    assert(obj_stripped(db)[id].objects == Map::<u16, Seq<char>>::empty());
}

/// The round trip holds through the fields too: the rows of fields that the
/// two tables of a database are written as are read back as that database.
pub proof fn lemma_obj_field_round_trip(db: Map<u32, ObjSetView>)
    requires
        obj_ids_fit(db),
    ensures
        obj_from_rows(
            field_rows::<ObjSetRecord>(obj_set_rows(db)),
            field_rows::<ObjObjectRecord>(obj_object_rows(db)),
        ) == Some(db),
{
    lemma_parse_field_rows::<ObjSetRecord>(obj_set_rows(db));
    lemma_parse_field_rows::<ObjObjectRecord>(obj_object_rows(db));
    lemma_obj_round_trip(db);
}

/// Whether an object record is one of the object `object_id` of the set
/// `set_id`: it has that id, and its parent field holds the id of that set.
pub open spec fn obj_object_goes_to(row: ObjObjectRow, set_id: u32, object_id: u16) -> bool {
    row.id == object_id && row.set_id as u32 == set_id
}

/// What one more object record does to the objects of the set `set_id`.
proof fn lemma_obj_attach_object(
    sets: Map<u32, ObjSetView>,
    row: ObjObjectRow,
    set_id: u32,
    object_id: u16,
)
    requires
        sets.contains_key(set_id),
    ensures
        obj_object_goes_to(row, set_id, object_id) ==> {
            &&& obj_attach(sets, row)[set_id].objects.contains_key(object_id)
            &&& obj_attach(sets, row)[set_id].objects[object_id] == row.name
        },
        !obj_object_goes_to(row, set_id, object_id) ==> {
            &&& obj_attach(sets, row)[set_id].objects.contains_key(object_id)
                == sets[set_id].objects.contains_key(object_id)
            &&& obj_attach(sets, row)[set_id].objects[object_id] == sets[set_id].objects[object_id]
        },
{
}

/// Which objects a set without objects has after object records are
/// attached.
proof fn lemma_obj_attached_objects(
    sets: Map<u32, ObjSetView>,
    rows: Seq<ObjObjectRow>,
    set_id: u32,
    object_id: u16,
)
    requires
        sets.contains_key(set_id),
        sets[set_id].objects == Map::<u16, Seq<char>>::empty(),
    ensures
        obj_attach_all(sets, rows)[set_id].objects.contains_key(object_id) <==> exists|k: int|
            0 <= k < rows.len() && obj_object_goes_to(#[trigger] rows[k], set_id, object_id),
        forall|k: int|
            0 <= k < rows.len() && obj_object_goes_to(#[trigger] rows[k], set_id, object_id)
                && (forall|j: int|
                k < j < rows.len() ==> !obj_object_goes_to(#[trigger] rows[j], set_id, object_id))
                ==> obj_attach_all(sets, rows)[set_id].objects[object_id] == rows[k].name,
    decreases rows.len(),
{
    if rows.len() > 0 {
        let front = rows.drop_last();
        let before = obj_attach_all(sets, front);
        let prev = before[set_id].objects;
        let last = rows.last();
        let out = obj_attach_all(sets, rows)[set_id].objects;
        lemma_obj_attached_objects(sets, front, set_id, object_id);
        lemma_obj_attach_all_dom(sets, front);
        assert(before.contains_key(set_id));
        lemma_obj_attach_object(before, last, set_id, object_id);
        assert(obj_attach_all(sets, rows) == obj_attach(before, last));
        assert(last == rows[rows.len() - 1]);
        let hit = obj_object_goes_to(last, set_id, object_id);
        assert(out.contains_key(object_id) <==> exists|k: int|
            0 <= k < rows.len() && obj_object_goes_to(#[trigger] rows[k], set_id, object_id)) by {
            if !hit {
                if prev.contains_key(object_id) {
                    let k = choose|k: int|
                        0 <= k < front.len() && obj_object_goes_to(
                            #[trigger] front[k],
                            set_id,
                            object_id,
                        );
                    assert(rows[k] == front[k]);
                }
                if exists|k: int|
                    0 <= k < rows.len() && obj_object_goes_to(
                        #[trigger] rows[k],
                        set_id,
                        object_id,
                    ) {
                    let k = choose|k: int|
                        0 <= k < rows.len() && obj_object_goes_to(
                            #[trigger] rows[k],
                            set_id,
                            object_id,
                        );
                    assert(front[k] == rows[k]);
                }
            }
        }
        assert forall|k: int|
            0 <= k < rows.len() && obj_object_goes_to(#[trigger] rows[k], set_id, object_id)
                && (forall|j: int|
                k < j < rows.len() ==> !obj_object_goes_to(
                    #[trigger] rows[j],
                    set_id,
                    object_id,
                )) implies out[object_id] == rows[k].name by {
            if k < rows.len() - 1 {
                assert(!obj_object_goes_to(rows[rows.len() - 1], set_id, object_id));
                assert(front[k] == rows[k]);
                assert forall|j: int| k < j < front.len() implies !obj_object_goes_to(
                    #[trigger] front[j],
                    set_id,
                    object_id,
                ) by {
                    assert(front[j] == rows[j]);
                }
            }
        }
    }
}

/// The sets of a set table have no objects before the object table is
/// read.
proof fn lemma_obj_parents_bare(rows: Seq<ObjSetRow>)
    ensures
        forall|id: u32| #[trigger]
            obj_parents(rows).contains_key(id) ==> obj_parents(rows)[id].objects == Map::<
                u16,
                Seq<char>,
            >::empty(),
    decreases rows.len(),
{
    if rows.len() > 0 {
        let front = rows.drop_last();
        lemma_obj_parents_bare(front);
        assert forall|id: u32| #[trigger]
            obj_parents(rows).contains_key(id) implies obj_parents(rows)[id].objects == Map::<
            u16,
            Seq<char>,
        >::empty() by {
            if id != rows.last().id {
                assert(obj_parents(front).contains_key(id));
            }
        }
    }
}

/// The objects of a decoded set are exactly the ids of the object records
/// whose parent field holds the id of that set, and an object has the name
/// of the last such record with its id.
pub proof fn lemma_obj_decoded_objects(
    sets: Seq<ObjSetRow>,
    objects: Seq<ObjObjectRow>,
    set_id: u32,
    object_id: u16,
)
    requires
        obj_decode(sets, objects).contains_key(set_id),
    ensures
        obj_decode(sets, objects)[set_id].objects.contains_key(object_id) <==> exists|k: int|
            0 <= k < objects.len() && obj_object_goes_to(#[trigger] objects[k], set_id, object_id),
        forall|k: int|
            0 <= k < objects.len() && obj_object_goes_to(#[trigger] objects[k], set_id, object_id)
                && (forall|j: int|
                k < j < objects.len() ==> !obj_object_goes_to(
                    #[trigger] objects[j],
                    set_id,
                    object_id,
                )) ==> obj_decode(sets, objects)[set_id].objects[object_id] == objects[k].name,
{
    lemma_obj_attach_all_dom(obj_parents(sets), objects);
    lemma_obj_parents_bare(sets);
    assert(obj_parents(sets).contains_key(set_id));
    lemma_obj_attached_objects(obj_parents(sets), objects, set_id, object_id);
}

} // verus!
