use diva_db::obj::{ObjDb, ObjObjectRecord, ObjSet, ObjSetRecord, OBJ_SET_RESERVED_BYTES};
use std::collections::BTreeMap;

fn set_record(name: &str, id: u32) -> ObjSetRecord {
    ObjSetRecord {
        name: String::from(name),
        id,
        object_filename: format!("{}_obj.bin", name),
        texture_filename: format!("{}_tex.bin", name),
        archive_filename: format!("{}.farc", name),
    }
}

fn object_record(id: u16, set_id: u16, name: &str) -> ObjObjectRecord {
    ObjObjectRecord { id, set_id, name: String::from(name) }
}

fn set(name: &str, objects: &[(u16, &str)]) -> ObjSet {
    let mut map = BTreeMap::new();
    for (id, object) in objects {
        map.insert(*id, String::from(*object));
    }
    ObjSet {
        name: String::from(name),
        object_filename: format!("{}_obj.bin", name),
        texture_filename: format!("{}_tex.bin", name),
        archive_filename: format!("{}.farc", name),
        objects: map,
    }
}

fn sample_database() -> ObjDb {
    let mut db = ObjDb::default();
    db.sets.insert(30, set("stgpv", &[(2, "floor"), (1, "wall")]));
    db.sets.insert(4, set("mikitm", &[(700, "hat")]));
    db.sets.insert(12, set("cmn", &[]));
    db
}

#[test]
fn obj_database_without_sets_has_an_empty_header() {
    let db = ObjDb::default();
    assert_eq!(db.set_records().len(), 0);
    assert_eq!(db.max_id_hint(), 0);
    assert!(db.object_records().is_empty());
    let again = ObjDb::decode(&db.set_records(), &db.object_records());
    assert!(again.sets.is_empty());
}

#[test]
fn obj_hint_is_the_largest_object_id() {
    assert_eq!(sample_database().max_id_hint(), 700);
    let mut db = ObjDb::default();
    db.sets.insert(1, set("empty", &[]));
    assert_eq!(db.max_id_hint(), 0);
    db.sets.insert(2, set("zero", &[(0, "origin")]));
    assert_eq!(db.max_id_hint(), 0);
    db.sets.insert(3, set("some", &[(5, "a"), (9, "b")]));
    assert_eq!(db.max_id_hint(), 9);
    db.sets.insert(0, set("top", &[(0xFFFF, "last")]));
    assert_eq!(db.max_id_hint(), 0xFFFF);
}

#[test]
fn obj_set_record_is_followed_by_16_reserved_bytes() {
    assert_eq!(OBJ_SET_RESERVED_BYTES, 16);
}

#[test]
fn obj_objects_name_their_set_by_id() {
    let sets = vec![set_record("stgpv", 30), set_record("cmn", 12)];
    let objects = vec![object_record(1, 30, "wall"), object_record(2, 30, "floor")];
    let db = ObjDb::decode(&sets, &objects);
    assert_eq!(db.sets.len(), 2);
    assert_eq!(db.sets[&30], set("stgpv", &[(1, "wall"), (2, "floor")]));
    assert_eq!(db.sets[&12], set("cmn", &[]));
}

#[test]
fn obj_object_without_a_set_is_dropped() {
    let sets = vec![set_record("stgpv", 30)];
    let objects = vec![
        object_record(9, 31, "lost"),
        object_record(1, 30, "wall"),
        object_record(8, 0, "stray"),
    ];
    let db = ObjDb::decode(&sets, &objects);
    assert_eq!(db.sets.len(), 1);
    assert_eq!(db.sets[&30], set("stgpv", &[(1, "wall")]));
}

#[test]
fn obj_later_record_with_the_same_id_stays() {
    let sets = vec![set_record("old", 30), set_record("new", 30)];
    let objects = vec![object_record(1, 30, "first"), object_record(1, 30, "second")];
    let db = ObjDb::decode(&sets, &objects);
    assert_eq!(db.sets.len(), 1);
    assert_eq!(db.sets[&30], set("new", &[(1, "second")]));
}

#[test]
fn obj_tables_are_written_in_ascending_id_order() {
    let db = sample_database();
    assert_eq!(
        db.set_records(),
        vec![set_record("mikitm", 4), set_record("cmn", 12), set_record("stgpv", 30)]
    );
    assert_eq!(
        db.object_records(),
        vec![
            object_record(700, 4, "hat"),
            object_record(1, 30, "wall"),
            object_record(2, 30, "floor"),
        ]
    );
}

#[test]
fn obj_encoding_then_decoding_gives_the_database_back() {
    let db = sample_database();
    let again = ObjDb::decode(&db.set_records(), &db.object_records());
    assert_eq!(again, db);
    assert_eq!(again.max_id_hint(), db.max_id_hint());
}

#[test]
fn obj_set_id_above_16_bits_is_cut_in_the_parent_field() {
    let mut db = ObjDb::default();
    db.sets.insert(0x1_0005, set("far", &[(1, "thing")]));
    db.sets.insert(5, set("near", &[]));
    assert_eq!(db.object_records(), vec![object_record(1, 5, "thing")]);
    let again = ObjDb::decode(&db.set_records(), &db.object_records());
    assert!(again.sets[&0x1_0005].objects.is_empty());
    assert_eq!(again.sets[&5].objects[&1], "thing");
}

#[test]
fn obj_set_with_a_large_id_and_no_objects_comes_back() {
    let mut db = ObjDb::default();
    db.sets.insert(0xFFFF_FFFF, set("far", &[]));
    db.sets.insert(0xFFFF, set("edge", &[(0xFFFF, "last")]));
    let again = ObjDb::decode(&db.set_records(), &db.object_records());
    assert_eq!(again, db);
}
