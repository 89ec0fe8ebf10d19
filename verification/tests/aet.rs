use diva_db::aet::{AetDb, AetScene, AetSceneRecord, AetSet, AetSetRecord};
use std::collections::BTreeMap;

fn set_record(id: u32, name: &str, filename: &str, index: u32, sprite_set_id: u32) -> AetSetRecord {
    AetSetRecord {
        id,
        name: String::from(name),
        filename: String::from(filename),
        index,
        sprite_set_id,
    }
}

fn scene_record(id: u32, name: &str, index: u16, set_index: u16) -> AetSceneRecord {
    AetSceneRecord { id, name: String::from(name), index, set_index }
}

fn intro_database() -> AetDb {
    let mut scenes = BTreeMap::new();
    scenes.insert(100, AetScene { name: String::from("fade_in"), index: 0 });
    let mut sets = BTreeMap::new();
    sets.insert(
        5,
        AetSet {
            name: String::from("intro"),
            filename: String::from("intro.bin"),
            sprite_set_id: 2,
            scenes,
        },
    );
    AetDb { sets }
}

fn sample_database() -> AetDb {
    let mut db = AetDb::default();
    for (id, name, sprite_set_id, scenes) in [
        (40u32, "menu", 7u32, vec![(3u32, "open", 1u16), (1, "close", 0)]),
        (7, "title", 9, vec![]),
        (1000, "result", 0, vec![(1, "win", 5), (2, "lose", 6), (0xFFFF_FFFF, "draw", 0xFFFF)]),
    ] {
        let mut set = AetSet {
            name: String::from(name),
            filename: format!("{}.bin", name),
            sprite_set_id,
            scenes: BTreeMap::new(),
        };
        for (scene_id, scene_name, index) in scenes {
            set.scenes.insert(scene_id, AetScene { name: String::from(scene_name), index });
        }
        db.sets.insert(id, set);
    }
    db
}

#[test]
fn aet_decodes_one_set_with_one_scene() {
    let sets = vec![set_record(5, "intro", "intro.bin", 7, 2)];
    let scenes = vec![scene_record(100, "fade_in", 0, 7)];
    let db = AetDb::decode(&sets, &scenes);
    assert_eq!(db, intro_database());
}

#[test]
fn aet_encoding_recomputes_the_positional_index() {
    let sets = vec![set_record(5, "intro", "intro.bin", 7, 2)];
    let scenes = vec![scene_record(100, "fade_in", 0, 7)];
    let db = AetDb::decode(&sets, &scenes);
    let set_records = db.set_records();
    let scene_records = db.scene_records();
    assert_eq!(set_records, vec![set_record(5, "intro", "intro.bin", 0, 2)]);
    assert_eq!(scene_records, vec![scene_record(100, "fade_in", 0, 0)]);
    let again = AetDb::decode(&set_records, &scene_records);
    assert_eq!(again, intro_database());
}

#[test]
fn aet_empty_tables_decode_to_an_empty_database() {
    let db = AetDb::decode(&Vec::new(), &Vec::new());
    assert!(db.sets.is_empty());
    assert!(db.set_records().is_empty());
    assert!(db.scene_records().is_empty());
}

#[test]
fn aet_scene_without_a_set_is_dropped() {
    let sets = vec![set_record(5, "intro", "intro.bin", 7, 2)];
    let scenes = vec![
        scene_record(1, "lost", 3, 8),
        scene_record(100, "fade_in", 0, 7),
        scene_record(2, "stray", 4, 0),
    ];
    let db = AetDb::decode(&sets, &scenes);
    assert_eq!(db, intro_database());
}

#[test]
fn aet_only_the_low_12_bits_of_the_parent_field_count() {
    let sets = vec![set_record(5, "intro", "intro.bin", 7, 2)];
    let scenes = vec![scene_record(100, "fade_in", 0, 0xF007)];
    let db = AetDb::decode(&sets, &scenes);
    assert_eq!(db, intro_database());
    let far = vec![set_record(5, "intro", "intro.bin", 0x1007, 2)];
    let db = AetDb::decode(&far, &scenes);
    assert!(db.sets[&5].scenes.is_empty());
}

#[test]
fn aet_positional_indices_do_not_matter() {
    let first = AetDb::decode(
        &vec![set_record(9, "a", "a.bin", 0, 1), set_record(3, "b", "b.bin", 1, 2)],
        &vec![scene_record(10, "x", 1, 0), scene_record(11, "y", 2, 1), scene_record(12, "z", 3, 5)],
    );
    let second = AetDb::decode(
        &vec![set_record(9, "a", "a.bin", 700, 1), set_record(3, "b", "b.bin", 4, 2)],
        &vec![
            scene_record(10, "x", 1, 700),
            scene_record(11, "y", 2, 4),
            scene_record(12, "z", 3, 9),
        ],
    );
    assert_eq!(first, second);
    assert_eq!(first.sets[&9].scenes[&10].name, "x");
    assert_eq!(first.sets[&3].scenes[&11].name, "y");
    assert_eq!(first.sets[&9].scenes.len() + first.sets[&3].scenes.len(), 2);
}

#[test]
fn aet_later_record_with_the_same_id_stays() {
    let sets = vec![set_record(5, "old", "old.bin", 0, 1), set_record(5, "new", "new.bin", 1, 2)];
    let scenes = vec![
        scene_record(1, "first", 1, 0),
        scene_record(1, "second", 2, 1),
        scene_record(2, "other", 3, 0),
    ];
    let db = AetDb::decode(&sets, &scenes);
    assert_eq!(db.sets.len(), 1);
    let set = &db.sets[&5];
    assert_eq!(set.name, "new");
    assert_eq!(set.filename, "new.bin");
    assert_eq!(set.sprite_set_id, 2);
    assert_eq!(set.scenes.len(), 2);
    assert_eq!(set.scenes[&1], AetScene { name: String::from("second"), index: 2 });
    assert_eq!(set.scenes[&2], AetScene { name: String::from("other"), index: 3 });
}

#[test]
fn aet_tables_are_written_in_ascending_id_order() {
    let db = sample_database();
    assert_eq!(
        db.set_records(),
        vec![
            set_record(7, "title", "title.bin", 0, 9),
            set_record(40, "menu", "menu.bin", 1, 7),
            set_record(1000, "result", "result.bin", 2, 0),
        ]
    );
    assert_eq!(
        db.scene_records(),
        vec![
            scene_record(1, "close", 0, 1),
            scene_record(3, "open", 1, 1),
            scene_record(1, "win", 5, 2),
            scene_record(2, "lose", 6, 2),
            scene_record(0xFFFF_FFFF, "draw", 0xFFFF, 2),
        ]
    );
}

#[test]
fn aet_encoding_then_decoding_gives_the_database_back() {
    let db = sample_database();
    let again = AetDb::decode(&db.set_records(), &db.scene_records());
    assert_eq!(again, db);
    assert_eq!(again.set_records(), db.set_records());
    assert_eq!(again.scene_records(), db.scene_records());
}

#[test]
fn aet_scenes_of_a_set_of_rank_4096_do_not_come_back() {
    let mut db = AetDb::default();
    for id in 0..4097u32 {
        db.sets.insert(id * 2, AetSet::default());
    }
    db.sets.get_mut(&8192).unwrap().scenes.insert(1, AetScene { name: String::from("late"), index: 0 });
    let scene_records = db.scene_records();
    assert_eq!(scene_records, vec![scene_record(1, "late", 0, 0x1000)]);
    let set_records = db.set_records();
    assert_eq!(set_records.len(), 4097);
    assert_eq!(set_records[4096].id, 8192);
    assert_eq!(set_records[4096].index, 4096);
    let again = AetDb::decode(&set_records, &scene_records);
    assert!(again.sets[&8192].scenes.is_empty());
    assert_eq!(again.sets[&0].scenes[&1].name, "late");
}
