use diva_db::spr::{pack_parent, unpack_parent, SprDb, SprEntry, SprEntryRecord, SprSet, SprSetRecord};
use std::collections::BTreeMap;

fn set_record(id: u32, name: &str, filename: &str, index: u32) -> SprSetRecord {
    SprSetRecord { id, name: String::from(name), filename: String::from(filename), index }
}

fn entry_record(id: u32, name: &str, index: u16, set_index: u16) -> SprEntryRecord {
    SprEntryRecord { id, name: String::from(name), index, set_index }
}

fn entry(index: u16, name: &str) -> SprEntry {
    SprEntry { index, name: String::from(name) }
}

fn sample_database() -> SprDb {
    let mut db = SprDb::default();
    let mut first = SprSet {
        name: String::from("SPR_GAM"),
        filename: String::from("spr_gam.bin"),
        sprites: BTreeMap::new(),
        textures: BTreeMap::new(),
    };
    first.sprites.insert(20, entry(1, "SPR_GAM_B"));
    first.sprites.insert(10, entry(0, "SPR_GAM_A"));
    first.textures.insert(10, entry(0, "SPRTEX_GAM_A"));
    let mut second = SprSet {
        name: String::from("SPR_CMN"),
        filename: String::from("spr_cmn.bin"),
        sprites: BTreeMap::new(),
        textures: BTreeMap::new(),
    };
    second.textures.insert(7, entry(3, "SPRTEX_CMN_X"));
    second.textures.insert(5, entry(2, "SPRTEX_CMN_W"));
    second.sprites.insert(6, entry(9, "SPR_CMN_Y"));
    db.sets.insert(300, first);
    db.sets.insert(2, second);
    db.sets.insert(150, SprSet::default());
    db
}

#[test]
fn spr_sprite_and_texture_with_one_id_do_not_collide() {
    let sets = vec![set_record(1, "set", "set.bin", 0)];
    let entries = vec![entry_record(1, "a", 0, 0x0000), entry_record(1, "b", 0, 0x1000)];
    let db = SprDb::decode(&sets, &entries);
    let set = &db.sets[&1];
    assert_eq!(set.sprites.len(), 1);
    assert_eq!(set.textures.len(), 1);
    assert_eq!(set.sprites[&1], entry(0, "a"));
    assert_eq!(set.textures[&1], entry(0, "b"));
    assert_eq!(db.entry_records(), entries);
}

#[test]
fn spr_parent_field_packs_rank_and_texture_bit() {
    assert_eq!(pack_parent(0, false), 0x0000);
    assert_eq!(pack_parent(0, true), 0x1000);
    assert_eq!(pack_parent(5, false), 0x0005);
    assert_eq!(pack_parent(5, true), 0x1005);
    assert_eq!(pack_parent(0x0FFF, false), 0x0FFF);
    assert_eq!(pack_parent(0x0FFF, true), 0x1FFF);
}

#[test]
fn spr_parent_field_keeps_bits_13_to_15_clear() {
    assert_eq!(pack_parent(0x1000, false), 0x0000);
    assert_eq!(pack_parent(0x1001, true), 0x1001);
    assert_eq!(pack_parent(0xFFFF, false), 0x0FFF);
    assert_eq!(pack_parent(0x12345, true), 0x1345);
}

#[test]
fn spr_parent_field_unpacks_to_index_and_texture_bit() {
    assert_eq!(unpack_parent(0x0000), (0, false));
    assert_eq!(unpack_parent(0x1000), (0, true));
    assert_eq!(unpack_parent(0x0ABC), (0xABC, false));
    assert_eq!(unpack_parent(0x1ABC), (0xABC, true));
    assert_eq!(unpack_parent(0xEFFF), (0xFFF, false));
    assert_eq!(unpack_parent(0xFFFF), (0xFFF, true));
    for rank in [0usize, 1, 77, 4095] {
        for texture in [false, true] {
            assert_eq!(unpack_parent(pack_parent(rank, texture)), (rank as u32, texture));
        }
    }
}

#[test]
fn spr_texture_bit_chooses_the_collection() {
    let sets = vec![set_record(8, "set", "set.bin", 3)];
    let entries = vec![
        entry_record(1, "sprite", 4, 0x0003),
        entry_record(2, "texture", 5, 0x1003),
        entry_record(3, "high bits", 6, 0xE003),
        entry_record(4, "all bits", 7, 0xF003),
    ];
    let db = SprDb::decode(&sets, &entries);
    let set = &db.sets[&8];
    assert_eq!(set.sprites.len(), 2);
    assert_eq!(set.textures.len(), 2);
    assert_eq!(set.sprites[&1], entry(4, "sprite"));
    assert_eq!(set.sprites[&3], entry(6, "high bits"));
    assert_eq!(set.textures[&2], entry(5, "texture"));
    assert_eq!(set.textures[&4], entry(7, "all bits"));
}

#[test]
fn spr_entry_without_a_set_is_dropped() {
    let sets = vec![set_record(8, "set", "set.bin", 3)];
    let entries = vec![
        entry_record(1, "lost sprite", 0, 0x0004),
        entry_record(2, "kept", 1, 0x0003),
        entry_record(3, "lost texture", 2, 0x1002),
    ];
    let db = SprDb::decode(&sets, &entries);
    let set = &db.sets[&8];
    assert_eq!(set.sprites.len(), 1);
    assert_eq!(set.sprites[&2], entry(1, "kept"));
    assert!(set.textures.is_empty());
}

#[test]
fn spr_positional_indices_do_not_matter() {
    let first = SprDb::decode(
        &vec![set_record(9, "a", "a.bin", 0), set_record(3, "b", "b.bin", 1)],
        &vec![entry_record(10, "x", 1, 0x0000), entry_record(11, "y", 2, 0x1001)],
    );
    let second = SprDb::decode(
        &vec![set_record(9, "a", "a.bin", 4000), set_record(3, "b", "b.bin", 12)],
        &vec![entry_record(10, "x", 1, 0x0FA0), entry_record(11, "y", 2, 0x100C)],
    );
    assert_eq!(first, second);
    assert_eq!(first.sets[&9].sprites[&10], entry(1, "x"));
    assert_eq!(first.sets[&3].textures[&11], entry(2, "y"));
}

#[test]
fn spr_sprites_are_written_before_textures_set_by_set() {
    let db = sample_database();
    assert_eq!(
        db.set_records(),
        vec![
            set_record(2, "SPR_CMN", "spr_cmn.bin", 0),
            set_record(150, "", "", 1),
            set_record(300, "SPR_GAM", "spr_gam.bin", 2),
        ]
    );
    assert_eq!(
        db.entry_records(),
        vec![
            entry_record(6, "SPR_CMN_Y", 9, 0x0000),
            entry_record(5, "SPRTEX_CMN_W", 2, 0x1000),
            entry_record(7, "SPRTEX_CMN_X", 3, 0x1000),
            entry_record(10, "SPR_GAM_A", 0, 0x0002),
            entry_record(20, "SPR_GAM_B", 1, 0x0002),
            entry_record(10, "SPRTEX_GAM_A", 0, 0x1002),
        ]
    );
}

#[test]
fn spr_entry_count_is_the_sum_over_both_collections() {
    let db = sample_database();
    let total: usize = db.sets.values().map(|set| set.sprites.len() + set.textures.len()).sum();
    assert_eq!(total, 6);
    assert_eq!(db.entry_records().len(), total);
}

#[test]
fn spr_encoding_then_decoding_gives_the_database_back() {
    let db = sample_database();
    let again = SprDb::decode(&db.set_records(), &db.entry_records());
    assert_eq!(again, db);
}

#[test]
fn spr_encoding_writes_the_texture_bit_of_each_collection() {
    let db = sample_database();
    for record in db.entry_records() {
        let (index, texture) = unpack_parent(record.set_index);
        let (_, set) = db.sets.iter().nth(index as usize).unwrap();
        let collection = if texture { &set.textures } else { &set.sprites };
        assert_eq!(collection[&record.id], entry(record.index, &record.name));
        assert_eq!(record.set_index & 0xE000, 0);
    }
}
