use diva_db::tex::{TexDb, TexRecord};
use diva_db::table::count_field;

fn record(id: u32, name: &str) -> TexRecord {
    TexRecord { id, name: String::from(name) }
}

#[test]
fn tex_table_decodes_to_names_by_id() {
    let db = TexDb::decode(&vec![record(9, "nine"), record(2, "two")]);
    assert_eq!(db.textures.len(), 2);
    assert_eq!(db.textures[&9], "nine");
    assert_eq!(db.textures[&2], "two");
}

#[test]
fn tex_later_record_with_the_same_id_stays() {
    let db = TexDb::decode(&vec![record(9, "old"), record(2, "two"), record(9, "new")]);
    assert_eq!(db.textures.len(), 2);
    assert_eq!(db.textures[&9], "new");
}

#[test]
fn tex_table_is_written_in_ascending_id_order() {
    let db = TexDb::decode(&vec![record(9, "nine"), record(0xFFFF_FFFF, "max"), record(0, "zero")]);
    assert_eq!(db.records(), vec![record(0, "zero"), record(9, "nine"), record(0xFFFF_FFFF, "max")]);
}

#[test]
fn tex_encoding_then_decoding_gives_the_database_back() {
    let mut db = TexDb::default();
    db.textures.insert(77, String::from("F_DIVA_TEX"));
    db.textures.insert(3, String::from(""));
    db.textures.insert(12, String::from("name with spaces"));
    let again = TexDb::decode(&db.records());
    assert_eq!(again, db);
    assert!(TexDb::decode(&TexDb::default().records()).textures.is_empty());
}

#[test]
fn tex_count_field_is_the_length_in_32_bits() {
    assert_eq!(count_field(0), Some(0));
    assert_eq!(count_field(1), Some(1));
    assert_eq!(count_field(4097), Some(4097));
    assert_eq!(count_field(0xFFFF_FFFF), Some(0xFFFF_FFFF));
}

#[test]
fn tex_count_field_refuses_what_32_bits_cannot_count() {
    assert_eq!(count_field(0x1_0000_0000), None);
    assert_eq!(count_field(usize::MAX), None);
}
