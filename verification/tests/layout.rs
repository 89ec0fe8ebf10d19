use diva_db::aet::{AetDb, AetScene, AetSceneRecord, AetSet, AetSetRecord};
use diva_db::layout::{Field, FileStep, Kind, Record, Section, Step, ALIGNMENT};
use diva_db::obj::{ObjDb, ObjObjectRecord, ObjSet, ObjSetRecord};
use diva_db::spr::{SprDb, SprEntry, SprEntryRecord, SprSet, SprSetRecord};
use diva_db::tex::{TexDb, TexRecord};
use std::collections::BTreeMap;

fn count(value: u32) -> FileStep {
    FileStep::Field(Field::U32(value))
}

fn u32_step(value: u32) -> Step {
    Step::Field(Field::U32(value))
}

fn u16_step(value: u16) -> Step {
    Step::Field(Field::U16(value))
}

fn text_step(text: &str) -> Step {
    Step::Field(Field::Text(String::from(text)))
}

fn text(text: &str) -> Field {
    Field::Text(String::from(text))
}

#[test]
fn layout_alignment_is_16_bytes() {
    assert_eq!(ALIGNMENT, 16);
}

#[test]
fn layout_field_knows_its_kind() {
    assert_eq!(Field::U32(7).kind(), Kind::U32);
    assert_eq!(Field::U16(7).kind(), Kind::U16);
    assert_eq!(text("seven").kind(), Kind::Text);
    assert_eq!(Field::Reserved(16).kind(), Kind::Reserved(16));
}

#[test]
fn layout_aet_records_have_their_fields_in_table_order() {
    assert_eq!(AetSetRecord::kinds(), vec![Kind::U32, Kind::Text, Kind::Text, Kind::U32, Kind::U32]);
    assert_eq!(AetSceneRecord::kinds(), vec![Kind::U32, Kind::Text, Kind::U16, Kind::U16]);
    let set = AetSetRecord {
        id: 5,
        name: String::from("intro"),
        filename: String::from("intro.bin"),
        index: 7,
        sprite_set_id: 2,
    };
    let fields = vec![Field::U32(5), text("intro"), text("intro.bin"), Field::U32(7), Field::U32(2)];
    assert_eq!(set.fields(), fields);
    assert_eq!(AetSetRecord::from_fields(&fields), Some(set));
    let scene = AetSceneRecord { id: 100, name: String::from("fade_in"), index: 3, set_index: 7 };
    let fields = vec![Field::U32(100), text("fade_in"), Field::U16(3), Field::U16(7)];
    assert_eq!(scene.fields(), fields);
    assert_eq!(AetSceneRecord::from_fields(&fields), Some(scene));
}

#[test]
fn layout_spr_records_have_their_fields_in_table_order() {
    assert_eq!(SprSetRecord::kinds(), vec![Kind::U32, Kind::Text, Kind::Text, Kind::U32]);
    assert_eq!(SprEntryRecord::kinds(), vec![Kind::U32, Kind::Text, Kind::U16, Kind::U16]);
    let set = SprSetRecord {
        id: 5,
        name: String::from("set"),
        filename: String::from("set.bin"),
        index: 7,
    };
    let fields = vec![Field::U32(5), text("set"), text("set.bin"), Field::U32(7)];
    assert_eq!(set.fields(), fields);
    assert_eq!(SprSetRecord::from_fields(&fields), Some(set));
    let entry = SprEntryRecord { id: 9, name: String::from("tex"), index: 3, set_index: 0x1007 };
    let fields = vec![Field::U32(9), text("tex"), Field::U16(3), Field::U16(0x1007)];
    assert_eq!(entry.fields(), fields);
    assert_eq!(SprEntryRecord::from_fields(&fields), Some(entry));
}

#[test]
fn layout_obj_records_have_their_fields_in_table_order() {
    assert_eq!(
        ObjSetRecord::kinds(),
        vec![Kind::Text, Kind::U32, Kind::Text, Kind::Text, Kind::Text, Kind::Reserved(16)]
    );
    assert_eq!(ObjObjectRecord::kinds(), vec![Kind::U16, Kind::U16, Kind::Text]);
    let set = ObjSetRecord {
        name: String::from("stg"),
        id: 30,
        object_filename: String::from("stg_obj.bin"),
        texture_filename: String::from("stg_tex.bin"),
        archive_filename: String::from("stg.farc"),
    };
    let fields = vec![
        text("stg"),
        Field::U32(30),
        text("stg_obj.bin"),
        text("stg_tex.bin"),
        text("stg.farc"),
        Field::Reserved(16),
    ];
    assert_eq!(set.fields(), fields);
    assert_eq!(ObjSetRecord::from_fields(&fields), Some(set));
    let object = ObjObjectRecord { id: 1, set_id: 30, name: String::from("wall") };
    let fields = vec![Field::U16(1), Field::U16(30), text("wall")];
    assert_eq!(object.fields(), fields);
    assert_eq!(ObjObjectRecord::from_fields(&fields), Some(object));
}

#[test]
fn layout_tex_record_has_its_fields_in_table_order() {
    assert_eq!(TexRecord::kinds(), vec![Kind::U32, Kind::Text]);
    let record = TexRecord { id: 4, name: String::from("four") };
    let fields = vec![Field::U32(4), text("four")];
    assert_eq!(record.fields(), fields);
    assert_eq!(TexRecord::from_fields(&fields), Some(record));
}

#[test]
fn layout_row_of_another_layout_is_no_record() {
    assert_eq!(TexRecord::from_fields(&vec![]), None);
    assert_eq!(TexRecord::from_fields(&vec![Field::U32(4)]), None);
    assert_eq!(TexRecord::from_fields(&vec![text("four"), Field::U32(4)]), None);
    assert_eq!(TexRecord::from_fields(&vec![Field::U16(4), text("four")]), None);
    assert_eq!(TexRecord::from_fields(&vec![Field::U32(4), text("four"), Field::U32(0)]), None);
    assert_eq!(
        AetSceneRecord::from_fields(&vec![Field::U32(1), text("x"), Field::U16(0), Field::U32(0)]),
        None
    );
    assert_eq!(
        ObjSetRecord::from_fields(&vec![
            text("stg"),
            Field::U32(30),
            text("a"),
            text("b"),
            text("c"),
            Field::Reserved(8),
        ]),
        None
    );
    assert_eq!(
        ObjSetRecord::from_fields(&vec![text("stg"), Field::U32(30), text("a"), text("b"), text("c")]),
        None
    );
}

#[test]
fn layout_read_plans_name_the_tables_of_each_file() {
    assert_eq!(
        AetDb::read_plan(),
        vec![
            Section { skip: 0, kinds: AetSetRecord::kinds() },
            Section { skip: 0, kinds: AetSceneRecord::kinds() },
        ]
    );
    assert_eq!(
        SprDb::read_plan(),
        vec![
            Section { skip: 0, kinds: SprSetRecord::kinds() },
            Section { skip: 0, kinds: SprEntryRecord::kinds() },
        ]
    );
    assert_eq!(
        ObjDb::read_plan(),
        vec![
            Section { skip: 4, kinds: ObjSetRecord::kinds() },
            Section { skip: 0, kinds: ObjObjectRecord::kinds() },
        ]
    );
    assert_eq!(TexDb::read_plan(), vec![Section { skip: 0, kinds: TexRecord::kinds() }]);
}

#[test]
fn layout_aet_file_is_two_counted_blocks_and_a_closing() {
    let mut scenes = BTreeMap::new();
    scenes.insert(100, AetScene { name: String::from("fade_in"), index: 0 });
    let mut db = AetDb::default();
    db.sets.insert(
        5,
        AetSet {
            name: String::from("intro"),
            filename: String::from("intro.bin"),
            sprite_set_id: 2,
            scenes,
        },
    );
    assert_eq!(
        db.write_plan(),
        Some(vec![
            count(1),
            FileStep::Block(vec![
                u32_step(5),
                text_step("intro"),
                text_step("intro.bin"),
                u32_step(0),
                u32_step(2),
                Step::Align(16),
            ]),
            count(1),
            FileStep::Block(vec![
                u32_step(100),
                text_step("fade_in"),
                u16_step(0),
                u16_step(0),
                Step::Align(16),
            ]),
            FileStep::Align(16),
            FileStep::Finish,
            FileStep::Align(16),
        ])
    );
}

#[test]
fn layout_empty_obj_file_has_zero_count_and_zero_hint() {
    assert_eq!(
        ObjDb::default().write_plan(),
        Some(vec![
            count(0),
            count(0),
            FileStep::Block(vec![Step::Align(16)]),
            count(0),
            FileStep::Block(vec![Step::Align(16), Step::Align(16)]),
            FileStep::Align(16),
            FileStep::Finish,
            FileStep::Align(16),
        ])
    );
}

#[test]
fn layout_obj_file_pads_before_the_first_object() {
    let mut objects = BTreeMap::new();
    objects.insert(9u16, String::from("wall"));
    let mut db = ObjDb::default();
    db.sets.insert(
        30,
        ObjSet {
            name: String::from("stg"),
            object_filename: String::from("o"),
            texture_filename: String::from("t"),
            archive_filename: String::from("a"),
            objects,
        },
    );
    assert_eq!(
        db.write_plan(),
        Some(vec![
            count(1),
            count(9),
            FileStep::Block(vec![
                text_step("stg"),
                u32_step(30),
                text_step("o"),
                text_step("t"),
                text_step("a"),
                Step::Field(Field::Reserved(16)),
                Step::Align(16),
            ]),
            count(1),
            FileStep::Block(vec![
                Step::Align(16),
                u16_step(9),
                u16_step(30),
                text_step("wall"),
                Step::Align(16),
            ]),
            FileStep::Align(16),
            FileStep::Finish,
            FileStep::Align(16),
        ])
    );
}

#[test]
fn layout_spr_file_counts_sprites_and_textures_together() {
    let mut set = SprSet {
        name: String::from("set"),
        filename: String::from("set.bin"),
        sprites: BTreeMap::new(),
        textures: BTreeMap::new(),
    };
    set.sprites.insert(1, SprEntry { index: 0, name: String::from("a") });
    set.textures.insert(1, SprEntry { index: 0, name: String::from("b") });
    let mut db = SprDb::default();
    db.sets.insert(8, set);
    assert_eq!(
        db.write_plan(),
        Some(vec![
            count(1),
            FileStep::Block(vec![
                u32_step(8),
                text_step("set"),
                text_step("set.bin"),
                u32_step(0),
                Step::Align(16),
            ]),
            count(2),
            FileStep::Block(vec![
                u32_step(1),
                text_step("a"),
                u16_step(0),
                u16_step(0x0000),
                u32_step(1),
                text_step("b"),
                u16_step(0),
                u16_step(0x1000),
                Step::Align(16),
            ]),
            FileStep::Align(16),
            FileStep::Finish,
            FileStep::Align(16),
            FileStep::Finish,
        ])
    );
}

#[test]
fn layout_tex_file_is_one_counted_block_and_a_closing() {
    let mut db = TexDb::default();
    db.textures.insert(9, String::from("nine"));
    db.textures.insert(2, String::from("two"));
    assert_eq!(
        db.write_plan(),
        Some(vec![
            count(2),
            FileStep::Block(vec![
                u32_step(2),
                text_step("two"),
                u32_step(9),
                text_step("nine"),
                Step::Align(16),
            ]),
            FileStep::Align(16),
            FileStep::Finish,
            FileStep::Align(16),
        ])
    );
}

#[test]
fn layout_rows_read_of_a_file_give_the_database() {
    let sets = vec![vec![Field::U32(5), text("intro"), text("intro.bin"), Field::U32(7), Field::U32(2)]];
    let scenes = vec![
        vec![Field::U32(100), text("fade_in"), Field::U16(0), Field::U16(7)],
        vec![Field::U32(101), text("lost"), Field::U16(1), Field::U16(8)],
    ];
    let db = AetDb::from_rows(&sets, &scenes).unwrap();
    assert_eq!(db.sets.len(), 1);
    assert_eq!(db.sets[&5].name, "intro");
    assert_eq!(db.sets[&5].scenes.len(), 1);
    assert_eq!(db.sets[&5].scenes[&100].name, "fade_in");
    let records = vec![AetSetRecord::from_fields(&sets[0]).unwrap()];
    let scene_records: Vec<AetSceneRecord> =
        scenes.iter().map(|row| AetSceneRecord::from_fields(row).unwrap()).collect();
    assert_eq!(db, AetDb::decode(&records, &scene_records));
}

#[test]
fn layout_rows_of_another_layout_give_no_database() {
    let good_set = vec![Field::U32(5), text("set"), text("set.bin"), Field::U32(0)];
    let good_entry = vec![Field::U32(1), text("a"), Field::U16(0), Field::U16(0)];
    let bad_entry = vec![Field::U32(1), text("a"), Field::U16(0)];
    assert!(SprDb::from_rows(&vec![good_set.clone()], &vec![good_entry.clone()]).is_some());
    assert_eq!(SprDb::from_rows(&vec![good_set.clone()], &vec![good_entry.clone(), bad_entry]), None);
    assert_eq!(SprDb::from_rows(&vec![good_entry.clone()], &vec![good_entry]), None);
    assert_eq!(TexDb::from_rows(&vec![vec![Field::U32(1)]]), None);
    assert_eq!(ObjDb::from_rows(&vec![good_set], &vec![]), None);
    assert_eq!(ObjDb::from_rows(&vec![], &vec![]), Some(ObjDb::default()));
    assert_eq!(TexDb::from_rows(&vec![]), Some(TexDb::default()));
}
