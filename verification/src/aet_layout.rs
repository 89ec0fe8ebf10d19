//! How the animation-set database lies in its container: the layout of its
//! two record types, what to read, and the steps that write a file.

use crate::aet::{
    aet_decode, aet_scene_rows, aet_set_rows, AetDb, AetSceneRecord, AetSceneRow, AetSetRecord,
    AetSetRow, AetSetView,
};
use crate::layout::{
    block, block_steps, count_step, kinds_of, parse_rows, read_rows, row_views, Field, FieldView,
    FileStep, FileStepView, Kind, Record, Section, SectionView, ALIGNMENT,
};
use crate::table::{count_field, views};
use vstd::prelude::*;

verus! {

impl Record for AetSetRecord {
    open spec fn layout() -> Seq<Kind> {
        seq![Kind::U32, Kind::Text, Kind::Text, Kind::U32, Kind::U32]
    }

    open spec fn fields_of(row: AetSetRow) -> Seq<FieldView> {
        seq![
            FieldView::U32(row.id),
            FieldView::Text(row.name),
            FieldView::Text(row.filename),
            FieldView::U32(row.index),
            FieldView::U32(row.sprite_set_id),
        ]
    }

    open spec fn parse(fields: Seq<FieldView>) -> Option<AetSetRow> {
        if fields.len() == 5 {
            match (fields[0], fields[1], fields[2], fields[3], fields[4]) {
                (
                    FieldView::U32(id),
                    FieldView::Text(name),
                    FieldView::Text(filename),
                    FieldView::U32(index),
                    FieldView::U32(sprite_set_id),
                ) => Some(AetSetRow { id, name, filename, index, sprite_set_id }),
                _ => None,
            }
        } else {
            None
        }
    }

    fn kinds() -> (kinds: Vec<Kind>) {
        let mut kinds: Vec<Kind> = Vec::new();
        kinds.push(Kind::U32);
        kinds.push(Kind::Text);
        kinds.push(Kind::Text);
        kinds.push(Kind::U32);
        kinds.push(Kind::U32);
        proof {
            assert(kinds@ =~= Self::layout());
        }
        kinds
    }

    fn fields(&self) -> (fields: Vec<Field>) {
        let mut fields: Vec<Field> = Vec::new();
        fields.push(Field::U32(self.id));
        fields.push(Field::Text(self.name.clone()));
        fields.push(Field::Text(self.filename.clone()));
        fields.push(Field::U32(self.index));
        fields.push(Field::U32(self.sprite_set_id));
        proof {
            assert(views(fields@) =~= Self::fields_of(self@));
        }
        fields
    }

    fn from_fields(fields: &Vec<Field>) -> (record: Option<AetSetRecord>) {
        if fields.len() != 5 {
            return None;
        }
        match (&fields[0], &fields[1], &fields[2], &fields[3], &fields[4]) {
            (
                Field::U32(id),
                Field::Text(name),
                Field::Text(filename),
                Field::U32(index),
                Field::U32(sprite_set_id),
            ) => Some(
                AetSetRecord {
                    id: *id,
                    name: name.clone(),
                    filename: filename.clone(),
                    index: *index,
                    sprite_set_id: *sprite_set_id,
                },
            ),
            _ => None,
        }
    }

    proof fn lemma_parse(fields: Seq<FieldView>, row: AetSetRow) {
        if kinds_of(fields) == Self::layout() {
            assert(kinds_of(fields)[0] == Kind::U32);
            assert(kinds_of(fields)[1] == Kind::Text);
            assert(kinds_of(fields)[2] == Kind::Text);
            assert(kinds_of(fields)[3] == Kind::U32);
            assert(kinds_of(fields)[4] == Kind::U32);
        }
        if Self::parse(fields) is Some {
            assert(kinds_of(fields) =~= Self::layout());
        }
        if Self::parse(fields) == Some(row) {
            assert(Self::fields_of(row) =~= fields);
        }
    }
}

impl Record for AetSceneRecord {
    open spec fn layout() -> Seq<Kind> {
        seq![Kind::U32, Kind::Text, Kind::U16, Kind::U16]
    }

    open spec fn fields_of(row: AetSceneRow) -> Seq<FieldView> {
        seq![
            FieldView::U32(row.id),
            FieldView::Text(row.name),
            FieldView::U16(row.index),
            FieldView::U16(row.set_index),
        ]
    }

    open spec fn parse(fields: Seq<FieldView>) -> Option<AetSceneRow> {
        if fields.len() == 4 {
            match (fields[0], fields[1], fields[2], fields[3]) {
                (
                    FieldView::U32(id),
                    FieldView::Text(name),
                    FieldView::U16(index),
                    FieldView::U16(set_index),
                ) => Some(AetSceneRow { id, name, index, set_index }),
                _ => None,
            }
        } else {
            None
        }
    }

    fn kinds() -> (kinds: Vec<Kind>) {
        let mut kinds: Vec<Kind> = Vec::new();
        kinds.push(Kind::U32);
        kinds.push(Kind::Text);
        kinds.push(Kind::U16);
        kinds.push(Kind::U16);
        proof {
            assert(kinds@ =~= Self::layout());
        }
        kinds
    }

    fn fields(&self) -> (fields: Vec<Field>) {
        let mut fields: Vec<Field> = Vec::new();
        fields.push(Field::U32(self.id));
        fields.push(Field::Text(self.name.clone()));
        fields.push(Field::U16(self.index));
        fields.push(Field::U16(self.set_index));
        proof {
            assert(views(fields@) =~= Self::fields_of(self@));
        }
        fields
    }

    fn from_fields(fields: &Vec<Field>) -> (record: Option<AetSceneRecord>) {
        if fields.len() != 4 {
            return None;
        }
        match (&fields[0], &fields[1], &fields[2], &fields[3]) {
            (Field::U32(id), Field::Text(name), Field::U16(index), Field::U16(set_index)) => Some(
                AetSceneRecord { id: *id, name: name.clone(), index: *index, set_index: *set_index },
            ),
            _ => None,
        }
    }

    proof fn lemma_parse(fields: Seq<FieldView>, row: AetSceneRow) {
        if kinds_of(fields) == Self::layout() {
            assert(kinds_of(fields).len() == 4);
            assert(kinds_of(fields)[0] == Kind::U32);
            assert(kinds_of(fields)[1] == Kind::Text);
            assert(kinds_of(fields)[2] == Kind::U16);
            assert(kinds_of(fields)[3] == Kind::U16);
            assert(fields[0] is U32 && fields[1] is Text && fields[2] is U16 && fields[3] is U16);
            assert(Self::parse(fields) is Some);
        }
        if Self::parse(fields) is Some {
            assert(kinds_of(fields) =~= Self::layout());
        }
        if Self::parse(fields) == Some(row) {
            assert(Self::fields_of(row) =~= fields);
        }
    }
}

/// What to read of a file: the set table, then the scene table.
pub open spec fn aet_read_plan() -> Seq<SectionView> {
    seq![
        SectionView { skip: 0, kinds: AetSetRecord::layout() },
        SectionView { skip: 0, kinds: AetSceneRecord::layout() },
    ]
}

/// The database that the rows of the two tables stand for, or `None` where
/// a row is not of the layout of its table.
pub open spec fn aet_from_rows(sets: Seq<Seq<FieldView>>, scenes: Seq<Seq<FieldView>>) -> Option<
    Map<u32, AetSetView>,
> {
    match (parse_rows::<AetSetRecord>(sets), parse_rows::<AetSceneRecord>(scenes)) {
        (Some(sets), Some(scenes)) => Some(aet_decode(sets, scenes)),
        _ => None,
    }
}

/// The steps that write the file of a database: the count of sets and the
/// block of the set table, the count of scenes and the block of the scene
/// table, then padding, laying out what was deferred, and padding again; or
/// `None` where a table has more records than its count can hold.
pub open spec fn aet_write_plan(db: Map<u32, AetSetView>) -> Option<Seq<FileStepView>> {
    let sets = aet_set_rows(db);
    let scenes = aet_scene_rows(db);
    if sets.len() <= u32::MAX && scenes.len() <= u32::MAX {
        Some(
            seq![
                count_step(sets.len()),
                FileStepView::Block(block_steps::<AetSetRecord>(sets, false)),
                count_step(scenes.len()),
                FileStepView::Block(block_steps::<AetSceneRecord>(scenes, false)),
                FileStepView::Align(ALIGNMENT),
                FileStepView::Finish,
                FileStepView::Align(ALIGNMENT),
            ],
        )
    } else {
        None
    }
}

impl AetDb {
    /// What to read of a file.
    pub fn read_plan() -> (sections: Vec<Section>)
        ensures
            views(sections@) == aet_read_plan(),
    {
        let mut sections: Vec<Section> = Vec::new();
        sections.push(Section { skip: 0, kinds: AetSetRecord::kinds() });
        sections.push(Section { skip: 0, kinds: AetSceneRecord::kinds() });
        proof {
            assert(views(sections@) =~= aet_read_plan());
        }
        sections
    }

    /// Builds the database from the rows read of the two tables; `None`
    /// where a row is not of the layout of its table.
    pub fn from_rows(sets: &Vec<Vec<Field>>, scenes: &Vec<Vec<Field>>) -> (db: Option<AetDb>)
        ensures
            match db {
                Some(db) => aet_from_rows(row_views(sets@), row_views(scenes@)) == Some(db@),
                None => aet_from_rows(row_views(sets@), row_views(scenes@)) is None,
            },
    {
        let set_records = match read_rows::<AetSetRecord>(sets) {
            Some(records) => records,
            None => {
                return None;
            },
        };
        let scene_records = match read_rows::<AetSceneRecord>(scenes) {
            Some(records) => records,
            None => {
                return None;
            },
        };
        Some(AetDb::decode(&set_records, &scene_records))
    }

    /// The steps that write the file of the database; `None` where a table
    /// has more records than its count can hold.
    pub fn write_plan(&self) -> (plan: Option<Vec<FileStep>>)
        ensures
            match plan {
                Some(plan) => aet_write_plan(self@) == Some(views(plan@)),
                None => aet_write_plan(self@) is None,
            },
    {
        let sets = self.set_records();
        let scenes = self.scene_records();
        let set_count = match count_field(sets.len()) {
            Some(count) => count,
            None => {
                return None;
            },
        };
        let scene_count = match count_field(scenes.len()) {
            Some(count) => count,
            None => {
                return None;
            },
        };
        let mut plan: Vec<FileStep> = Vec::new();
        plan.push(FileStep::Field(Field::U32(set_count)));
        plan.push(FileStep::Block(block(&sets, false)));
        plan.push(FileStep::Field(Field::U32(scene_count)));
        plan.push(FileStep::Block(block(&scenes, false)));
        plan.push(FileStep::Align(ALIGNMENT));
        plan.push(FileStep::Finish);
        plan.push(FileStep::Align(ALIGNMENT));
        proof {
            assert(views(plan@) =~= aet_write_plan(self@)->0);
        }
        Some(plan)
    }
}

} // verus!
