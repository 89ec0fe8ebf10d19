//! How the object database lies in its container: the layout of its two
//! record types, what to read, and the steps that write a file.

use crate::layout::{
    block, block_steps, count_step, kinds_of, parse_rows, read_rows, row_views, Field, FieldView,
    FileStep, FileStepView, Kind, Record, Section, SectionView, ALIGNMENT,
};
use crate::obj::{
    obj_decode, obj_max_id_hint, obj_object_rows, obj_set_rows, ObjDb, ObjObjectRecord,
    ObjObjectRow, ObjSetRecord, ObjSetRow, ObjSetView, OBJ_HINT_BYTES, OBJ_SET_RESERVED_BYTES,
};
use crate::table::{count_field, views};
use vstd::prelude::*;

verus! {

impl Record for ObjSetRecord {
    open spec fn layout() -> Seq<Kind> {
        seq![
            Kind::Text,
            Kind::U32,
            Kind::Text,
            Kind::Text,
            Kind::Text,
            Kind::Reserved(OBJ_SET_RESERVED_BYTES),
        ]
    }

    open spec fn fields_of(row: ObjSetRow) -> Seq<FieldView> {
        seq![
            FieldView::Text(row.name),
            FieldView::U32(row.id),
            FieldView::Text(row.object_filename),
            FieldView::Text(row.texture_filename),
            FieldView::Text(row.archive_filename),
            FieldView::Reserved(OBJ_SET_RESERVED_BYTES),
        ]
    }

    open spec fn parse(fields: Seq<FieldView>) -> Option<ObjSetRow> {
        if fields.len() == 6 {
            match (fields[0], fields[1], fields[2], fields[3], fields[4], fields[5]) {
                (
                    FieldView::Text(name),
                    FieldView::U32(id),
                    FieldView::Text(object_filename),
                    FieldView::Text(texture_filename),
                    FieldView::Text(archive_filename),
                    FieldView::Reserved(bytes),
                ) => {
                    if bytes == OBJ_SET_RESERVED_BYTES {
                        Some(
                            ObjSetRow {
                                name,
                                id,
                                object_filename,
                                texture_filename,
                                archive_filename,
                            },
                        )
                    } else {
                        None
                    }
                },
                _ => None,
            }
        } else {
            None
        }
    }

    fn kinds() -> (kinds: Vec<Kind>) {
        let mut kinds: Vec<Kind> = Vec::new();
        kinds.push(Kind::Text);
        kinds.push(Kind::U32);
        kinds.push(Kind::Text);
        kinds.push(Kind::Text);
        kinds.push(Kind::Text);
        kinds.push(Kind::Reserved(OBJ_SET_RESERVED_BYTES));
        proof {
            assert(kinds@ =~= Self::layout());
        }
        kinds
    }

    fn fields(&self) -> (fields: Vec<Field>) {
        let mut fields: Vec<Field> = Vec::new();
        fields.push(Field::Text(self.name.clone()));
        fields.push(Field::U32(self.id));
        fields.push(Field::Text(self.object_filename.clone()));
        fields.push(Field::Text(self.texture_filename.clone()));
        fields.push(Field::Text(self.archive_filename.clone()));
        fields.push(Field::Reserved(OBJ_SET_RESERVED_BYTES));
        proof {
            assert(views(fields@) =~= Self::fields_of(self@));
        }
        fields
    }

    fn from_fields(fields: &Vec<Field>) -> (record: Option<ObjSetRecord>) {
        if fields.len() != 6 {
            return None;
        }
        match (&fields[0], &fields[1], &fields[2], &fields[3], &fields[4], &fields[5]) {
            (
                Field::Text(name),
                Field::U32(id),
                Field::Text(object_filename),
                Field::Text(texture_filename),
                Field::Text(archive_filename),
                Field::Reserved(bytes),
            ) => {
                if *bytes == OBJ_SET_RESERVED_BYTES {
                    Some(
                        ObjSetRecord {
                            name: name.clone(),
                            id: *id,
                            object_filename: object_filename.clone(),
                            texture_filename: texture_filename.clone(),
                            archive_filename: archive_filename.clone(),
                        },
                    )
                } else {
                    None
                }
            },
            _ => None,
        }
    }

    proof fn lemma_parse(fields: Seq<FieldView>, row: ObjSetRow) {
        if kinds_of(fields) == Self::layout() {
            assert(kinds_of(fields).len() == 6);
            assert(kinds_of(fields)[0] == Kind::Text);
            assert(kinds_of(fields)[1] == Kind::U32);
            assert(kinds_of(fields)[2] == Kind::Text);
            assert(kinds_of(fields)[3] == Kind::Text);
            assert(kinds_of(fields)[4] == Kind::Text);
            assert(kinds_of(fields)[5] == Kind::Reserved(OBJ_SET_RESERVED_BYTES));
            assert(fields[0] is Text
                && fields[1] is U32
                && fields[2] is Text
                && fields[3] is Text
                && fields[4] is Text
                && fields[5] is Reserved);
            assert(Self::parse(fields) is Some);
        }
        if Self::parse(fields) is Some {
            assert(kinds_of(fields) =~= Self::layout());
        }
        if Self::parse(fields) == Some(row) {
            assert(Self::fields_of(row) =~= fields);
        }
        assert(Self::parse(Self::fields_of(row)) == Some(row));
    }
}

impl Record for ObjObjectRecord {
    open spec fn layout() -> Seq<Kind> {
        seq![Kind::U16, Kind::U16, Kind::Text]
    }

    open spec fn fields_of(row: ObjObjectRow) -> Seq<FieldView> {
        seq![
            FieldView::U16(row.id),
            FieldView::U16(row.set_id),
            FieldView::Text(row.name),
        ]
    }

    open spec fn parse(fields: Seq<FieldView>) -> Option<ObjObjectRow> {
        if fields.len() == 3 {
            match (fields[0], fields[1], fields[2]) {
                (
                    FieldView::U16(id),
                    FieldView::U16(set_id),
                    FieldView::Text(name),
                ) => Some(ObjObjectRow { id, set_id, name }),
                _ => None,
            }
        } else {
            None
        }
    }

    fn kinds() -> (kinds: Vec<Kind>) {
        let mut kinds: Vec<Kind> = Vec::new();
        kinds.push(Kind::U16);
        kinds.push(Kind::U16);
        kinds.push(Kind::Text);
        proof {
            assert(kinds@ =~= Self::layout());
        }
        kinds
    }

    fn fields(&self) -> (fields: Vec<Field>) {
        let mut fields: Vec<Field> = Vec::new();
        fields.push(Field::U16(self.id));
        fields.push(Field::U16(self.set_id));
        fields.push(Field::Text(self.name.clone()));
        proof {
            assert(views(fields@) =~= Self::fields_of(self@));
        }
        fields
    }

    fn from_fields(fields: &Vec<Field>) -> (record: Option<ObjObjectRecord>) {
        if fields.len() != 3 {
            return None;
        }
        match (&fields[0], &fields[1], &fields[2]) {
            (
                Field::U16(id),
                Field::U16(set_id),
                Field::Text(name),
            ) => Some(
                ObjObjectRecord {
                    id: *id,
                    set_id: *set_id,
                    name: name.clone(),
                },
            ),
            _ => None,
        }
    }

    proof fn lemma_parse(fields: Seq<FieldView>, row: ObjObjectRow) {
        if kinds_of(fields) == Self::layout() {
            assert(kinds_of(fields).len() == 3);
            assert(kinds_of(fields)[0] == Kind::U16);
            assert(kinds_of(fields)[1] == Kind::U16);
            assert(kinds_of(fields)[2] == Kind::Text);
            assert(fields[0] is U16 && fields[1] is U16 && fields[2] is Text);
            assert(Self::parse(fields) is Some);
        }
        if Self::parse(fields) is Some {
            assert(kinds_of(fields) =~= Self::layout());
        }
        if Self::parse(fields) == Some(row) {
            assert(Self::fields_of(row) =~= fields);
        }
        assert(Self::parse(Self::fields_of(row)) == Some(row));
    }
}

/// What to read of a file: the set table, whose count is followed by the
/// hint, which is passed over, and then the object table.
pub open spec fn obj_read_plan() -> Seq<SectionView> {
    seq![
        SectionView { skip: OBJ_HINT_BYTES, kinds: ObjSetRecord::layout() },
        SectionView { skip: 0, kinds: ObjObjectRecord::layout() },
    ]
}

/// The database that the rows of the two tables stand for, or `None` where
/// a row is not of the layout of its table.
pub open spec fn obj_from_rows(sets: Seq<Seq<FieldView>>, objects: Seq<Seq<FieldView>>) -> Option<
    Map<u32, ObjSetView>,
> {
    match (parse_rows::<ObjSetRecord>(sets), parse_rows::<ObjObjectRecord>(objects)) {
        (Some(sets), Some(objects)) => Some(obj_decode(sets, objects)),
        _ => None,
    }
}

/// The steps that write the file of a database: the count of sets, the
/// hint, and the block of the set table; the count of objects and the block
/// of the object table, which begins with padding; then padding, laying out
/// what was deferred, and padding again; or `None` where a table has more
/// records than its count can hold.
pub open spec fn obj_write_plan(db: Map<u32, ObjSetView>) -> Option<Seq<FileStepView>> {
    let sets = obj_set_rows(db);
    let objects = obj_object_rows(db);
    if sets.len() <= u32::MAX && objects.len() <= u32::MAX {
        Some(
            seq![
                count_step(sets.len()),
                FileStepView::Field(FieldView::U32(obj_max_id_hint(db))),
                FileStepView::Block(block_steps::<ObjSetRecord>(sets, false)),
                count_step(objects.len()),
                FileStepView::Block(block_steps::<ObjObjectRecord>(objects, true)),
                FileStepView::Align(ALIGNMENT),
                FileStepView::Finish,
                FileStepView::Align(ALIGNMENT),
            ],
        )
    } else {
        None
    }
}

impl ObjDb {
    /// What to read of a file.
    pub fn read_plan() -> (sections: Vec<Section>)
        ensures
            views(sections@) == obj_read_plan(),
    {
        let mut sections: Vec<Section> = Vec::new();
        sections.push(Section { skip: OBJ_HINT_BYTES, kinds: ObjSetRecord::kinds() });
        sections.push(Section { skip: 0, kinds: ObjObjectRecord::kinds() });
        proof {
            assert(views(sections@) =~= obj_read_plan());
        }
        sections
    }

    /// Builds the database from the rows read of the two tables; `None`
    /// where a row is not of the layout of its table.
    pub fn from_rows(sets: &Vec<Vec<Field>>, objects: &Vec<Vec<Field>>) -> (db: Option<ObjDb>)
        ensures
            match db {
                Some(db) => obj_from_rows(row_views(sets@), row_views(objects@)) == Some(db@),
                None => obj_from_rows(row_views(sets@), row_views(objects@)) is None,
            },
    {
        let set_records = match read_rows::<ObjSetRecord>(sets) {
            Some(records) => records,
            None => {
                return None;
            },
        };
        let object_records = match read_rows::<ObjObjectRecord>(objects) {
            Some(records) => records,
            None => {
                return None;
            },
        };
        Some(ObjDb::decode(&set_records, &object_records))
    }

    /// The steps that write the file of the database; `None` where a table
    /// has more records than its count can hold.
    pub fn write_plan(&self) -> (plan: Option<Vec<FileStep>>)
        ensures
            match plan {
                Some(plan) => obj_write_plan(self@) == Some(views(plan@)),
                None => obj_write_plan(self@) is None,
            },
    {
        let sets = self.set_records();
        let objects = self.object_records();
        let set_count = match count_field(sets.len()) {
            Some(count) => count,
            None => {
                return None;
            },
        };
        let object_count = match count_field(objects.len()) {
            Some(count) => count,
            None => {
                return None;
            },
        };
        let hint = self.max_id_hint();
        let mut plan: Vec<FileStep> = Vec::new();
        plan.push(FileStep::Field(Field::U32(set_count)));
        plan.push(FileStep::Field(Field::U32(hint)));
        plan.push(FileStep::Block(block(&sets, false)));
        plan.push(FileStep::Field(Field::U32(object_count)));
        plan.push(FileStep::Block(block(&objects, true)));
        plan.push(FileStep::Align(ALIGNMENT));
        plan.push(FileStep::Finish);
        plan.push(FileStep::Align(ALIGNMENT));
        proof {
            assert(views(plan@) =~= obj_write_plan(self@)->0);
        }
        Some(plan)
    }
}

} // verus!
