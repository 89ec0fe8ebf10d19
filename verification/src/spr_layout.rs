//! How the sprite database lies in its container: the layout of its two
//! record types, what to read, and the steps that write a file.

use crate::layout::{
    block, block_steps, count_step, kinds_of, parse_rows, read_rows, row_views, Field, FieldView,
    FileStep, FileStepView, Kind, Record, Section, SectionView, ALIGNMENT,
};
use crate::spr::{
    spr_decode, spr_entry_rows, spr_set_rows, SprDb, SprEntryRecord, SprEntryRow, SprSetRecord,
    SprSetRow, SprSetView,
};
use crate::table::{count_field, views};
use vstd::prelude::*;

verus! {

impl Record for SprSetRecord {
    open spec fn layout() -> Seq<Kind> {
        seq![Kind::U32, Kind::Text, Kind::Text, Kind::U32]
    }

    open spec fn fields_of(row: SprSetRow) -> Seq<FieldView> {
        seq![
            FieldView::U32(row.id),
            FieldView::Text(row.name),
            FieldView::Text(row.filename),
            FieldView::U32(row.index),
        ]
    }

    open spec fn parse(fields: Seq<FieldView>) -> Option<SprSetRow> {
        if fields.len() == 4 {
            match (fields[0], fields[1], fields[2], fields[3]) {
                (
                    FieldView::U32(id),
                    FieldView::Text(name),
                    FieldView::Text(filename),
                    FieldView::U32(index),
                ) => Some(SprSetRow { id, name, filename, index }),
                _ => None,
            }
        } else {
            None
        }
    }

    fn kinds() -> (kinds: Vec<Kind>) {
        let mut kinds: Vec<Kind> = Vec::new();
        kinds.push(Kind::U32);
        kinds.push(Kind::Text);
        kinds.push(Kind::Text);
        kinds.push(Kind::U32);
        proof {
            assert(kinds@ =~= Self::layout());
        }
        kinds
    }

    fn fields(&self) -> (fields: Vec<Field>) {
        let mut fields: Vec<Field> = Vec::new();
        fields.push(Field::U32(self.id));
        fields.push(Field::Text(self.name.clone()));
        fields.push(Field::Text(self.filename.clone()));
        fields.push(Field::U32(self.index));
        proof {
            assert(views(fields@) =~= Self::fields_of(self@));
        }
        fields
    }

    fn from_fields(fields: &Vec<Field>) -> (record: Option<SprSetRecord>) {
        if fields.len() != 4 {
            return None;
        }
        match (&fields[0], &fields[1], &fields[2], &fields[3]) {
            (
                Field::U32(id),
                Field::Text(name),
                Field::Text(filename),
                Field::U32(index),
            ) => Some(
                SprSetRecord {
                    id: *id,
                    name: name.clone(),
                    filename: filename.clone(),
                    index: *index,
                },
            ),
            _ => None,
        }
    }

    proof fn lemma_parse(fields: Seq<FieldView>, row: SprSetRow) {
        if kinds_of(fields) == Self::layout() {
            assert(kinds_of(fields).len() == 4);
            assert(kinds_of(fields)[0] == Kind::U32);
            assert(kinds_of(fields)[1] == Kind::Text);
            assert(kinds_of(fields)[2] == Kind::Text);
            assert(kinds_of(fields)[3] == Kind::U32);
            assert(fields[0] is U32 && fields[1] is Text && fields[2] is Text && fields[3] is U32);
            assert(Self::parse(fields) is Some);
        }
        if Self::parse(fields) is Some {
            assert(kinds_of(fields) =~= Self::layout());
        }
        if Self::parse(fields) == Some(row) {
            assert(Self::fields_of(row) =~= fields);
        }
        assert(Self::parse(Self::fields_of(row)) == Some(row));
    }
}

impl Record for SprEntryRecord {
    open spec fn layout() -> Seq<Kind> {
        seq![Kind::U32, Kind::Text, Kind::U16, Kind::U16]
    }

    open spec fn fields_of(row: SprEntryRow) -> Seq<FieldView> {
        seq![
            FieldView::U32(row.id),
            FieldView::Text(row.name),
            FieldView::U16(row.index),
            FieldView::U16(row.set_index),
        ]
    }

    open spec fn parse(fields: Seq<FieldView>) -> Option<SprEntryRow> {
        if fields.len() == 4 {
            match (fields[0], fields[1], fields[2], fields[3]) {
                (
                    FieldView::U32(id),
                    FieldView::Text(name),
                    FieldView::U16(index),
                    FieldView::U16(set_index),
                ) => Some(SprEntryRow { id, name, index, set_index }),
                _ => None,
            }
        } else {
            None
        }
    }

    fn kinds() -> (kinds: Vec<Kind>) {
        let mut kinds: Vec<Kind> = Vec::new();
        kinds.push(Kind::U32);
        kinds.push(Kind::Text);
        kinds.push(Kind::U16);
        kinds.push(Kind::U16);
        proof {
            assert(kinds@ =~= Self::layout());
        }
        kinds
    }

    fn fields(&self) -> (fields: Vec<Field>) {
        let mut fields: Vec<Field> = Vec::new();
        fields.push(Field::U32(self.id));
        fields.push(Field::Text(self.name.clone()));
        fields.push(Field::U16(self.index));
        fields.push(Field::U16(self.set_index));
        proof {
            assert(views(fields@) =~= Self::fields_of(self@));
        }
        fields
    }

    fn from_fields(fields: &Vec<Field>) -> (record: Option<SprEntryRecord>) {
        if fields.len() != 4 {
            return None;
        }
        match (&fields[0], &fields[1], &fields[2], &fields[3]) {
            (
                Field::U32(id),
                Field::Text(name),
                Field::U16(index),
                Field::U16(set_index),
            ) => Some(
                SprEntryRecord {
                    id: *id,
                    name: name.clone(),
                    index: *index,
                    set_index: *set_index,
                },
            ),
            _ => None,
        }
    }

    proof fn lemma_parse(fields: Seq<FieldView>, row: SprEntryRow) {
        if kinds_of(fields) == Self::layout() {
            assert(kinds_of(fields).len() == 4);
            assert(kinds_of(fields)[0] == Kind::U32);
            assert(kinds_of(fields)[1] == Kind::Text);
            assert(kinds_of(fields)[2] == Kind::U16);
            assert(kinds_of(fields)[3] == Kind::U16);
            assert(fields[0] is U32 && fields[1] is Text && fields[2] is U16 && fields[3] is U16);
            assert(Self::parse(fields) is Some);
        }
        if Self::parse(fields) is Some {
            assert(kinds_of(fields) =~= Self::layout());
        }
        if Self::parse(fields) == Some(row) {
            assert(Self::fields_of(row) =~= fields);
        }
        assert(Self::parse(Self::fields_of(row)) == Some(row));
    }
}

/// What to read of a file: the set table, then the entry table.
pub open spec fn spr_read_plan() -> Seq<SectionView> {
    seq![
        SectionView { skip: 0, kinds: SprSetRecord::layout() },
        SectionView { skip: 0, kinds: SprEntryRecord::layout() },
    ]
}

/// The database that the rows of the two tables stand for, or `None` where
/// a row is not of the layout of its table.
pub open spec fn spr_from_rows(sets: Seq<Seq<FieldView>>, entries: Seq<Seq<FieldView>>) -> Option<
    Map<u32, SprSetView>,
> {
    match (parse_rows::<SprSetRecord>(sets), parse_rows::<SprEntryRecord>(entries)) {
        (Some(sets), Some(entries)) => Some(spr_decode(sets, entries)),
        _ => None,
    }
}

/// The steps that write the file of a database: the count of sets and the
/// block of the set table, the count of entries, sprites and textures
/// together, and the block of the entry table, then padding, laying out
/// what was deferred, padding again, and laying out once more; or `None`
/// where a table has more records than its count can hold.
pub open spec fn spr_write_plan(db: Map<u32, SprSetView>) -> Option<Seq<FileStepView>> {
    let sets = spr_set_rows(db);
    let entries = spr_entry_rows(db);
    if sets.len() <= u32::MAX && entries.len() <= u32::MAX {
        Some(
            seq![
                count_step(sets.len()),
                FileStepView::Block(block_steps::<SprSetRecord>(sets, false)),
                count_step(entries.len()),
                FileStepView::Block(block_steps::<SprEntryRecord>(entries, false)),
                FileStepView::Align(ALIGNMENT),
                FileStepView::Finish,
                FileStepView::Align(ALIGNMENT),
                FileStepView::Finish,
            ],
        )
    } else {
        None
    }
}

impl SprDb {
    /// What to read of a file.
    pub fn read_plan() -> (sections: Vec<Section>)
        ensures
            views(sections@) == spr_read_plan(),
    {
        let mut sections: Vec<Section> = Vec::new();
        sections.push(Section { skip: 0, kinds: SprSetRecord::kinds() });
        sections.push(Section { skip: 0, kinds: SprEntryRecord::kinds() });
        proof {
            assert(views(sections@) =~= spr_read_plan());
        }
        sections
    }

    /// Builds the database from the rows read of the two tables; `None`
    /// where a row is not of the layout of its table.
    pub fn from_rows(sets: &Vec<Vec<Field>>, entries: &Vec<Vec<Field>>) -> (db: Option<SprDb>)
        ensures
            match db {
                Some(db) => spr_from_rows(row_views(sets@), row_views(entries@)) == Some(db@),
                None => spr_from_rows(row_views(sets@), row_views(entries@)) is None,
            },
    {
        let set_records = match read_rows::<SprSetRecord>(sets) {
            Some(records) => records,
            None => {
                return None;
            },
        };
        let entry_records = match read_rows::<SprEntryRecord>(entries) {
            Some(records) => records,
            None => {
                return None;
            },
        };
        Some(SprDb::decode(&set_records, &entry_records))
    }

    /// The steps that write the file of the database; `None` where a table
    /// has more records than its count can hold.
    pub fn write_plan(&self) -> (plan: Option<Vec<FileStep>>)
        ensures
            match plan {
                Some(plan) => spr_write_plan(self@) == Some(views(plan@)),
                None => spr_write_plan(self@) is None,
            },
    {
        let sets = self.set_records();
        let entries = self.entry_records();
        let set_count = match count_field(sets.len()) {
            Some(count) => count,
            None => {
                return None;
            },
        };
        let entry_count = match count_field(entries.len()) {
            Some(count) => count,
            None => {
                return None;
            },
        };
        let mut plan: Vec<FileStep> = Vec::new();
        plan.push(FileStep::Field(Field::U32(set_count)));
        plan.push(FileStep::Block(block(&sets, false)));
        plan.push(FileStep::Field(Field::U32(entry_count)));
        plan.push(FileStep::Block(block(&entries, false)));
        plan.push(FileStep::Align(ALIGNMENT));
        plan.push(FileStep::Finish);
        plan.push(FileStep::Align(ALIGNMENT));
        plan.push(FileStep::Finish);
        proof {
            assert(views(plan@) =~= spr_write_plan(self@)->0);
        }
        Some(plan)
    }
}

} // verus!
