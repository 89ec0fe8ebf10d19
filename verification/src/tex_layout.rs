//! How the texture database lies in its container: the layout of its
//! record type, what to read, and the steps that write a file.

use crate::layout::{
    block, block_steps, count_step, kinds_of, parse_rows, read_rows, row_views, Field, FieldView,
    FileStep, FileStepView, Kind, Record, Section, SectionView, ALIGNMENT,
};
use crate::table::{count_field, views};
use crate::tex::{tex_decode, tex_rows, TexDb, TexRecord, TexRow};
use vstd::prelude::*;

verus! {

impl Record for TexRecord {
    open spec fn layout() -> Seq<Kind> {
        seq![Kind::U32, Kind::Text]
    }

    open spec fn fields_of(row: TexRow) -> Seq<FieldView> {
        seq![
            FieldView::U32(row.id),
            FieldView::Text(row.name),
        ]
    }

    open spec fn parse(fields: Seq<FieldView>) -> Option<TexRow> {
        if fields.len() == 2 {
            match (fields[0], fields[1]) {
                (
                    FieldView::U32(id),
                    FieldView::Text(name),
                ) => Some(TexRow { id, name }),
                _ => None,
            }
        } else {
            None
        }
    }

    fn kinds() -> (kinds: Vec<Kind>) {
        let mut kinds: Vec<Kind> = Vec::new();
        kinds.push(Kind::U32);
        kinds.push(Kind::Text);
        proof {
            assert(kinds@ =~= Self::layout());
        }
        kinds
    }

    fn fields(&self) -> (fields: Vec<Field>) {
        let mut fields: Vec<Field> = Vec::new();
        fields.push(Field::U32(self.id));
        fields.push(Field::Text(self.name.clone()));
        proof {
            assert(views(fields@) =~= Self::fields_of(self@));
        }
        fields
    }

    fn from_fields(fields: &Vec<Field>) -> (record: Option<TexRecord>) {
        if fields.len() != 2 {
            return None;
        }
        match (&fields[0], &fields[1]) {
            (
                Field::U32(id),
                Field::Text(name),
            ) => Some(
                TexRecord {
                    id: *id,
                    name: name.clone(),
                },
            ),
            _ => None,
        }
    }

    proof fn lemma_parse(fields: Seq<FieldView>, row: TexRow) {
        if kinds_of(fields) == Self::layout() {
            assert(kinds_of(fields).len() == 2);
            assert(kinds_of(fields)[0] == Kind::U32);
            assert(kinds_of(fields)[1] == Kind::Text);
            assert(fields[0] is U32 && fields[1] is Text);
            assert(Self::parse(fields) is Some);
        }
        if Self::parse(fields) is Some {
            assert(kinds_of(fields) =~= Self::layout());
        }
        if Self::parse(fields) == Some(row) {
            assert(Self::fields_of(row) =~= fields);
        }
        assert(Self::parse(Self::fields_of(row)) == Some(row));
    }
}

/// What to read of a file: the one table.
pub open spec fn tex_read_plan() -> Seq<SectionView> {
    seq![SectionView { skip: 0, kinds: TexRecord::layout() }]
}

/// The database that the rows of the table stand for, or `None` where a row
/// is not of the layout.
pub open spec fn tex_from_rows(rows: Seq<Seq<FieldView>>) -> Option<Map<u32, Seq<char>>> {
    match parse_rows::<TexRecord>(rows) {
        Some(rows) => Some(tex_decode(rows)),
        None => None,
    }
}

/// The steps that write the file of a database: the count of textures and
/// the block of the table, then padding, laying out what was deferred, and
/// padding again; or `None` where the table has more records than its count
/// can hold.
pub open spec fn tex_write_plan(db: Map<u32, Seq<char>>) -> Option<Seq<FileStepView>> {
    let rows = tex_rows(db);
    if rows.len() <= u32::MAX {
        Some(
            seq![
                count_step(rows.len()),
                FileStepView::Block(block_steps::<TexRecord>(rows, false)),
                FileStepView::Align(ALIGNMENT),
                FileStepView::Finish,
                FileStepView::Align(ALIGNMENT),
            ],
        )
    } else {
        None
    }
}

impl TexDb {
    /// What to read of a file.
    pub fn read_plan() -> (sections: Vec<Section>)
        ensures
            views(sections@) == tex_read_plan(),
    {
        let mut sections: Vec<Section> = Vec::new();
        sections.push(Section { skip: 0, kinds: TexRecord::kinds() });
        proof {
            assert(views(sections@) =~= tex_read_plan());
        }
        sections
    }

    /// Builds the database from the rows read of the table; `None` where a
    /// row is not of the layout.
    pub fn from_rows(rows: &Vec<Vec<Field>>) -> (db: Option<TexDb>)
        ensures
            match db {
                Some(db) => tex_from_rows(row_views(rows@)) == Some(db@),
                None => tex_from_rows(row_views(rows@)) is None,
            },
    {
        let records = match read_rows::<TexRecord>(rows) {
            Some(records) => records,
            None => {
                return None;
            },
        };
        Some(TexDb::decode(&records))
    }

    /// The steps that write the file of the database; `None` where the
    /// table has more records than its count can hold.
    pub fn write_plan(&self) -> (plan: Option<Vec<FileStep>>)
        ensures
            match plan {
                Some(plan) => tex_write_plan(self@) == Some(views(plan@)),
                None => tex_write_plan(self@) is None,
            },
    {
        let records = self.records();
        let count = match count_field(records.len()) {
            Some(count) => count,
            None => {
                return None;
            },
        };
        let mut plan: Vec<FileStep> = Vec::new();
        plan.push(FileStep::Field(Field::U32(count)));
        plan.push(FileStep::Block(block(&records, false)));
        plan.push(FileStep::Align(ALIGNMENT));
        plan.push(FileStep::Finish);
        plan.push(FileStep::Align(ALIGNMENT));
        proof {
            assert(views(plan@) =~= tex_write_plan(self@)->0);
        }
        Some(plan)
    }
}

} // verus!
