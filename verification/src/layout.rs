//! How a database lies in its container, told without a cursor.
//!
//! A file is a flat header and one or two tables. Each table is a count in
//! the header and a block behind a pointer; the block holds that many
//! records of one layout and is padded to the alignment. A record is a row
//! of fields: 32-bit and 16-bit integers, texts behind pointers, reserved
//! bytes.
//!
//! Nothing here moves a byte. Writing is a list of steps for whoever holds
//! the cursor to carry out; reading is a list of sections to fetch, whose
//! rows are handed back as fields. Blocks do not nest, so a step of a file
//! that is a block holds the steps of that block.

use crate::table::views;
use vstd::prelude::*;

verus! {

/// The boundary, in bytes, to which blocks and files are padded.
pub const ALIGNMENT: usize = 16;

/// What a field of a record is on disk.
#[derive(Debug, Clone, Copy, PartialEq, Eq, Structural)]
pub enum Kind {
    /// A 32-bit integer.
    U32,
    /// A 16-bit integer.
    U16,
    /// A pointer to a text that ends in a zero byte.
    Text,
    /// That many bytes without meaning: skipped when read, zero when
    /// written.
    Reserved(usize),
}

/// A field of a record with what it holds.
#[derive(Debug, Clone, PartialEq, Eq)]
pub enum Field {
    U32(u32),
    U16(u16),
    Text(String),
    Reserved(usize),
}

/// What a field is in contracts.
pub enum FieldView {
    U32(u32),
    U16(u16),
    Text(Seq<char>),
    Reserved(usize),
}

impl View for Field {
    type V = FieldView;

    open spec fn view(&self) -> FieldView {
        match self {
            Field::U32(value) => FieldView::U32(*value),
            Field::U16(value) => FieldView::U16(*value),
            Field::Text(text) => FieldView::Text(text@),
            Field::Reserved(bytes) => FieldView::Reserved(*bytes),
        }
    }
}

/// The kind of a field.
pub open spec fn kind_of(field: FieldView) -> Kind {
    match field {
        FieldView::U32(_) => Kind::U32,
        FieldView::U16(_) => Kind::U16,
        FieldView::Text(_) => Kind::Text,
        FieldView::Reserved(bytes) => Kind::Reserved(bytes),
    }
}

/// The kinds of a row of fields, in order.
pub open spec fn kinds_of(fields: Seq<FieldView>) -> Seq<Kind> {
    Seq::new(fields.len(), |i: int| kind_of(fields[i]))
}

impl Field {
    /// The kind of the field.
    pub fn kind(&self) -> (kind: Kind)
        ensures
            kind == kind_of(self@),
    {
        match self {
            Field::U32(_) => Kind::U32,
            Field::U16(_) => Kind::U16,
            Field::Text(_) => Kind::Text,
            Field::Reserved(bytes) => Kind::Reserved(*bytes),
        }
    }
}

/// A record type of one of the tables: it knows the layout of its row, the
/// fields that a record is written as, and the record that a row of fields
/// stands for.
pub trait Record: View + Sized {
    /// The kinds of the fields of a record, in table order.
    spec fn layout() -> Seq<Kind>;

    /// The fields of a record, in table order.
    spec fn fields_of(row: Self::V) -> Seq<FieldView>;

    /// The record that a row of fields stands for, where its kinds are
    /// those of the layout.
    spec fn parse(fields: Seq<FieldView>) -> Option<Self::V>;

    /// The layout, for whoever reads the table.
    fn kinds() -> (kinds: Vec<Kind>)
        ensures
            kinds@ == Self::layout(),
    ;

    /// The fields that the record is written as.
    fn fields(&self) -> (fields: Vec<Field>)
        ensures
            views(fields@) == Self::fields_of(self@),
    ;

    /// The record that a row of fields stands for; `None` where the row is
    /// not of the layout.
    fn from_fields(fields: &Vec<Field>) -> (record: Option<Self>)
        ensures
            match record {
                Some(record) => Self::parse(views(fields@)) == Some(record@),
                None => Self::parse(views(fields@)) is None,
            },
    ;

    /// A row parses exactly where it is of the layout; the fields of a
    /// record are of the layout and parse to that record; and a row that
    /// parses holds the fields of its record.
    proof fn lemma_parse(fields: Seq<FieldView>, row: Self::V)
        ensures
            Self::parse(fields) is Some <==> kinds_of(fields) == Self::layout(),
            Self::parse(Self::fields_of(row)) == Some(row),
            Self::parse(fields) == Some(row) ==> Self::fields_of(row) == fields,
    ;
}

/// One step of writing a block: a field of a record, or padding.
#[derive(Debug, Clone, PartialEq, Eq)]
pub enum Step {
    /// Write one field at the cursor.
    Field(Field),
    /// Pad to the next multiple of that many bytes.
    Align(usize),
}

/// What a step of a block is in contracts.
pub enum StepView {
    Field(FieldView),
    Align(usize),
}

impl View for Step {
    type V = StepView;

    open spec fn view(&self) -> StepView {
        match self {
            Step::Field(field) => StepView::Field(field@),
            Step::Align(boundary) => StepView::Align(*boundary),
        }
    }
}

/// One step of writing a file.
#[derive(Debug, Clone, PartialEq, Eq)]
pub enum FileStep {
    /// Write one field at the cursor.
    Field(Field),
    /// Pad to the next multiple of that many bytes.
    Align(usize),
    /// Reserve a pointer at the cursor; the block that it will point to is
    /// written by these steps once everything deferred is laid out.
    Block(Vec<Step>),
    /// Lay out everything deferred so far, blocks and texts, and patch the
    /// pointers to them.
    Finish,
}

/// What a step of a file is in contracts.
pub enum FileStepView {
    Field(FieldView),
    Align(usize),
    Block(Seq<StepView>),
    Finish,
}

impl View for FileStep {
    type V = FileStepView;

    open spec fn view(&self) -> FileStepView {
        match self {
            FileStep::Field(field) => FileStepView::Field(field@),
            FileStep::Align(boundary) => FileStepView::Align(*boundary),
            FileStep::Block(steps) => FileStepView::Block(views(steps@)),
            FileStep::Finish => FileStepView::Finish,
        }
    }
}

/// One table to read: after its count in the header come `skip` bytes to
/// pass over and then the pointer to its block, whose records have the
/// fields `kinds`.
#[derive(Debug, Clone, PartialEq, Eq)]
pub struct Section {
    pub skip: usize,
    pub kinds: Vec<Kind>,
}

/// What a section is in contracts.
pub struct SectionView {
    pub skip: usize,
    pub kinds: Seq<Kind>,
}

impl View for Section {
    type V = SectionView;

    open spec fn view(&self) -> SectionView {
        SectionView { skip: self.skip, kinds: self.kinds@ }
    }
}

/// The steps that write the records `rows` one after the other, field by
/// field.
pub open spec fn row_steps<R: Record>(rows: Seq<R::V>) -> Seq<StepView>
    decreases rows.len(),
{
    if rows.len() == 0 {
        Seq::empty()
    } else {
        row_steps::<R>(rows.drop_last()) + R::fields_of(rows.last()).map_values(
            |field: FieldView| StepView::Field(field),
        )
    }
}

/// The steps that write the block of a table: the records, then padding to
/// the alignment; with `lead` there is padding before the first record too.
pub open spec fn block_steps<R: Record>(rows: Seq<R::V>, lead: bool) -> Seq<StepView> {
    let start = if lead {
        seq![StepView::Align(ALIGNMENT)]
    } else {
        Seq::empty()
    };
    start + row_steps::<R>(rows) + seq![StepView::Align(ALIGNMENT)]
}

/// The step that writes the count of a table into the header.
pub open spec fn count_step(count: nat) -> FileStepView {
    FileStepView::Field(FieldView::U32(count as u32))
}

/// The records that the rows of a table stand for, or `None` where a row is
/// not of the layout.
pub open spec fn parse_rows<R: Record>(rows: Seq<Seq<FieldView>>) -> Option<Seq<R::V>>
    decreases rows.len(),
{
    if rows.len() == 0 {
        Some(Seq::empty())
    } else {
        match (parse_rows::<R>(rows.drop_last()), R::parse(rows.last())) {
            (Some(front), Some(last)) => Some(front.push(last)),
            _ => None,
        }
    }
}

/// The rows of a table as they are in contracts.
pub open spec fn row_views(rows: Seq<Vec<Field>>) -> Seq<Seq<FieldView>> {
    Seq::new(rows.len(), |i: int| views(rows[i]@))
}

/// The steps that write the block of a table.
pub fn block<R: Record>(records: &Vec<R>, lead: bool) -> (steps: Vec<Step>)
    ensures
        views(steps@) == block_steps::<R>(views(records@), lead),
{
    let mut steps: Vec<Step> = Vec::new();
    let ghost rows = views(records@);
    if lead {
        steps.push(Step::Align(ALIGNMENT));
    }
    let ghost start = views(steps@);
    proof {
        assert(start =~= if lead {
            seq![StepView::Align(ALIGNMENT)]
        } else {
            Seq::empty()
        });
        assert(rows.take(0) =~= Seq::empty());
        assert(views(steps@) =~= start + row_steps::<R>(rows.take(0)));
    }
    for i in 0..records.len()
        invariant
            rows == views(records@),
            views(steps@) == start + row_steps::<R>(rows.take(i as int)),
    {
        let fields = records[i].fields();
        let ghost done = views(steps@);
        let ghost row = R::fields_of(rows[i as int]).map_values(
            |field: FieldView| StepView::Field(field),
        );
        proof {
            assert(rows.take(i + 1).drop_last() =~= rows.take(i as int));
            assert(rows.take(i + 1).last() == rows[i as int]);
            assert(views(steps@) =~= done + row.take(0));
        }
        let ghost all = fields@;
        for field in it: fields.into_iter()
            invariant
                it.seq() == all,
                views(all) == R::fields_of(rows[i as int]),
                row == R::fields_of(rows[i as int]).map_values(
                    |field: FieldView| StepView::Field(field),
                ),
                views(steps@) == done + row.take(it.index() as int),
        {
            proof {
                let written = it.index() as int;
                assert(views(all)[written] == field@);
                assert(done + row.take(written + 1) =~= (done + row.take(written)).push(
                    StepView::Field(field@),
                ));
                assert(views(steps@.push(Step::Field(field))) =~= views(steps@).push(
                    StepView::Field(field@),
                ));
            }
            steps.push(Step::Field(field));
        }
        proof {
            assert(row.take(all.len() as int) =~= row);
            assert(start + row_steps::<R>(rows.take(i as int)) + row =~= start + (row_steps::<R>(
                rows.take(i as int),
            ) + row));
        }
    }
    proof {
        assert(rows.take(records.len() as int) =~= rows);
        assert(views(steps@.push(Step::Align(ALIGNMENT))) =~= views(steps@) + seq![
            StepView::Align(ALIGNMENT),
        ]);
    }
    steps.push(Step::Align(ALIGNMENT));
    steps
}

/// The records that the rows of a table stand for; `None` where a row is
/// not of the layout.
pub fn read_rows<R: Record>(rows: &Vec<Vec<Field>>) -> (records: Option<Vec<R>>)
    ensures
        match records {
            Some(records) => parse_rows::<R>(row_views(rows@)) == Some(views(records@)),
            None => parse_rows::<R>(row_views(rows@)) is None,
        },
{
    let mut out: Vec<R> = Vec::new();
    let ghost all = row_views(rows@);
    proof {
        assert(all.take(0) =~= Seq::empty());
        assert(views(out@) =~= Seq::empty());
    }
    for i in 0..rows.len()
        invariant
            all == row_views(rows@),
            parse_rows::<R>(all.take(i as int)) == Some(views(out@)),
    {
        proof {
            assert(all.take(i + 1).drop_last() =~= all.take(i as int));
            assert(all.take(i + 1).last() == views(rows@[i as int]@));
        }
        match R::from_fields(&rows[i]) {
            Some(record) => {
                proof {
                    assert(views(out@.push(record)) =~= views(out@).push(record@));
                }
                out.push(record);
            },
            None => {
                proof {
                    lemma_parse_rows_prefix::<R>(all, i + 1);
                }
                return None;
            },
        }
    }
    proof {
        assert(all.take(rows.len() as int) =~= all);
    }
    Some(out)
}

/// Rows of which a first part does not parse do not parse.
pub proof fn lemma_parse_rows_prefix<R: Record>(rows: Seq<Seq<FieldView>>, upto: int)
    requires
        0 <= upto <= rows.len(),
        parse_rows::<R>(rows.take(upto)) is None,
    ensures
        parse_rows::<R>(rows) is None,
    decreases rows.len(),
{
    if upto < rows.len() {
        assert(rows.drop_last().take(upto) =~= rows.take(upto));
        lemma_parse_rows_prefix::<R>(rows.drop_last(), upto);
    } else {
        assert(rows.take(upto) =~= rows);
    }
}

/// The rows of fields that the records `rows` are written as.
pub open spec fn field_rows<R: Record>(rows: Seq<R::V>) -> Seq<Seq<FieldView>> {
    Seq::new(rows.len(), |i: int| R::fields_of(rows[i]))
}

/// Records written as rows of fields and read again are the same records.
pub proof fn lemma_parse_field_rows<R: Record>(rows: Seq<R::V>)
    ensures
        parse_rows::<R>(field_rows::<R>(rows)) == Some(rows),
    decreases rows.len(),
{
    if rows.len() == 0 {
        assert(rows =~= Seq::empty());
    } else {
        lemma_parse_field_rows::<R>(rows.drop_last());
        R::lemma_parse(R::fields_of(rows.last()), rows.last());
        assert(field_rows::<R>(rows).drop_last() =~= field_rows::<R>(rows.drop_last()));
        assert(field_rows::<R>(rows).last() == R::fields_of(rows.last()));
        assert(rows.drop_last().push(rows.last()) =~= rows);
    }
}

} // verus!
