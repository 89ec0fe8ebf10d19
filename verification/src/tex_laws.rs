//! What holds of the texture codec: which ids a table decodes to, and that
//! encoding then decoding gives the database back.

use crate::layout::{field_rows, lemma_parse_field_rows};
use crate::order::{ascending_u32, lemma_ascending_u32};
use crate::tex::{tex_decode, tex_rows, TexRecord, TexRow};
use crate::tex_layout::tex_from_rows;
use vstd::prelude::*;

verus! {

/// The textures of a decoded database are exactly the ids of the table, and
/// a texture has the name of the last record with its id.
pub proof fn lemma_tex_decode(rows: Seq<TexRow>)
    ensures
        forall|id: u32|
            tex_decode(rows).contains_key(id) <==> exists|i: int|
                0 <= i < rows.len() && (#[trigger] rows[i]).id == id,
        forall|i: int|
            0 <= i < rows.len() && (forall|j: int|
                i < j < rows.len() ==> (#[trigger] rows[j]).id != rows[i].id)
                ==> tex_decode(rows)[(#[trigger] rows[i]).id] == rows[i].name,
    decreases rows.len(),
{
    if rows.len() > 0 {
        let front = rows.drop_last();
        lemma_tex_decode(front);
        assert forall|id: u32|
            tex_decode(rows).contains_key(id) <==> exists|i: int|
                0 <= i < rows.len() && (#[trigger] rows[i]).id == id by {
            if tex_decode(rows).contains_key(id) {
                if id == rows.last().id {
                    assert(rows[rows.len() - 1].id == id);
                } else {
                    assert(tex_decode(front).contains_key(id));
                    let i = choose|i: int| 0 <= i < front.len() && (#[trigger] front[i]).id == id;
                    assert(rows[i] == front[i]);
                }
            }
            if exists|i: int| 0 <= i < rows.len() && (#[trigger] rows[i]).id == id {
                let i = choose|i: int| 0 <= i < rows.len() && (#[trigger] rows[i]).id == id;
                if i < front.len() {
                    assert(front[i].id == id);
                    assert(tex_decode(front).contains_key(id));
                }
            }
        }
        assert forall|i: int|
            0 <= i < rows.len() && (forall|j: int|
                i < j < rows.len() ==> (#[trigger] rows[j]).id
                    != rows[i].id) implies tex_decode(rows)[(#[trigger] rows[i]).id]
            == rows[i].name by {
            if i < front.len() {
                assert(rows[rows.len() - 1].id != rows[i].id);
                assert(front[i] == rows[i]);
                assert forall|j: int| i < j < front.len() implies (#[trigger] front[j]).id
                    != front[i].id by {
                    assert(rows[j].id != rows[i].id);
                }
            }
        }
    }
}

/// Encoding then decoding gives the database back, for every database.
pub proof fn lemma_tex_round_trip(db: Map<u32, Seq<char>>)
    ensures
        tex_decode(tex_rows(db)) == db,
{
    let ids = ascending_u32(db.dom());
    let rows = tex_rows(db);
    lemma_ascending_u32(db.dom());
    lemma_tex_decode(rows);
    assert forall|i: int, j: int|
        0 <= i < rows.len() && i < j < rows.len() implies (#[trigger] rows[j]).id != (
    #[trigger] rows[i]).id by {
        if j < i {
            assert(ids[j] < ids[i]);
        } else {
            assert(ids[i] < ids[j]);
        }
    }
    assert forall|id: u32| tex_decode(rows).contains_key(id) <==> db.contains_key(id) by {
        if tex_decode(rows).contains_key(id) {
            let i = choose|i: int| 0 <= i < rows.len() && (#[trigger] rows[i]).id == id;
            assert(ids.contains(ids[i]));
        }
        if db.contains_key(id) {
            assert(ids.contains(id));
            let i = choose|i: int| 0 <= i < ids.len() && ids[i] == id;
            assert(rows[i].id == id);
        }
    }
    assert forall|id: u32| db.contains_key(id) implies tex_decode(rows)[id] == db[id] by {
        assert(ids.contains(id));
        let i = choose|i: int| 0 <= i < ids.len() && ids[i] == id;
        assert(rows[i].id == id);
        assert(tex_decode(rows)[rows[i].id] == rows[i].name);
    }
    assert(tex_decode(rows) =~= db);
}

/// The round trip holds through the fields too: the rows of fields that the
/// table of a database is written as are read back as that database.
pub proof fn lemma_tex_field_round_trip(db: Map<u32, Seq<char>>)
    ensures
        tex_from_rows(field_rows::<TexRecord>(tex_rows(db))) == Some(db),
{
    lemma_parse_field_rows::<TexRecord>(tex_rows(db));
    lemma_tex_round_trip(db);
}

} // verus!
