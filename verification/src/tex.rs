//! The texture database: texture names keyed by id.
//!
//! On disk the database is one table of id and name, in ascending id order.

use crate::order::{ascending_u32, entries_u32};
use crate::table::views;
use std::collections::BTreeMap;
use vstd::prelude::*;

verus! {

/// The texture database: names keyed by texture id.
#[derive(Debug, Default, Clone, PartialEq, Eq, PartialOrd, Ord, Hash)]
pub struct TexDb {
    pub textures: BTreeMap<u32, String>,
}

impl View for TexDb {
    type V = Map<u32, Seq<char>>;

    open spec fn view(&self) -> Map<u32, Seq<char>> {
        self.textures@.map_values(|name: String| name@)
    }
}

/// One record of the texture table, fields in table order.
#[derive(Debug, Default, Clone, PartialEq, Eq, PartialOrd, Ord, Hash)]
pub struct TexRecord {
    pub id: u32,
    pub name: String,
}

/// What a texture record is in contracts.
#[verifier::ext_equal]
pub struct TexRow {
    pub id: u32,
    pub name: Seq<char>,
}

impl View for TexRecord {
    type V = TexRow;

    open spec fn view(&self) -> TexRow {
        TexRow { id: self.id, name: self.name@ }
    }
}

/// The database that a texture table stands for: each record is inserted
/// under its id, in table order, so of two records with one id the later
/// one stays.
pub open spec fn tex_decode(rows: Seq<TexRow>) -> Map<u32, Seq<char>>
    decreases rows.len(),
{
    if rows.len() == 0 {
        Map::empty()
    } else {
        tex_decode(rows.drop_last()).insert(rows.last().id, rows.last().name)
    }
}

/// The texture table of a database: one record per texture, in ascending id
/// order.
pub open spec fn tex_rows(db: Map<u32, Seq<char>>) -> Seq<TexRow> {
    let ids = ascending_u32(db.dom());
    Seq::new(ids.len(), |i: int| TexRow { id: ids[i], name: db[ids[i]] })
}

impl TexDb {
    /// Builds the database from its table.
    pub fn decode(records: &Vec<TexRecord>) -> (db: TexDb)
        ensures
            db@ == tex_decode(views(records@)),
    {
        let mut map: BTreeMap<u32, String> = BTreeMap::new();
        let ghost rows = views(records@);
        proof {
            assert(map@.map_values(|name: String| name@) =~= tex_decode(rows.take(0)));
        }
        for i in 0..records.len()
            invariant
                rows == views(records@),
                map@.map_values(|name: String| name@) == tex_decode(rows.take(i as int)),
        {
            let record = &records[i];
            let name = record.name.clone();
            proof {
                assert(rows.take(i + 1).drop_last() =~= rows.take(i as int));
                assert(rows.take(i + 1).last() == record@);
                assert(map@.insert(record.id, name).map_values(|name: String| name@)
                    =~= map@.map_values(|name: String| name@).insert(record.id, name@));
            }
            map.insert(record.id, name);
        }
        proof {
            assert(rows.take(records.len() as int) =~= rows);
        }
        TexDb { textures: map }
    }

    /// The texture table of the database.
    pub fn records(&self) -> (out: Vec<TexRecord>)
        ensures
            views(out@) == tex_rows(self@),
    {
        let entries = entries_u32(&self.textures);
        let ghost ids = ascending_u32(self.textures@.dom());
        let mut out: Vec<TexRecord> = Vec::new();
        proof {
            assert(self@.dom() =~= self.textures@.dom());
        }
        for i in 0..entries.len()
            invariant
                ids == ascending_u32(self.textures@.dom()),
                entries@.len() == ids.len(),
                forall|k: int|
                    0 <= k < entries@.len() ==> {
                        &&& (#[trigger] entries@[k]).0 == ids[k]
                        &&& self.textures@.contains_key(entries@[k].0)
                        &&& *entries@[k].1 == self.textures@[entries@[k].0]
                    },
                self@.dom() == self.textures@.dom(),
                out@.len() == i,
                forall|k: int|
                    0 <= k < i ==> (#[trigger] out@[k])@ == (TexRow {
                        id: ids[k],
                        name: self@[ids[k]],
                    }),
        {
            let (id, name) = entries[i];
            out.push(TexRecord { id, name: name.clone() });
        }
        proof {
            assert(views(out@) =~= tex_rows(self@));
        }
        out
    }
}

} // verus!
