//! What the four schemas share about record tables: how a table of records
//! is viewed in contracts, and the count that stands before it in a header.

use vstd::prelude::*;

verus! {

/// The views of the records of a table, in table order.
pub open spec fn views<T: View>(records: Seq<T>) -> Seq<T::V> {
    Seq::new(records.len(), |i: int| records[i]@)
}

/// The views of a table grown by one record.
pub proof fn lemma_views_push<T: View>(records: Seq<T>, record: T)
    ensures
        views(records.push(record)) == views(records).push(record@),
{
    assert(views(records.push(record)) =~= views(records).push(record@));
}

/// The 32-bit count field that a header holds for a table of `len` records,
/// or `None` where the table has more records than the field can count.
pub fn count_field(len: usize) -> (count: Option<u32>)
    ensures
        count == if len <= u32::MAX {
            Some(len as u32)
        } else {
            None
        },
{
    if len <= 0xFFFF_FFFF {
        Some(len as u32)
    } else {
        None
    }
}

} // verus!
