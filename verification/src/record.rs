//! The row type of a table: a record of text fields.
//!
//! Rows and headers are `csv::StringRecord` values. The verifier cannot look
//! inside one, so this module gives the record's fields a name and states what
//! the two accessors used by the rest of the crate return.

use vstd::prelude::*;

verus! {

/// Makes `csv::StringRecord` known to the verifier, as a type whose inside it
/// does not see.
#[verifier::external_type_specification]
#[verifier::external_body]
pub struct ExStringRecord(csv::StringRecord);

/// The fields a record holds, in order, each as its sequence of characters.
/// Nothing is known of them but what `field_count` and `field` report.
pub uninterp spec fn record_fields(r: csv::StringRecord) -> Seq<Seq<char>>;

/// The cell of record `r` at position `p`: the field's text, or `None` when
/// the record has no field there.
pub open spec fn cell_at(r: csv::StringRecord, p: int) -> Option<Seq<char>> {
    if 0 <= p < record_fields(r).len() {
        Some(record_fields(r)[p])
    } else {
        None
    }
}

/// Calls `csv::StringRecord::len`, which counts the record's fields.
#[verifier::external_body]
pub(crate) fn field_count(r: &csv::StringRecord) -> (n: usize)
    ensures
        n == record_fields(*r).len(),
{
    r.len()
}

/// Calls `csv::StringRecord::get`, which returns the field at index `i`, or
/// `None` when the record has fewer than `i + 1` fields.
#[verifier::external_body]
pub(crate) fn field<'a>(r: &'a csv::StringRecord, i: usize) -> (cell: Option<&'a str>)
    ensures
        match cell {
            Some(text) => cell_at(*r, i as int) == Some(text@),
            None => cell_at(*r, i as int).is_none(),
        },
{
    r.get(i)
}

} // verus!
