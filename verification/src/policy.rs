//! What the accessors make of a cell: the three ways of dealing with cells
//! that are absent or do not read as the target type.
//!
//! *Optional* keeps such a cell as `None`, *imputed* puts a default in its
//! place, *filtered* leaves out its row. The functions here say, record by
//! record, what each policy yields; the accessors of the table are stated over
//! them.

use vstd::prelude::*;
use crate::record::{cell_at, field};
use crate::text::FromText;

verus! {

/// The value of type `T` in the cell of record `r` at position `p`; `None`
/// where the cell is absent or does not read as a `T`.
pub open spec fn typed_cell<T: FromText>(r: csv::StringRecord, p: int) -> Option<T> {
    match cell_at(r, p) {
        Some(text) => T::parsed(text),
        None => None,
    }
}

/// `typed_cell` at a fixed position, as a function of the record.
pub open spec fn typed_at<T: FromText>(p: int) -> spec_fn(csv::StringRecord) -> Option<T> {
    |r: csv::StringRecord| typed_cell::<T>(r, p)
}

/// Whether the cell of a record at position `p` reads as a `T`.
pub open spec fn readable_at<T: FromText>(p: int) -> spec_fn(csv::StringRecord) -> bool {
    |r: csv::StringRecord| typed_cell::<T>(r, p).is_some()
}

/// Filtering a column keeps one value for each row whose cell reads as a `T`,
/// so never more values than there are rows.
pub proof fn lemma_filtered_count<T: FromText>(rows: Seq<csv::StringRecord>, p: int)
    ensures
        rows.filter_map(typed_at::<T>(p)).len() == rows.filter(readable_at::<T>(p)).len(),
        rows.filter_map(typed_at::<T>(p)).len() <= rows.len(),
    decreases rows.len(),
{
    reveal(Seq::filter);
    if rows.len() > 0 {
        lemma_filtered_count::<T>(rows.drop_last(), p);
    }
}

/// The value that imputation gives for the cell of `r` at `p`: the cell's
/// value where it has one, else `default`.
pub open spec fn imputed_cell<T: FromText>(r: csv::StringRecord, p: int, default: T) -> T {
    match typed_cell::<T>(r, p) {
        Some(v) => v,
        None => default,
    }
}

/// Whether `out` may stand for the cell of `r` at `p` under imputation: the
/// cell's value where it has one, else a clone of `default`.
pub open spec fn imputes<T: FromText + Clone>(
    r: csv::StringRecord,
    p: int,
    default: T,
    out: T,
) -> bool {
    match typed_cell::<T>(r, p) {
        Some(v) => out == v,
        None => cloned(default, out),
    }
}

/// The pair of values of type `T` in the cells of a record at positions `px`
/// and `py`; `None` unless both cells read as a `T`.
pub open spec fn pair_at<T: FromText>(px: int, py: int) -> spec_fn(csv::StringRecord) -> Option<
    (T, T),
> {
    |r: csv::StringRecord|
        match (typed_cell::<T>(r, px), typed_cell::<T>(r, py)) {
            (Some(x), Some(y)) => Some((x, y)),
            _ => None,
        }
}

/// The pair that imputation gives for a record, each position with its own
/// default.
pub open spec fn imputed_pair_at<T: FromText>(px: int, py: int, dx: T, dy: T) -> spec_fn(
    csv::StringRecord,
) -> (T, T) {
    |r: csv::StringRecord| (imputed_cell(r, px, dx), imputed_cell(r, py, dy))
}

/// The smaller of two lengths.
pub open spec fn shorter(a: nat, b: nat) -> nat {
    if a <= b {
        a
    } else {
        b
    }
}

/// The values of type `T` in the cells of a record at `positions`, in their
/// order; `None` unless every one of these cells reads as a `T`.
pub open spec fn slice_at<T: FromText>(positions: Seq<int>) -> spec_fn(csv::StringRecord) -> Option<
    Seq<T>,
> {
    |r: csv::StringRecord|
        if forall|c: int|
            0 <= c < positions.len() ==> typed_cell::<T>(r, #[trigger] positions[c]).is_some() {
            Some(Seq::new(positions.len(), |c: int| typed_cell::<T>(r, positions[c]).unwrap()))
        } else {
            None
        }
}

/// Whether `out` may stand for record `r` at `positions` under imputation:
/// one entry for each position that has a default, each as `imputes` says.
pub open spec fn imputes_row<T: FromText + Clone>(
    r: csv::StringRecord,
    positions: Seq<int>,
    defaults: Seq<T>,
    out: Seq<T>,
) -> bool {
    &&& out.len() == shorter(positions.len(), defaults.len())
    &&& forall|c: int|
        0 <= c < out.len() ==> imputes(r, positions[c], defaults[c], #[trigger] out[c])
}

/// The row that imputation gives for a record: one value for each position
/// that has a default.
pub open spec fn imputed_row_at<T: FromText>(positions: Seq<int>, defaults: Seq<T>) -> spec_fn(
    csv::StringRecord,
) -> Seq<T> {
    |r: csv::StringRecord|
        Seq::new(
            shorter(positions.len(), defaults.len()),
            |c: int| imputed_cell(r, positions[c], defaults[c]),
        )
}

/// The column that imputation gives for position `p`: one value per row.
pub open spec fn imputed_column<T: FromText>(rows: Seq<csv::StringRecord>, p: int, default: T) -> Seq<
    T,
> {
    Seq::new(rows.len(), |i: int| imputed_cell(rows[i], p, default))
}

/// The columns that imputation gives, one for each position that has a
/// default.
pub open spec fn imputed_columns<T: FromText>(
    rows: Seq<csv::StringRecord>,
    positions: Seq<int>,
    defaults: Seq<T>,
) -> Seq<Seq<T>> {
    Seq::new(
        shorter(positions.len(), defaults.len()),
        |c: int| imputed_column(rows, positions[c], defaults[c]),
    )
}

/// The rows that a vector of row vectors holds.
pub open spec fn rows_of<T>(v: Seq<Vec<T>>) -> Seq<Seq<T>> {
    v.map_values(|row: Vec<T>| row@)
}

/// Reads the cell of `record` at position `p` as a `T`.
pub(crate) fn read_cell<T: FromText>(record: &csv::StringRecord, p: usize) -> (value: Option<T>)
    ensures
        value == typed_cell::<T>(*record, p as int),
{
    match field(record, p) {
        Some(text) => T::from_text(text),
        None => None,
    }
}

} // verus!
