//! The datum of a cell when no target type is asked for.

use vstd::prelude::*;
use crate::text::{is_float_text, reads_as_float, FromText};

verus! {

/// What the text of a cell is when no target type is asked for.
///
/// A cell is an integer where it reads as one, else a floating-point number
/// where it reads as one, else plain text. `Float` and `NotNumber` hold the
/// cell's text as it stands.
#[derive(Debug, PartialEq)]
pub enum Datum<'a> {
    Integer(i32),
    Float(&'a str),
    NotNumber(&'a str),
    Missing,
}

/// What a `Datum` stands for.
pub enum DatumView {
    Integer(i32),
    Float(Seq<char>),
    NotNumber(Seq<char>),
    Missing,
}

impl<'a> View for Datum<'a> {
    type V = DatumView;

    open spec fn view(&self) -> DatumView {
        match *self {
            Datum::Integer(n) => DatumView::Integer(n),
            Datum::Float(text) => DatumView::Float(text@),
            Datum::NotNumber(text) => DatumView::NotNumber(text@),
            Datum::Missing => DatumView::Missing,
        }
    }
}

/// The datum of a cell: `Missing` for an absent cell; for a present one the
/// integer it reads as, else `Float` where it reads as a floating-point
/// number, else `NotNumber`.
pub open spec fn classify(cell: Option<Seq<char>>) -> DatumView {
    match cell {
        None => DatumView::Missing,
        Some(text) => match <i32 as FromText>::parsed(text) {
            Some(n) => DatumView::Integer(n),
            None => if is_float_text(text) {
                DatumView::Float(text)
            } else {
                DatumView::NotNumber(text)
            },
        },
    }
}

/// Text that reads both as an integer and as a floating-point number is
/// classified as an integer.
pub proof fn lemma_integer_before_float(text: Seq<char>)
    requires
        <i32 as FromText>::parsed(text).is_some(),
        is_float_text(text),
    ensures
        classify(Some(text)) is Integer,
{
}

impl<'a> Datum<'a> {
    /// Classifies a cell: its text, or `None` for an absent cell.
    pub fn of(cell: Option<&'a str>) -> (datum: Datum<'a>)
        ensures
            datum@ == classify(
                match cell {
                    Some(text) => Some(text@),
                    None => None,
                },
            ),
    {
        match cell {
            None => Datum::Missing,
            Some(text) => match i32::from_text(text) {
                Some(n) => Datum::Integer(n),
                None => if reads_as_float(text) {
                    Datum::Float(text)
                } else {
                    Datum::NotNumber(text)
                },
            },
        }
    }
}

} // verus!
