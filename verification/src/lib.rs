//! In-memory tables of raw text cells with typed, policy-driven column access.
//!
//! A [`RawFrame`] holds a header of column names and rows of text cells. A
//! caller picks, per access, the type a column is read as and what becomes of
//! the cells that do not read as that type: they stay as `None`, they are
//! replaced by a default, or their rows are left out.
//!
//! The modules, leaves first:
//! - [`record`]: the row type, `csv::StringRecord`, and what is taken on
//!   trust of it;
//! - [`text`]: reading values out of cell text;
//! - [`order`] and [`sort`]: ranking values, extremes, stable sorting;
//! - [`header`]: resolving column names;
//! - [`policy`] and [`datum`]: what becomes of a cell;
//! - [`frame`]: the table and its accessors;
//! - [`utils`]: helpers for extracted columns.

pub mod datum;
pub mod frame;
pub mod header;
pub mod order;
pub mod policy;
pub mod record;
pub mod sort;
pub mod text;
pub mod utils;

pub use datum::Datum;
pub use frame::{FrameError, RawFrame};
